//! A lazy tensor-expression engine: an expression DAG with reverse-mode
//! differentiation rules, and a graph builder that lowers evaluation into a
//! deduplicated operation graph by structural hash-consing.

pub mod shape;
pub mod table;
pub mod ml;
pub mod expr;
pub mod eval;
pub mod grad;
pub mod module;
