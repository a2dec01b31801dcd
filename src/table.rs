//! The hash tables of the graph builder, kept in `indexmap`'s insertion-ordered
//! collections. Keys are tuples of integers.
use vstd::prelude::*;
use indexmap::{IndexMap, IndexSet};

verus! {

#[verifier::external_type_specification]
#[verifier::external_body]
#[verifier::reject_recursive_types(K)]
#[verifier::reject_recursive_types(V)]
#[verifier::reject_recursive_types(S)]
pub struct ExIndexMap<K, V, S>(IndexMap<K, V, S>);

#[verifier::external_type_specification]
#[verifier::external_body]
#[verifier::reject_recursive_types(T)]
#[verifier::reject_recursive_types(S)]
pub struct ExIndexSet<T, S>(IndexSet<T, S>);

/// A key of the operation table: an operation code and two source buffers.
pub type OpKey = (u64, u64, u64);

/// The operation table: each key to the buffer that holds its result.
pub type OpTable = IndexMap<OpKey, u64>;

/// A dependency edge: a source buffer and a buffer that consumes it.
pub type Edge = (u64, u64);

/// What an operation table maps each of its keys to.
pub uninterp spec fn op_table(m: OpTable) -> Map<OpKey, u64>;

/// The edges that an edge set holds.
pub uninterp spec fn edge_set(s: IndexSet<Edge>) -> Set<Edge>;

/// Relies on `IndexMap::new`: a new map holds no key.
#[verifier::external_body]
pub(crate) fn op_table_new() -> (r: OpTable)
    ensures
        op_table(r).is_empty(),
{
    IndexMap::new()
}

/// Relies on `IndexMap::get`: the value stored for a key that the map holds,
/// `None` for any other key.
#[verifier::external_body]
pub(crate) fn op_table_get(m: &OpTable, k: &OpKey) -> (r: Option<u64>)
    ensures
        op_table(*m).contains_key(*k) ==> r == Some(op_table(*m)[*k]),
        !op_table(*m).contains_key(*k) ==> r is None,
{
    m.get(k).copied()
}

/// Relies on `IndexMap::insert`: afterwards the key maps to the value and
/// every other key keeps what it had.
#[verifier::external_body]
pub(crate) fn op_table_insert(m: &mut OpTable, k: OpKey, v: u64)
    ensures
        op_table(*final(m)) == op_table(*old(m)).insert(k, v),
{
    m.insert(k, v);
}

/// Relies on `IndexSet::new`: a new set holds nothing.
#[verifier::external_body]
pub(crate) fn edge_set_new() -> (r: IndexSet<Edge>)
    ensures
        edge_set(r).is_empty(),
{
    IndexSet::new()
}

/// Relies on `IndexSet::insert`: afterwards the set holds the value as well
/// as everything it held before.
#[verifier::external_body]
pub(crate) fn edge_set_insert(s: &mut IndexSet<Edge>, e: Edge)
    ensures
        edge_set(*final(s)) == edge_set(*old(s)).insert(e),
{
    s.insert(e);
}

/// Relies on `IndexSet::contains`: whether the set holds the value.
#[verifier::external_body]
pub(crate) fn edge_set_contains(s: &IndexSet<Edge>, e: &Edge) -> (r: bool)
    ensures
        r == edge_set(*s).contains(*e),
{
    s.contains(e)
}

} // verus!
