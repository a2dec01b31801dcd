//! Models as functions from an input expression to an output expression,
//! over parameters that the model holds.
use vstd::prelude::*;
use crate::expr::{Expr, ExprGraph, appends, extends, is_bin, param};
use crate::expr::BinOp;
use crate::shape::Shape;

verus! {

/// An input of a module that can be made as a fresh leaf.
pub trait ModuleInput: Sized {
    /// `self` is an input of shape `s` that was added to `g1`, giving `g2`.
    spec fn is_input(&self, g1: ExprGraph, g2: ExprGraph, s: Seq<usize>) -> bool;

    /// A new leaf input of the given shape.
    fn zero(g: &mut ExprGraph, s: &Shape) -> (r: Self)
        requires
            old(g).wf(),
        ensures
            extends(*old(g), *final(g)),
            r.is_input(*old(g), *final(g), s@);
}

impl ModuleInput for Expr {
    /// A new parameter leaf of shape `s`.
    open spec fn is_input(&self, g1: ExprGraph, g2: ExprGraph, s: Seq<usize>) -> bool {
        &&& appends(g1, g2, *self)
        &&& g2.nodes()[self.0 as int] is Param
        &&& g2.nodes()[self.0 as int]->Param_0.shape@ == s
    }

    fn zero(g: &mut ExprGraph, s: &Shape) -> (r: Expr) {
        param(g, s.copy())
    }
}

/// A model: maps an input expression to an output expression.
pub trait Module {
    /// The expressions that the module holds are nodes of `g`.
    spec fn fits(&self, g: ExprGraph) -> bool;

    /// Applying the module to input `i` in `g1` gives output `r` in `g2`.
    spec fn applies(&self, g1: ExprGraph, i: Expr, g2: ExprGraph, r: Expr) -> bool;

    fn forward(&self, g: &mut ExprGraph, i: Expr) -> (r: Expr)
        requires
            old(g).wf(),
            old(g).valid(i),
            self.fits(*old(g)),
        ensures
            extends(*old(g), *final(g)),
            final(g).valid(r),
            self.fits(*final(g)),
            self.applies(*old(g), i, *final(g), r);
}

/// The affine model `i * weight + bias`.
pub struct Affine {
    pub weight: Expr,
    pub bias: Expr,
}

impl Affine {
    /// A model with a new weight and a new bias, both parameters of the
    /// given shape.
    pub fn new(g: &mut ExprGraph, s: &Shape) -> (r: Affine)
        requires
            old(g).wf(),
        ensures
            extends(*old(g), *final(g)),
            final(g).nodes().len() == old(g).nodes().len() + 2,
            r.weight.0 == old(g).nodes().len(),
            r.bias.0 == old(g).nodes().len() + 1,
            final(g).nodes()[r.weight.0 as int] is Param,
            final(g).nodes()[r.weight.0 as int]->Param_0.shape@ == s@,
            final(g).nodes()[r.bias.0 as int] is Param,
            final(g).nodes()[r.bias.0 as int]->Param_0.shape@ == s@,
            r.fits(*final(g)),
            r.weight != r.bias,
    {
        let weight = param(g, s.copy());
        let ghost g1 = *g;
        let bias = param(g, s.copy());
        proof {
            assert(g.nodes().subrange(0, old(g).nodes().len() as int) =~= g.nodes().subrange(0, g1.nodes().len() as int).subrange(0, old(g).nodes().len() as int));
            assert(g.nodes()[weight.0 as int] == g1.nodes()[weight.0 as int]) by {
                assert(g.nodes().subrange(0, g1.nodes().len() as int)[weight.0 as int] == g.nodes()[weight.0 as int]);
            }
        }
        Affine { weight, bias }
    }
}

impl Affine {
    /// `i * weight + bias`: a product node, then a sum node.
    pub fn apply(&self, g: &mut ExprGraph, i: Expr) -> (r: Expr)
        requires
            old(g).wf(),
            old(g).valid(i),
            old(g).valid(self.weight),
            old(g).valid(self.bias),
        ensures
            extends(*old(g), *final(g)),
            final(g).nodes().len() == old(g).nodes().len() + 2,
            r.0 == old(g).nodes().len() + 1,
            is_bin(*final(g), Expr((r.0 - 1) as usize), BinOp::Mul, i, self.weight, old(g).nodes()[i.0 as int].shape()),
            is_bin(*final(g), r, BinOp::Add, Expr((r.0 - 1) as usize), self.bias, old(g).nodes()[i.0 as int].shape()),
    {
        let m = i.mul(g, self.weight);
        let ghost g1 = *g;
        let r = m.add(g, self.bias);
        proof {
            assert(g.nodes().subrange(0, old(g).nodes().len() as int) =~= g.nodes().subrange(0, g1.nodes().len() as int).subrange(0, old(g).nodes().len() as int));
            assert(g.nodes()[m.0 as int] == g1.nodes()[m.0 as int]) by {
                assert(g.nodes().subrange(0, g1.nodes().len() as int)[m.0 as int] == g.nodes()[m.0 as int]);
            }
        }
        r
    }
}

impl Module for Affine {
    open spec fn fits(&self, g: ExprGraph) -> bool {
        g.valid(self.weight) && g.valid(self.bias)
    }

    /// A product node `i * weight`, then a sum node with `bias`.
    open spec fn applies(&self, g1: ExprGraph, i: Expr, g2: ExprGraph, r: Expr) -> bool {
        &&& g2.nodes().len() == g1.nodes().len() + 2
        &&& r.0 == g1.nodes().len() + 1
        &&& is_bin(g2, Expr((r.0 - 1) as usize), BinOp::Mul, i, self.weight, g1.nodes()[i.0 as int].shape())
        &&& is_bin(g2, r, BinOp::Add, Expr((r.0 - 1) as usize), self.bias, g1.nodes()[i.0 as int].shape())
    }

    fn forward(&self, g: &mut ExprGraph, i: Expr) -> (r: Expr) {
        self.apply(g, i)
    }
}

} // verus!
