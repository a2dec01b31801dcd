//! Expression nodes and the arena that holds them. A handle is the index of
//! its node; copying a handle shares the node. A node can only name nodes
//! that already exist, so every child has a smaller index than its parent
//! and the graph has no cycle.
use vstd::prelude::*;
use crate::shape::Shape;

verus! {

/// Binary operators.
#[derive(Debug, Clone, Copy, PartialEq, Eq, Structural)]
pub enum BinOp {
    Add,
    Mul,
}

/// Unary operators, applied to each element.
#[derive(Debug, Clone, Copy, PartialEq, Eq, Structural)]
pub enum UnOp {
    /// Negation, y = -x.
    Neg,
    /// Reciprocal, y = 1/x.
    Rec,
    /// Exponential, y = e^x.
    Exp,
    /// Logarithm, y = ln(x).
    Log,
    /// Greater than zero, y = (x > 0).
    Gtz,
}

/// A handle to an expression node: the node's index in its graph.
#[derive(Debug, Clone, Copy, PartialEq, Eq, Structural)]
pub struct Expr(pub usize);

/// A leaf: a tensor of the given shape.
#[derive(Debug)]
pub struct Param {
    pub shape: Shape,
}

/// A binary node. Its shape is the shape of its left operand.
#[derive(Debug)]
pub struct Bin {
    pub op: BinOp,
    pub shape: Shape,
    pub l: Expr,
    pub r: Expr,
}

/// A unary node. Its shape is the shape of its operand.
#[derive(Debug)]
pub struct Un {
    pub op: UnOp,
    pub shape: Shape,
    pub x: Expr,
}

/// The kinds of expression node.
#[derive(Debug)]
pub enum ExprData {
    /// A parameter or input.
    Param(Param),
    /// A tensor of zeros, the gradient of a branch that contributes none.
    Zero(Param),
    Bin(Bin),
    Un(Un),
}

impl ExprData {
    pub open spec fn shape(self) -> Seq<usize> {
        match self {
            ExprData::Param(p) => p.shape@,
            ExprData::Zero(p) => p.shape@,
            ExprData::Bin(b) => b.shape@,
            ExprData::Un(u) => u.shape@,
        }
    }

    /// Every child of the node has an index below `i`.
    pub open spec fn children_below(self, i: int) -> bool {
        match self {
            ExprData::Bin(b) => b.l.0 < i && b.r.0 < i,
            ExprData::Un(u) => u.x.0 < i,
            _ => true,
        }
    }
}

/// What the node of handle `r` in `g2` is: a binary node.
pub open spec fn is_bin(g2: ExprGraph, r: Expr, op: BinOp, l: Expr, rhs: Expr, sh: Seq<usize>) -> bool {
    &&& g2.nodes()[r.0 as int] is Bin
    &&& g2.nodes()[r.0 as int]->Bin_0.op == op
    &&& g2.nodes()[r.0 as int]->Bin_0.l == l
    &&& g2.nodes()[r.0 as int]->Bin_0.r == rhs
    &&& g2.nodes()[r.0 as int]->Bin_0.shape@ == sh
}

/// What the node of handle `r` in `g2` is: a unary node.
pub open spec fn is_un(g2: ExprGraph, r: Expr, op: UnOp, x: Expr, sh: Seq<usize>) -> bool {
    &&& g2.nodes()[r.0 as int] is Un
    &&& g2.nodes()[r.0 as int]->Un_0.op == op
    &&& g2.nodes()[r.0 as int]->Un_0.x == x
    &&& g2.nodes()[r.0 as int]->Un_0.shape@ == sh
}

/// `g2` is `g1` with new nodes after its own, all of them well formed.
pub open spec fn extends(g1: ExprGraph, g2: ExprGraph) -> bool {
    &&& g2.wf()
    &&& g1.nodes().len() <= g2.nodes().len()
    &&& g2.nodes().subrange(0, g1.nodes().len() as int) == g1.nodes()
}

/// `g2` is `g1` with one node more, the node of handle `r`.
pub open spec fn appends(g1: ExprGraph, g2: ExprGraph, r: Expr) -> bool {
    &&& extends(g1, g2)
    &&& g2.nodes().len() == g1.nodes().len() + 1
    &&& r.0 == g1.nodes().len()
}

/// The graph of expression nodes.
#[derive(Debug)]
pub struct ExprGraph {
    nodes: Vec<ExprData>,
}

impl ExprGraph {
    pub closed spec fn nodes(self) -> Seq<ExprData> {
        self.nodes@
    }

    /// The shape of node `i` is the shape of its left (or only) operand.
    pub open spec fn shape_follows(self, i: int) -> bool {
        match self.nodes()[i] {
            ExprData::Bin(b) => b.shape@ == self.nodes()[b.l.0 as int].shape(),
            ExprData::Un(u) => u.shape@ == self.nodes()[u.x.0 as int].shape(),
            _ => true,
        }
    }

    pub open spec fn wf(self) -> bool {
        &&& forall|i: int| 0 <= i < self.nodes().len() ==> (#[trigger] self.nodes()[i]).children_below(i)
        &&& forall|i: int| 0 <= i < self.nodes().len() ==> #[trigger] self.shape_follows(i)
    }

    pub open spec fn valid(self, e: Expr) -> bool {
        e.0 < self.nodes().len()
    }

    pub fn new() -> (r: ExprGraph)
        ensures
            r.wf(),
            r.nodes().len() == 0,
    {
        ExprGraph { nodes: Vec::new() }
    }

    pub fn len(&self) -> (r: usize)
        ensures
            r == self.nodes().len(),
    {
        self.nodes.len()
    }

    pub fn node(&self, e: Expr) -> (r: &ExprData)
        requires
            self.valid(e),
        ensures
            *r == self.nodes()[e.0 as int],
    {
        &self.nodes[e.0]
    }

    /// The shape of an expression.
    pub fn shape(&self, e: Expr) -> (r: &Shape)
        requires
            self.valid(e),
        ensures
            r@ == self.nodes()[e.0 as int].shape(),
    {
        match &self.nodes[e.0] {
            ExprData::Param(p) => &p.shape,
            ExprData::Zero(p) => &p.shape,
            ExprData::Bin(b) => &b.shape,
            ExprData::Un(u) => &u.shape,
        }
    }

    /// Adds a node whose children already exist.
    fn push(&mut self, d: ExprData) -> (r: Expr)
        requires
            old(self).wf(),
            d.children_below(old(self).nodes().len() as int),
            d is Bin ==> d->Bin_0.shape@ == old(self).nodes()[d->Bin_0.l.0 as int].shape(),
            d is Un ==> d->Un_0.shape@ == old(self).nodes()[d->Un_0.x.0 as int].shape(),
        ensures
            appends(*old(self), *final(self), r),
            final(self).nodes()[r.0 as int] == d,
    {
        let r = Expr(self.nodes.len());
        self.nodes.push(d);
        assert(self.nodes@.subrange(0, old(self).nodes@.len() as int) =~= old(self).nodes@);
        assert forall|i: int| 0 <= i < self.nodes().len() implies (#[trigger] self.nodes()[i]).children_below(i) by {
            if i < old(self).nodes@.len() {
                assert(self.nodes@[i] == old(self).nodes@[i]);
            }
        }
        assert forall|i: int| 0 <= i < self.nodes().len() implies #[trigger] self.shape_follows(i) by {
            if i < old(self).nodes@.len() {
                assert(self.nodes@[i] == old(self).nodes@[i]);
                assert(old(self).shape_follows(i));
                assert(old(self).nodes()[i].children_below(i));
                match self.nodes@[i] {
                    ExprData::Bin(b) => {
                        assert(self.nodes@[b.l.0 as int] == old(self).nodes@[b.l.0 as int]);
                    },
                    ExprData::Un(u) => {
                        assert(self.nodes@[u.x.0 as int] == old(self).nodes@[u.x.0 as int]);
                    },
                    _ => {},
                }
            } else {
                match d {
                    ExprData::Bin(b) => {
                        assert(self.nodes@[b.l.0 as int] == old(self).nodes@[b.l.0 as int]);
                    },
                    ExprData::Un(u) => {
                        assert(self.nodes@[u.x.0 as int] == old(self).nodes@[u.x.0 as int]);
                    },
                    _ => {},
                }
            }
        }
        r
    }

    fn bin(&mut self, op: BinOp, l: Expr, r: Expr) -> (e: Expr)
        requires
            old(self).wf(),
            old(self).valid(l),
            old(self).valid(r),
        ensures
            appends(*old(self), *final(self), e),
            is_bin(*final(self), e, op, l, r, old(self).nodes()[l.0 as int].shape()),
    {
        let shape = self.shape(l).copy();
        self.push(ExprData::Bin(Bin { op, shape, l, r }))
    }

    fn un(&mut self, op: UnOp, x: Expr) -> (e: Expr)
        requires
            old(self).wf(),
            old(self).valid(x),
        ensures
            appends(*old(self), *final(self), e),
            is_un(*final(self), e, op, x, old(self).nodes()[x.0 as int].shape()),
    {
        let shape = self.shape(x).copy();
        self.push(ExprData::Un(Un { op, shape, x }))
    }
}

/// A new parameter leaf of the given shape.
pub fn param(g: &mut ExprGraph, shape: Shape) -> (r: Expr)
    requires
        old(g).wf(),
    ensures
        appends(*old(g), *final(g), r),
        final(g).nodes()[r.0 as int] is Param,
        final(g).nodes()[r.0 as int]->Param_0.shape@ == shape@,
{
    g.push(ExprData::Param(Param { shape }))
}

/// A new zero leaf of the given shape.
pub fn zero(g: &mut ExprGraph, shape: Shape) -> (r: Expr)
    requires
        old(g).wf(),
    ensures
        appends(*old(g), *final(g), r),
        final(g).nodes()[r.0 as int] is Zero,
        final(g).nodes()[r.0 as int]->Zero_0.shape@ == shape@,
{
    g.push(ExprData::Zero(Param { shape }))
}

impl Expr {
    /// `self + rhs`.
    pub fn add(self, g: &mut ExprGraph, rhs: Expr) -> (r: Expr)
        requires
            old(g).wf(),
            old(g).valid(self),
            old(g).valid(rhs),
        ensures
            appends(*old(g), *final(g), r),
            is_bin(*final(g), r, BinOp::Add, self, rhs, old(g).nodes()[self.0 as int].shape()),
    {
        g.bin(BinOp::Add, self, rhs)
    }

    /// `self * rhs`.
    pub fn mul(self, g: &mut ExprGraph, rhs: Expr) -> (r: Expr)
        requires
            old(g).wf(),
            old(g).valid(self),
            old(g).valid(rhs),
        ensures
            appends(*old(g), *final(g), r),
            is_bin(*final(g), r, BinOp::Mul, self, rhs, old(g).nodes()[self.0 as int].shape()),
    {
        g.bin(BinOp::Mul, self, rhs)
    }

    /// `self - rhs`, built as `self + (-rhs)`.
    pub fn sub(self, g: &mut ExprGraph, rhs: Expr) -> (r: Expr)
        requires
            old(g).wf(),
            old(g).valid(self),
            old(g).valid(rhs),
        ensures
            extends(*old(g), *final(g)),
            final(g).nodes().len() == old(g).nodes().len() + 2,
            r.0 == old(g).nodes().len() + 1,
            is_un(*final(g), Expr((r.0 - 1) as usize), UnOp::Neg, rhs, old(g).nodes()[rhs.0 as int].shape()),
            is_bin(*final(g), r, BinOp::Add, self, Expr((r.0 - 1) as usize), old(g).nodes()[self.0 as int].shape()),
    {
        let n = rhs.neg(g);
        let r = self.add(g, n);
        assert(final(g).nodes().subrange(0, old(g).nodes().len() as int) =~= final(g).nodes().subrange(0, g.nodes().len() as int - 1).subrange(0, old(g).nodes().len() as int));
        r
    }

    /// `self / rhs`, built as `self * (1 / rhs)`.
    pub fn div(self, g: &mut ExprGraph, rhs: Expr) -> (r: Expr)
        requires
            old(g).wf(),
            old(g).valid(self),
            old(g).valid(rhs),
        ensures
            extends(*old(g), *final(g)),
            final(g).nodes().len() == old(g).nodes().len() + 2,
            r.0 == old(g).nodes().len() + 1,
            is_un(*final(g), Expr((r.0 - 1) as usize), UnOp::Rec, rhs, old(g).nodes()[rhs.0 as int].shape()),
            is_bin(*final(g), r, BinOp::Mul, self, Expr((r.0 - 1) as usize), old(g).nodes()[self.0 as int].shape()),
    {
        let n = rhs.rec(g);
        let r = self.mul(g, n);
        assert(final(g).nodes().subrange(0, old(g).nodes().len() as int) =~= final(g).nodes().subrange(0, g.nodes().len() as int - 1).subrange(0, old(g).nodes().len() as int));
        r
    }

    /// `-self`.
    pub fn neg(self, g: &mut ExprGraph) -> (r: Expr)
        requires
            old(g).wf(),
            old(g).valid(self),
        ensures
            appends(*old(g), *final(g), r),
            is_un(*final(g), r, UnOp::Neg, self, old(g).nodes()[self.0 as int].shape()),
    {
        g.un(UnOp::Neg, self)
    }

    /// `1 / self`.
    pub fn rec(self, g: &mut ExprGraph) -> (r: Expr)
        requires
            old(g).wf(),
            old(g).valid(self),
        ensures
            appends(*old(g), *final(g), r),
            is_un(*final(g), r, UnOp::Rec, self, old(g).nodes()[self.0 as int].shape()),
    {
        g.un(UnOp::Rec, self)
    }

    /// `e^self`.
    pub fn exp(self, g: &mut ExprGraph) -> (r: Expr)
        requires
            old(g).wf(),
            old(g).valid(self),
        ensures
            appends(*old(g), *final(g), r),
            is_un(*final(g), r, UnOp::Exp, self, old(g).nodes()[self.0 as int].shape()),
    {
        g.un(UnOp::Exp, self)
    }

    /// `ln(self)`.
    pub fn log(self, g: &mut ExprGraph) -> (r: Expr)
        requires
            old(g).wf(),
            old(g).valid(self),
        ensures
            appends(*old(g), *final(g), r),
            is_un(*final(g), r, UnOp::Log, self, old(g).nodes()[self.0 as int].shape()),
    {
        g.un(UnOp::Log, self)
    }

    /// `self > 0`, elementwise 1 or 0.
    pub fn gtz(self, g: &mut ExprGraph) -> (r: Expr)
        requires
            old(g).wf(),
            old(g).valid(self),
        ensures
            appends(*old(g), *final(g), r),
            is_un(*final(g), r, UnOp::Gtz, self, old(g).nodes()[self.0 as int].shape()),
    {
        g.un(UnOp::Gtz, self)
    }
}

/// Node `c` is a child of node `p`.
pub open spec fn child_of(g: ExprGraph, c: int, p: int) -> bool {
    match g.nodes()[p] {
        ExprData::Bin(b) => c == b.l.0 || c == b.r.0,
        ExprData::Un(u) => c == u.x.0,
        _ => false,
    }
}

/// Acyclicity: along any chain of child links from a node of a well-formed
/// graph the indices strictly decrease, so no node is its own descendant and
/// evaluation never recurses into the node it started from.
pub proof fn lemma_acyclic(g: ExprGraph, path: Seq<int>)
    requires
        g.wf(),
        path.len() >= 2,
        0 <= path[0] < g.nodes().len(),
        forall|k: int| 0 <= k < path.len() - 1 ==> child_of(g, #[trigger] path[k + 1], path[k]),
    ensures
        path.last() < path[0],
    decreases path.len(),
{
    assert(g.nodes()[path[0]].children_below(path[0]));
    if path.len() > 2 {
        let rest = path.subrange(1, path.len() as int);
        assert forall|k: int| 0 <= k < rest.len() - 1 implies child_of(g, #[trigger] rest[k + 1], rest[k]) by {
            assert(rest[k + 1] == path[k + 2]);
            assert(child_of(g, path[(k + 1) + 1], path[k + 1]));
        }
        assert(child_of(g, path[0int + 1], path[0]));
        lemma_acyclic(g, rest);
    } else {
        assert(child_of(g, path[0int + 1], path[0]));
    }
}

/// A traversal of the parameter leaves of an expression.
pub trait Visitor {
    fn visit_param(&mut self, p: &Param);
}

impl Expr {
    /// Visits the parameter leaves below this expression, left to right,
    /// once for each path that reaches them.
    pub fn accept<V: Visitor>(self, g: &ExprGraph, v: &mut V)
        requires
            g.wf(),
            g.valid(self),
        decreases self.0,
    {
        match g.node(self) {
            ExprData::Param(p) => v.visit_param(p),
            ExprData::Zero(_) => {},
            ExprData::Bin(b) => {
                b.l.accept(g, v);
                b.r.accept(g, v);
            },
            ExprData::Un(u) => u.x.accept(g, v),
        }
    }
}

} // verus!
