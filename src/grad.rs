//! Reverse-mode differentiation. Each node kind has a local rule that builds
//! the gradient of each child from the gradient of the node; the backward
//! walk visits nodes from the root down and sums what each node receives
//! from all of its parents.
use vstd::prelude::*;
use crate::expr::{BinOp, Expr, ExprData, ExprGraph, UnOp, child_of, extends, is_bin, is_un, zero};

verus! {

/// What the local rule of node `e` gives for incoming gradient `grad`: `out`
/// pairs each child with the gradient expression built for it in `g2`.
pub open spec fn local_rule(g1: ExprGraph, g2: ExprGraph, e: Expr, grad: Expr, out: Seq<(Expr, Expr)>) -> bool {
    let gs = g1.nodes()[grad.0 as int].shape();
    match g1.nodes()[e.0 as int] {
        ExprData::Param(_) => out.len() == 0,
        ExprData::Zero(_) => out.len() == 0,
        ExprData::Bin(n) => match n.op {
            // the gradient itself goes to both operands
            BinOp::Add => out == seq![(n.l, grad), (n.r, grad)],
            // grad * r to l, grad * l to r
            BinOp::Mul => {
                &&& out.len() == 2
                &&& out[0].0 == n.l
                &&& is_bin(g2, out[0].1, BinOp::Mul, grad, n.r, gs)
                &&& out[1].0 == n.r
                &&& is_bin(g2, out[1].1, BinOp::Mul, grad, n.l, gs)
            },
        },
        ExprData::Un(n) => {
            &&& out.len() == 1
            &&& out[0].0 == n.x
            &&& match n.op {
                // -grad
                UnOp::Neg => is_un(g2, out[0].1, UnOp::Neg, grad, gs),
                // -grad * y * y, where y = 1/x is the node itself
                UnOp::Rec => {
                    let a = out[0].1;
                    let b = g2.nodes()[a.0 as int]->Bin_0.l;
                    let m = g2.nodes()[b.0 as int]->Bin_0.l;
                    &&& is_bin(g2, a, BinOp::Mul, b, e, gs)
                    &&& is_bin(g2, b, BinOp::Mul, m, e, gs)
                    &&& is_un(g2, m, UnOp::Neg, grad, gs)
                },
                // grad * y, where y = e^x is the node itself
                UnOp::Exp => is_bin(g2, out[0].1, BinOp::Mul, grad, e, gs),
                // grad / x, built as grad * (1/x)
                UnOp::Log => {
                    let a = out[0].1;
                    let q = g2.nodes()[a.0 as int]->Bin_0.r;
                    &&& is_bin(g2, a, BinOp::Mul, grad, q, gs)
                    &&& is_un(g2, q, UnOp::Rec, n.x, g1.nodes()[n.x.0 as int].shape())
                },
                // a step has zero derivative: zeros of the gradient's shape
                UnOp::Gtz => {
                    &&& g2.nodes()[out[0].1.0 as int] is Zero
                    &&& g2.nodes()[out[0].1.0 as int]->Zero_0.shape@ == gs
                },
            }
        },
    }
}

/// The local rule of node `e`: builds, for each child, the gradient that
/// `e` passes to it when `grad` is the gradient of `e`.
pub fn push_grads(g: &mut ExprGraph, e: Expr, grad: Expr) -> (out: Vec<(Expr, Expr)>)
    requires
        old(g).wf(),
        old(g).valid(e),
        old(g).valid(grad),
    ensures
        extends(*old(g), *final(g)),
        local_rule(*old(g), *final(g), e, grad, out@),
        forall|k: int| 0 <= k < out@.len() ==> (#[trigger] out@[k]).0.0 < e.0 && final(g).valid(out@[k].1),
        forall|k: int| 0 <= k < out@.len() ==> child_of(*old(g), (#[trigger] out@[k]).0.0 as int, e.0 as int),
        forall|j: int| child_of(*old(g), j, e.0 as int) ==> exists|k: int| 0 <= k < out@.len() && (#[trigger] out@[k]).0.0 == j,
        forall|k: int| 0 <= k < out@.len() ==> passes(*old(g), *final(g), e.0 as int, grad, (#[trigger] out@[k]).0.0 as int, out@[k].1),
        forall|j: int| count_for(out@, out@.len() as int, j) == #[trigger] mult(*old(g), e.0 as int, j),
{
    let ghost g0 = *g;
    let mut out: Vec<(Expr, Expr)> = Vec::new();
    match g.node(e) {
        ExprData::Param(_) => {
            assert(g.nodes().subrange(0, g.nodes().len() as int) =~= g.nodes());
        },
        ExprData::Zero(_) => {
            assert(g.nodes().subrange(0, g.nodes().len() as int) =~= g.nodes());
        },
        ExprData::Bin(n) => {
            let (l, r) = (n.l, n.r);
            match n.op {
                BinOp::Add => {
                    out.push((l, grad));
                    out.push((r, grad));
                    assert(g.nodes().subrange(0, g.nodes().len() as int) =~= g.nodes());
                    assert(out@ =~= seq![(l, grad), (r, grad)]);
                    assert(out@[0].0 == l && out@[1].0 == r);
                },
                BinOp::Mul => {
                    let a = grad.mul(g, r);
                    let ghost g1 = *g;
                    let b = grad.mul(g, l);
                    assert(g.nodes()[a.0 as int] == g1.nodes()[a.0 as int]) by {
                        assert(g.nodes().subrange(0, g1.nodes().len() as int)[a.0 as int] == g.nodes()[a.0 as int]);
                    }
                    assert(g.nodes().subrange(0, g0.nodes().len() as int) =~= g1.nodes().subrange(0, g0.nodes().len() as int));
                    out.push((l, a));
                    out.push((r, b));
                    assert(out@[0].0 == l && out@[1].0 == r);
                },
            }
        },
        ExprData::Un(n) => {
            let x = n.x;
            match n.op {
                UnOp::Neg => {
                    let a = grad.neg(g);
                    out.push((x, a));
                    assert(out@[0].0 == x);
                },
                UnOp::Rec => {
                    let m = grad.neg(g);
                    let ghost g1 = *g;
                    let b = m.mul(g, e);
                    let ghost g2 = *g;
                    let a = b.mul(g, e);
                    assert(g.nodes()[b.0 as int] == g2.nodes()[b.0 as int]) by {
                        assert(g.nodes().subrange(0, g2.nodes().len() as int)[b.0 as int] == g.nodes()[b.0 as int]);
                    }
                    assert(g.nodes()[m.0 as int] == g1.nodes()[m.0 as int]) by {
                        assert(g.nodes().subrange(0, g2.nodes().len() as int)[m.0 as int] == g.nodes()[m.0 as int]);
                        assert(g2.nodes().subrange(0, g1.nodes().len() as int)[m.0 as int] == g2.nodes()[m.0 as int]);
                    }
                    assert(g.nodes().subrange(0, g0.nodes().len() as int) =~= g2.nodes().subrange(0, g0.nodes().len() as int));
                    assert(g2.nodes().subrange(0, g0.nodes().len() as int) =~= g1.nodes().subrange(0, g0.nodes().len() as int));
                    assert(g1.nodes()[grad.0 as int] == g0.nodes()[grad.0 as int]) by {
                        assert(g1.nodes().subrange(0, g0.nodes().len() as int)[grad.0 as int] == g1.nodes()[grad.0 as int]);
                    }
                    assert(g2.nodes()[m.0 as int] == g1.nodes()[m.0 as int]) by {
                        assert(g2.nodes().subrange(0, g1.nodes().len() as int)[m.0 as int] == g2.nodes()[m.0 as int]);
                    }
                    out.push((x, a));
                    assert(out@[0].0 == x);
                },
                UnOp::Exp => {
                    let a = grad.mul(g, e);
                    out.push((x, a));
                    assert(out@[0].0 == x);
                },
                UnOp::Log => {
                    let a = grad.div(g, x);
                    out.push((x, a));
                    assert(out@[0].0 == x);
                },
                UnOp::Gtz => {
                    let s = g.shape(grad).copy();
                    let a = zero(g, s);
                    out.push((x, a));
                    assert(out@[0].0 == x);
                },
            }
        },
    }
    proof {
        lemma_node_kept(g0, *g, grad.0 as int);
        lemma_node_kept(g0, *g, e.0 as int);
        assert forall|j: int| count_for(out@, out@.len() as int, j) == #[trigger] mult(g0, e.0 as int, j) by {
            reveal_with_fuel(count_for, 3);
        }
    }
    out
}

proof fn lemma_extends_trans(g0: ExprGraph, g1: ExprGraph, g2: ExprGraph)
    requires
        extends(g0, g1),
        extends(g1, g2),
    ensures
        extends(g0, g2),
{
    assert(g2.nodes().subrange(0, g0.nodes().len() as int) =~= g2.nodes().subrange(0, g1.nodes().len() as int).subrange(0, g0.nodes().len() as int));
}

/// Every gradient in `grads` is a node of `g`.
pub open spec fn grads_valid(g: ExprGraph, grads: Seq<Option<Expr>>) -> bool {
    forall|j: int| 0 <= j < grads.len() && (#[trigger] grads[j]) is Some ==> g.valid(grads[j]->Some_0)
}

/// `c` is the gradient that node `k`, whose gradient is `gk`, passes by its
/// local rule to its child `j`: `g0` is the graph that `k` belongs to, `g`
/// the graph that holds the gradient expressions.
pub open spec fn passes(g0: ExprGraph, g: ExprGraph, k: int, gk: Expr, j: int, c: Expr) -> bool {
    let gs = g.nodes()[gk.0 as int].shape();
    let e = Expr(k as usize);
    &&& g.valid(gk)
    &&& g.valid(c)
    &&& child_of(g0, j, k)
    &&& match g0.nodes()[k] {
        ExprData::Bin(n) => match n.op {
            BinOp::Add => c == gk,
            BinOp::Mul => (j == n.l.0 && is_bin(g, c, BinOp::Mul, gk, n.r, gs)) || (j == n.r.0
                && is_bin(g, c, BinOp::Mul, gk, n.l, gs)),
        },
        ExprData::Un(n) => match n.op {
            UnOp::Neg => is_un(g, c, UnOp::Neg, gk, gs),
            UnOp::Rec => {
                let b = g.nodes()[c.0 as int]->Bin_0.l;
                let m = g.nodes()[b.0 as int]->Bin_0.l;
                &&& is_bin(g, c, BinOp::Mul, b, e, gs)
                &&& is_bin(g, b, BinOp::Mul, m, e, gs)
                &&& is_un(g, m, UnOp::Neg, gk, gs)
            },
            UnOp::Exp => is_bin(g, c, BinOp::Mul, gk, e, gs),
            UnOp::Log => {
                let q = g.nodes()[c.0 as int]->Bin_0.r;
                &&& is_bin(g, c, BinOp::Mul, gk, q, gs)
                &&& is_un(g, q, UnOp::Rec, n.x, g0.nodes()[n.x.0 as int].shape())
            },
            UnOp::Gtz => g.nodes()[c.0 as int] is Zero && g.nodes()[c.0 as int]->Zero_0.shape@ == gs,
        },
        _ => false,
    }
}

proof fn lemma_node_kept(g: ExprGraph, g2: ExprGraph, i: int)
    requires
        extends(g, g2),
        0 <= i < g.nodes().len(),
    ensures
        g2.nodes()[i] == g.nodes()[i],
{
    assert(g2.nodes().subrange(0, g.nodes().len() as int)[i] == g2.nodes()[i]);
}

proof fn lemma_passes_stable(g0: ExprGraph, g: ExprGraph, g2: ExprGraph, k: int, gk: Expr, j: int, c: Expr)
    requires
        g.wf(),
        extends(g, g2),
        passes(g0, g, k, gk, j, c),
    ensures
        passes(g0, g2, k, gk, j, c),
{
    lemma_node_kept(g, g2, gk.0 as int);
    lemma_node_kept(g, g2, c.0 as int);
    assert(g.nodes()[c.0 as int].children_below(c.0 as int));
    if g.nodes()[c.0 as int] is Bin {
        let b = g.nodes()[c.0 as int]->Bin_0.l;
        let q = g.nodes()[c.0 as int]->Bin_0.r;
        lemma_node_kept(g, g2, b.0 as int);
        lemma_node_kept(g, g2, q.0 as int);
        assert(g.nodes()[b.0 as int].children_below(b.0 as int));
        if g.nodes()[b.0 as int] is Bin {
            lemma_node_kept(g, g2, g.nodes()[b.0 as int]->Bin_0.l.0 as int);
        }
    }
}

proof fn lemma_passes_base(g0: ExprGraph, g1: ExprGraph, g: ExprGraph, k: int, gk: Expr, j: int, c: Expr)
    requires
        g0.wf(),
        extends(g0, g1),
        0 <= k < g0.nodes().len(),
        passes(g1, g, k, gk, j, c),
    ensures
        passes(g0, g, k, gk, j, c),
{
    lemma_node_kept(g0, g1, k);
    assert(g0.nodes()[k].children_below(k));
    if g0.nodes()[k] is Un {
        lemma_node_kept(g0, g1, g0.nodes()[k]->Un_0.x.0 as int);
    }
}

/// How many of the child slots of node `k` hold `j`.
pub open spec fn mult(g0: ExprGraph, k: int, j: int) -> nat {
    match g0.nodes()[k] {
        ExprData::Bin(n) => (if n.l.0 == j { 1nat } else { 0nat }) + (if n.r.0 == j { 1nat } else { 0nat }),
        ExprData::Un(n) => if n.x.0 == j { 1nat } else { 0nat },
        _ => 0nat,
    }
}

/// How many of the first `n` pairs of `out` are for child `j`.
pub open spec fn count_for(out: Seq<(Expr, Expr)>, n: int, j: int) -> nat
    decreases n,
{
    if n <= 0 {
        0
    } else {
        count_for(out, n - 1, j) + if out[n - 1].0.0 == j { 1nat } else { 0nat }
    }
}

/// `m` copies of `k`.
pub open spec fn rep(k: int, m: nat) -> Seq<int> {
    Seq::new(m, |t: int| k)
}

/// The parents of `j` among nodes `lo..hi` that have a gradient, highest
/// first, each once for every slot in which it has `j` as a child: the
/// order in which the backward walk adds their gradients into `j`'s.
pub open spec fn slots(g0: ExprGraph, grads: Seq<Option<Expr>>, j: int, lo: int, hi: int) -> Seq<int>
    decreases hi - lo,
{
    if hi <= lo {
        Seq::empty()
    } else {
        let k = hi - 1;
        let here = if grads[k] is Some { rep(k, mult(g0, k, j)) } else { Seq::empty() };
        here + slots(g0, grads, j, lo, k)
    }
}

/// `e` is the sum of `cs`, added left to right.
pub open spec fn sum_chain(g: ExprGraph, e: Expr, cs: Seq<Expr>) -> bool
    decreases cs.len(),
{
    if cs.len() == 0 {
        false
    } else if cs.len() == 1 {
        e == cs[0]
    } else {
        &&& g.valid(e)
        &&& g.nodes()[e.0 as int] is Bin
        &&& g.nodes()[e.0 as int]->Bin_0.op == BinOp::Add
        &&& g.nodes()[e.0 as int]->Bin_0.r == cs.last()
        &&& sum_chain(g, g.nodes()[e.0 as int]->Bin_0.l, cs.drop_last())
    }
}

/// `e` is the sum, in order, of the gradients that the parents in `sl`
/// pass to `j`.
pub open spec fn sums_slots(g0: ExprGraph, g: ExprGraph, grads: Seq<Option<Expr>>, j: int, sl: Seq<int>, e: Expr, cs: Seq<Expr>) -> bool {
    &&& sum_chain(g, e, cs)
    &&& cs.len() == sl.len()
    &&& forall|t: int| 0 <= t < sl.len() ==> passes(g0, g, #[trigger] sl[t], grads[sl[t]]->Some_0, j, cs[t])
}

proof fn lemma_sum_chain_stable(g: ExprGraph, g2: ExprGraph, e: Expr, cs: Seq<Expr>)
    requires
        g.wf(),
        extends(g, g2),
        sum_chain(g, e, cs),
    ensures
        sum_chain(g2, e, cs),
    decreases cs.len(),
{
    if cs.len() > 1 {
        lemma_node_kept(g, g2, e.0 as int);
        lemma_sum_chain_stable(g, g2, g.nodes()[e.0 as int]->Bin_0.l, cs.drop_last());
    }
}

proof fn lemma_slots_range(g0: ExprGraph, grads: Seq<Option<Expr>>, j: int, lo: int, hi: int)
    ensures
        forall|t: int| 0 <= t < slots(g0, grads, j, lo, hi).len() ==> lo <= #[trigger] slots(g0, grads, j, lo, hi)[t] < hi,
    decreases hi - lo,
{
    if hi > lo {
        lemma_slots_range(g0, grads, j, lo, hi - 1);
        let k = hi - 1;
        let here = if grads[k] is Some { rep(k, mult(g0, k, j)) } else { Seq::<int>::empty() };
        let rest = slots(g0, grads, j, lo, k);
        assert forall|t: int| 0 <= t < slots(g0, grads, j, lo, hi).len() implies lo <= #[trigger] slots(g0, grads, j, lo, hi)[t] < hi by {
            if t >= here.len() {
                assert(slots(g0, grads, j, lo, hi)[t] == rest[t - here.len()]);
            }
        }
    }
}

proof fn lemma_slots_agree(g0: ExprGraph, grads: Seq<Option<Expr>>, grads2: Seq<Option<Expr>>, j: int, lo: int, hi: int)
    requires
        0 <= lo,
        hi <= grads.len(),
        grads2.len() == grads.len(),
        forall|k: int| lo <= k < hi ==> #[trigger] grads2[k] == grads[k],
    ensures
        slots(g0, grads2, j, lo, hi) == slots(g0, grads, j, lo, hi),
    decreases hi - lo,
{
    if hi > lo {
        assert(grads2[hi - 1] == grads[hi - 1]);
        lemma_slots_agree(g0, grads, grads2, j, lo, hi - 1);
    }
}

proof fn lemma_slots_bottom(g0: ExprGraph, grads: Seq<Option<Expr>>, j: int, lo: int, hi: int)
    requires
        lo < hi,
    ensures
        slots(g0, grads, j, lo, hi) == slots(g0, grads, j, lo + 1, hi) + (if grads[lo] is Some {
            rep(lo, mult(g0, lo, j))
        } else {
            Seq::<int>::empty()
        }),
    decreases hi - lo,
{
    if hi - 1 > lo {
        lemma_slots_bottom(g0, grads, j, lo, hi - 1);
        let k = hi - 1;
        let here = if grads[k] is Some { rep(k, mult(g0, k, j)) } else { Seq::<int>::empty() };
        let bottom = if grads[lo] is Some { rep(lo, mult(g0, lo, j)) } else { Seq::<int>::empty() };
        assert(here + (slots(g0, grads, j, lo + 1, hi - 1) + bottom) =~= (here + slots(g0, grads, j, lo + 1, hi - 1)) + bottom);
    } else {
        let bottom = if grads[lo] is Some { rep(lo, mult(g0, lo, j)) } else { Seq::<int>::empty() };
        assert(slots(g0, grads, j, lo, lo) == Seq::<int>::empty());
        assert(slots(g0, grads, j, lo + 1, hi) == Seq::<int>::empty());
        assert(slots(g0, grads, j, lo, hi) =~= slots(g0, grads, j, lo + 1, hi) + bottom);
    }
}

/// The slots of `j` while node `i` is being processed: those of the
/// parents above `i`, then those among the first `k` pairs of `out`.
spec fn pending(g0: ExprGraph, grads: Seq<Option<Expr>>, j: int, i: int, n: int, out: Seq<(Expr, Expr)>, k: int) -> Seq<int> {
    slots(g0, grads, j, i + 1, n) + rep(i, count_for(out, k, j))
}

proof fn lemma_sums_slots_stable(
    g0: ExprGraph,
    g: ExprGraph,
    g2: ExprGraph,
    grads: Seq<Option<Expr>>,
    grads2: Seq<Option<Expr>>,
    j: int,
    sl: Seq<int>,
    e: Expr,
    cs: Seq<Expr>,
)
    requires
        g.wf(),
        extends(g, g2),
        sums_slots(g0, g, grads, j, sl, e, cs),
        forall|t: int| 0 <= t < sl.len() ==> grads2[#[trigger] sl[t]] == grads[sl[t]],
    ensures
        sums_slots(g0, g2, grads2, j, sl, e, cs),
{
    lemma_sum_chain_stable(g, g2, e, cs);
    assert forall|t: int| 0 <= t < sl.len() implies passes(g0, g2, #[trigger] sl[t], grads2[sl[t]]->Some_0, j, cs[t]) by {
        lemma_passes_stable(g0, g, g2, sl[t], grads[sl[t]]->Some_0, j, cs[t]);
    }
}

proof fn lemma_sums_slots_push(
    g0: ExprGraph,
    g: ExprGraph,
    grads: Seq<Option<Expr>>,
    j: int,
    sl: Seq<int>,
    e: Expr,
    cs: Seq<Expr>,
    i: int,
    ge: Expr,
    sum: Expr,
)
    requires
        sums_slots(g0, g, grads, j, sl, e, cs),
        g.valid(sum),
        g.nodes()[sum.0 as int] is Bin,
        g.nodes()[sum.0 as int]->Bin_0.op == BinOp::Add,
        g.nodes()[sum.0 as int]->Bin_0.l == e,
        g.nodes()[sum.0 as int]->Bin_0.r == ge,
        grads[i] is Some,
        passes(g0, g, i, grads[i]->Some_0, j, ge),
    ensures
        sums_slots(g0, g, grads, j, sl.push(i), sum, cs.push(ge)),
{
    assert(cs.push(ge).drop_last() =~= cs);
    let sl2 = sl.push(i);
    let cs2 = cs.push(ge);
    assert forall|t: int| 0 <= t < sl2.len() implies passes(g0, g, #[trigger] sl2[t], grads[sl2[t]]->Some_0, j, cs2[t]) by {
        if t < sl.len() {
            assert(sl2[t] == sl[t]);
            assert(cs2[t] == cs[t]);
        }
    }
}

/// One gradient added into child `ci` of node `i`: the pending slots and
/// sums of every node stay in step.
proof fn lemma_inner_step(
    g0: ExprGraph,
    g2: ExprGraph,
    gn: ExprGraph,
    before: Seq<Option<Expr>>,
    after: Seq<Option<Expr>>,
    sums0: Seq<Seq<Expr>>,
    sums1: Seq<Seq<Expr>>,
    i: int,
    n: int,
    root: int,
    out: Seq<(Expr, Expr)>,
    k: int,
    gi: Expr,
    ge: Expr,
)
    requires
        g2.wf(),
        extends(g2, gn),
        before.len() == n,
        after.len() == n,
        sums0.len() == n,
        root == n - 1,
        0 <= i < n,
        0 <= k < out.len(),
        out[k].0.0 < i,
        out[k].1 == ge,
        before[i] == Some(gi),
        passes(g0, gn, i, gi, out[k].0.0 as int, ge),
        forall|j: int| 0 <= j < n && j != out[k].0.0 ==> #[trigger] after[j] == before[j],
        after[out[k].0.0 as int] is Some,
        before[out[k].0.0 as int] is None ==> after[out[k].0.0 as int] == Some(ge) && sums1 == sums0.update(
            out[k].0.0 as int,
            seq![ge],
        ),
        before[out[k].0.0 as int] is Some ==> {
            let s = after[out[k].0.0 as int]->Some_0;
            &&& gn.valid(s)
            &&& gn.nodes()[s.0 as int] is Bin
            &&& gn.nodes()[s.0 as int]->Bin_0.op == BinOp::Add
            &&& gn.nodes()[s.0 as int]->Bin_0.l == before[out[k].0.0 as int]->Some_0
            &&& gn.nodes()[s.0 as int]->Bin_0.r == ge
            &&& sums1 == sums0.update(out[k].0.0 as int, sums0[out[k].0.0 as int].push(ge))
        },
        forall|j: int| 0 <= j < root ==> ((#[trigger] before[j]) is Some <==> pending(g0, before, j, i, n, out, k).len() > 0),
        forall|j: int| 0 <= j < root && (#[trigger] before[j]) is Some
            ==> sums_slots(g0, g2, before, j, pending(g0, before, j, i, n, out, k), before[j]->Some_0, sums0[j]),
    ensures
        forall|j: int| 0 <= j < root ==> ((#[trigger] after[j]) is Some <==> pending(g0, after, j, i, n, out, k + 1).len() > 0),
        forall|j: int| 0 <= j < root && (#[trigger] after[j]) is Some
            ==> sums_slots(g0, gn, after, j, pending(g0, after, j, i, n, out, k + 1), after[j]->Some_0, sums1[j]),
{
    let ci = out[k].0.0 as int;
    assert forall|j: int| 0 <= j < root implies #[trigger] slots(g0, after, j, i + 1, n) == slots(g0, before, j, i + 1, n) by {
        assert forall|kk: int| i + 1 <= kk < n implies #[trigger] after[kk] == before[kk] by {}
        lemma_slots_agree(g0, before, after, j, i + 1, n);
    }
    assert forall|j: int| 0 <= j < root implies #[trigger] count_for(out, k + 1, j) == count_for(out, k, j) + if j == ci { 1nat } else { 0nat } by {}
    assert forall|j: int| 0 <= j < root implies ((#[trigger] after[j]) is Some <==> pending(g0, after, j, i, n, out, k + 1).len() > 0) by {
        assert(slots(g0, after, j, i + 1, n) == slots(g0, before, j, i + 1, n));
    }
    assert forall|j: int| 0 <= j < root && (#[trigger] after[j]) is Some implies sums_slots(g0, gn, after, j,
        pending(g0, after, j, i, n, out, k + 1), after[j]->Some_0, sums1[j]) by {
        let sl_old = pending(g0, before, j, i, n, out, k);
        let base = slots(g0, before, j, i + 1, n);
        assert(slots(g0, after, j, i + 1, n) == base);
        lemma_slots_range(g0, before, j, i + 1, n);
        assert forall|t: int| 0 <= t < sl_old.len() implies after[#[trigger] sl_old[t]] == before[sl_old[t]] by {
            if t < base.len() {
                assert(sl_old[t] == base[t]);
            } else {
                assert(sl_old[t] == i);
            }
        }
        if j == ci {
            let sl_new = pending(g0, after, j, i, n, out, k + 1);
            assert(sl_new =~= sl_old.push(i));
            if before[j] is Some {
                lemma_sums_slots_stable(g0, g2, gn, before, after, j, sl_old, before[j]->Some_0, sums0[j]);
                assert(sums1[j] == sums0[j].push(ge));
                assert(after[i] == Some(gi));
                lemma_sums_slots_push(g0, gn, after, j, sl_old, before[j]->Some_0, sums0[j], i, ge, after[j]->Some_0);
            } else {
                assert(sl_old.len() == 0);
                assert(sl_new =~= seq![i]);
                assert(sums1[j] == seq![ge]);
                assert(sl_new[0] == i);
                assert(after[i] == Some(gi));
            }
        } else {
            assert(before[j] is Some);
            assert(sums1[j] == sums0[j]);
            assert(pending(g0, after, j, i, n, out, k + 1) == sl_old);
            lemma_sums_slots_stable(g0, g2, gn, before, after, j, sl_old, before[j]->Some_0, sums0[j]);
        }
    }
}

/// Node `j` has a parent in `g` that received a gradient.
pub open spec fn fed(g: ExprGraph, grads: Seq<Option<Expr>>, j: int) -> bool {
    exists|k: int| j < k < grads.len() && (#[trigger] grads[k]) is Some && child_of(g, j, k)
}

/// The nodes that received a gradient are closed under children: every
/// child of a node with a gradient has one.
pub open spec fn closed_under_children(g: ExprGraph, grads: Seq<Option<Expr>>, lo: int) -> bool {
    forall|k: int, j: int|
        lo <= k < grads.len() && (#[trigger] grads[k]) is Some && #[trigger] child_of(g, j, k) ==> grads[j] is Some
}

impl Expr {
    /// Backward pass from this expression with `seed` as its gradient. The
    /// result gives, for each node up to this one, the sum of the gradients
    /// that its parents pass to it, or `None` where none reaches it. The
    /// gradient expressions are new nodes of `g`.
    #[verifier::rlimit(100)]
    pub fn backward(self, g: &mut ExprGraph, seed: Expr) -> (grads: Vec<Option<Expr>>)
        requires
            old(g).wf(),
            old(g).valid(self),
            old(g).valid(seed),
        ensures
            extends(*old(g), *final(g)),
            grads@.len() == self.0 + 1,
            grads@[self.0 as int] == Some(seed),
            grads_valid(*final(g), grads@),
            // exactly the nodes that the root reaches receive a gradient
            closed_under_children(*old(g), grads@, 0),
            forall|j: int| 0 <= j < self.0 && (#[trigger] grads@[j]) is Some ==> fed(*old(g), grads@, j),
            // each gradient is the sum of what every parent passes to the
            // node, once per child slot, added in the order of the walk
            forall|j: int| 0 <= j < self.0 ==> ((#[trigger] grads@[j]) is Some
                <==> slots(*old(g), grads@, j, 0, self.0 + 1).len() > 0),
            forall|j: int| 0 <= j < self.0 && (#[trigger] grads@[j]) is Some ==> exists|cs: Seq<Expr>|
                #[trigger] sums_slots(*old(g), *final(g), grads@, j, slots(*old(g), grads@, j, 0, self.0 + 1), grads@[j]->Some_0, cs),
    {
        let ghost g0 = *g;
        let len = g.len();
        let n = self.0 + 1;
        let mut grads: Vec<Option<Expr>> = Vec::new();
        let mut k: usize = 0;
        while k < n
            invariant
                k <= n,
                n == self.0 + 1,
                grads@.len() == k,
                forall|j: int| 0 <= j < k ==> (#[trigger] grads@[j]) is None,
            decreases n - k,
        {
            grads.push(None);
            k = k + 1;
        }
        grads.set(self.0, Some(seed));
        let ghost mut sums: Seq<Seq<Expr>> = Seq::new(n as nat, |j: int| Seq::<Expr>::empty());
        proof {
            assert(g.nodes().subrange(0, g.nodes().len() as int) =~= g.nodes());
            assert forall|j: int| 0 <= j < self.0 implies ((#[trigger] grads@[j]) is Some
                <==> slots(g0, grads@, j, n as int, n as int).len() > 0) by {}
        }
        let mut i: usize = n;
        while i > 0
            invariant
                i <= n,
                n == self.0 + 1,
                n <= g0.nodes().len(),
                g0 == *old(g),
                g0.wf(),
                n <= g.nodes().len(),
                grads@.len() == n,
                sums.len() == n,
                grads@[self.0 as int] == Some(seed),
                extends(g0, *g),
                grads_valid(*g, grads@),
                closed_under_children(g0, grads@, i as int),
                forall|j: int| 0 <= j < self.0 && (#[trigger] grads@[j]) is Some ==> fed(g0, grads@, j),
                forall|j: int| 0 <= j < self.0 ==> ((#[trigger] grads@[j]) is Some
                    <==> slots(g0, grads@, j, i as int, n as int).len() > 0),
                forall|j: int| 0 <= j < self.0 && (#[trigger] grads@[j]) is Some
                    ==> sums_slots(g0, *g, grads@, j, slots(g0, grads@, j, i as int, n as int), grads@[j]->Some_0, sums[j]),
            decreases i,
        {
            i = i - 1;
            if let Some(gi) = grads[i] {
                let ghost g1 = *g;
                let out = push_grads(g, Expr(i), gi);
                proof {
                    lemma_extends_trans(g0, g1, *g);
                    assert forall|j: int| 0 <= j < grads@.len() && (#[trigger] grads@[j]) is Some implies g.valid(grads@[j]->Some_0) by {
                        assert(g1.valid(grads@[j]->Some_0));
                    }
                    lemma_node_kept(g0, g1, i as int);
                    assert forall|m: int| 0 <= m < out@.len() implies passes(g0, *g, i as int, gi, (#[trigger] out@[m]).0.0 as int, out@[m].1) by {
                        lemma_passes_base(g0, g1, *g, i as int, gi, out@[m].0.0 as int, out@[m].1);
                    }
                    assert forall|j: int| #[trigger] mult(g0, i as int, j) == mult(g1, i as int, j) by {}
                    assert forall|j: int| 0 <= j < self.0 implies ((#[trigger] grads@[j]) is Some
                        <==> pending(g0, grads@, j, i as int, n as int, out@, 0).len() > 0) by {
                        assert(pending(g0, grads@, j, i as int, n as int, out@, 0) =~= slots(g0, grads@, j, i as int + 1, n as int));
                    }
                    assert forall|j: int| 0 <= j < self.0 && (#[trigger] grads@[j]) is Some implies sums_slots(g0, *g, grads@, j,
                        pending(g0, grads@, j, i as int, n as int, out@, 0), grads@[j]->Some_0, sums[j]) by {
                        assert(pending(g0, grads@, j, i as int, n as int, out@, 0) =~= slots(g0, grads@, j, i as int + 1, n as int));
                        lemma_sums_slots_stable(g0, g1, *g, grads@, grads@, j, slots(g0, grads@, j, i as int + 1, n as int), grads@[j]->Some_0, sums[j]);
                    }
                }
                let mut k: usize = 0;
                while k < out.len()
                    invariant
                        k <= out@.len(),
                        i < n,
                        n == self.0 + 1,
                        i <= self.0,
                        g0 == *old(g),
                        g0.wf(),
                        n <= g0.nodes().len(),
                        n <= g.nodes().len(),
                        grads@.len() == n,
                        sums.len() == n,
                        grads@[self.0 as int] == Some(seed),
                        extends(g0, *g),
                        grads_valid(*g, grads@),
                        forall|m: int| 0 <= m < out@.len() ==> (#[trigger] out@[m]).0.0 < i && g.valid(out@[m].1),
                        forall|m: int| 0 <= m < out@.len() ==> child_of(g0, (#[trigger] out@[m]).0.0 as int, i as int),
                        forall|j: int| child_of(g0, j, i as int) ==> exists|m: int| 0 <= m < out@.len() && (#[trigger] out@[m]).0.0 == j,
                        forall|j: int| count_for(out@, out@.len() as int, j) == #[trigger] mult(g0, i as int, j),
                        grads@[i as int] == Some(gi),
                        forall|m: int| 0 <= m < k ==> (#[trigger] grads@[out@[m].0.0 as int]) is Some,
                        closed_under_children(g0, grads@, i as int + 1),
                        forall|j: int| 0 <= j < self.0 && (#[trigger] grads@[j]) is Some ==> fed(g0, grads@, j),
                        forall|m: int| 0 <= m < out@.len() ==> passes(g0, *g, i as int, gi, (#[trigger] out@[m]).0.0 as int, out@[m].1),
                        forall|j: int| 0 <= j < self.0 ==> ((#[trigger] grads@[j]) is Some
                            <==> pending(g0, grads@, j, i as int, n as int, out@, k as int).len() > 0),
                        forall|j: int| 0 <= j < self.0 && (#[trigger] grads@[j]) is Some ==> sums_slots(g0, *g, grads@, j,
                            pending(g0, grads@, j, i as int, n as int, out@, k as int), grads@[j]->Some_0, sums[j]),
                    decreases out@.len() - k,
                {
                    let (c, ge) = out[k];
                    assert(out@[k as int].0.0 < i);
                    let ghost g2 = *g;
                    let ghost before = grads@;
                    let ghost old_sums = sums;
                    let ghost ci = c.0 as int;
                    match grads[c.0] {
                        None => {
                            grads.set(c.0, Some(ge));
                            proof {
                                sums = sums.update(ci, seq![ge]);
                                assert(g.nodes().subrange(0, g.nodes().len() as int) =~= g.nodes());
                            }
                        },
                        Some(prev) => {
                            let sum = prev.add(g, ge);
                            grads.set(c.0, Some(sum));
                            proof {
                                sums = sums.update(ci, sums[ci].push(ge));
                            }
                        },
                    }
                    proof {
                        let gn = *g;
                        let after = grads@;
                        assert(extends(g2, gn));
                        lemma_extends_trans(g0, g2, gn);
                        assert forall|j: int| 0 <= j < after.len() && (#[trigger] after[j]) is Some implies gn.valid(after[j]->Some_0) by {
                            if j != ci {
                                assert(g2.valid(before[j]->Some_0));
                            }
                        }
                        assert forall|m: int| 0 <= m < out@.len() implies (#[trigger] out@[m]).0.0 < i && gn.valid(out@[m].1) by {
                            assert(g2.valid(out@[m].1));
                        }
                        assert forall|m: int| 0 <= m < out@.len() implies passes(g0, gn, i as int, gi, (#[trigger] out@[m]).0.0 as int, out@[m].1) by {
                            lemma_passes_stable(g0, g2, gn, i as int, gi, out@[m].0.0 as int, out@[m].1);
                        }
                        assert forall|m: int| 0 <= m < k + 1 implies (#[trigger] after[out@[m].0.0 as int]) is Some by {
                            if m < k {
                                assert(before[out@[m].0.0 as int] is Some);
                            }
                        }
                        assert forall|kk: int, j: int|
                            i as int + 1 <= kk < after.len() && (#[trigger] after[kk]) is Some && #[trigger] child_of(g0, j, kk)
                                implies after[j] is Some by {
                            assert(before[kk] is Some);
                            assert(g0.nodes()[kk].children_below(kk));
                            assert(before[j] is Some);
                        }
                        assert forall|j: int| 0 <= j < self.0 && (#[trigger] after[j]) is Some implies fed(g0, after, j) by {
                            if j == ci {
                                assert(after[i as int] is Some);
                            } else {
                                assert(before[j] is Some);
                                assert(fed(g0, before, j));
                                let kk = choose|kk: int| j < kk < before.len() && (#[trigger] before[kk]) is Some && child_of(g0, j, kk);
                                assert(after[kk] is Some);
                            }
                        }
                        lemma_inner_step(g0, g2, gn, before, after, old_sums, sums, i as int, n as int, self.0 as int, out@, k as int, gi, ge);
                    }
                    k = k + 1;
                }
                proof {
                    assert forall|kk: int, j: int|
                        i as int <= kk < grads@.len() && (#[trigger] grads@[kk]) is Some && #[trigger] child_of(g0, j, kk)
                            implies grads@[j] is Some by {
                        if kk == i as int {
                            let m = choose|m: int| 0 <= m < out@.len() && (#[trigger] out@[m]).0.0 == j;
                            assert(grads@[out@[m].0.0 as int] is Some);
                        }
                    }
                    assert forall|j: int| 0 <= j < self.0 implies
                        #[trigger] slots(g0, grads@, j, i as int, n as int) == pending(g0, grads@, j, i as int, n as int, out@, out@.len() as int) by {
                        lemma_slots_bottom(g0, grads@, j, i as int, n as int);
                        assert(count_for(out@, out@.len() as int, j) == mult(g0, i as int, j));
                    }
                }
            } else {
                proof {
                    assert forall|j: int| 0 <= j < self.0 implies
                        #[trigger] slots(g0, grads@, j, i as int, n as int) == slots(g0, grads@, j, i as int + 1, n as int) by {
                        lemma_slots_bottom(g0, grads@, j, i as int, n as int);
                        assert(slots(g0, grads@, j, i as int + 1, n as int) + Seq::<int>::empty() =~= slots(g0, grads@, j, i as int + 1, n as int));
                    }
                }
            }
        }
        proof {
            assert forall|j: int| 0 <= j < self.0 && (#[trigger] grads@[j]) is Some implies exists|cs: Seq<Expr>|
                #[trigger] sums_slots(g0, *g, grads@, j, slots(g0, grads@, j, 0, self.0 + 1), grads@[j]->Some_0, cs) by {
                assert(sums_slots(g0, *g, grads@, j, slots(g0, grads@, j, 0, n as int), grads@[j]->Some_0, sums[j]));
            }
        }
        grads
    }
}

} // verus!
