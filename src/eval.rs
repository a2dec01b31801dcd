//! Evaluation: lowering an expression into the operation graph. A context
//! gives each node an id the first time it is evaluated and memoizes the
//! buffer that the node evaluated to, so a node shared by several parents is
//! evaluated once per context.
use vstd::prelude::*;
use crate::expr::{BinOp, Expr, ExprData, ExprGraph, UnOp, extends};
use crate::ml::{BufEntry, BufId, MLBuilder, OpSig, OpType, allocates, emits, key_at};

verus! {

impl BinOp {
    pub open spec fn sig(self) -> OpSig {
        match self {
            BinOp::Add => OpType::Add.sig(),
            BinOp::Mul => OpType::Mul.sig(),
        }
    }

    /// The low-level operation that computes this operator.
    pub fn op_type(self) -> (r: OpType)
        ensures
            r.sig() == self.sig(),
    {
        match self {
            BinOp::Add => OpType::Add,
            BinOp::Mul => OpType::Mul,
        }
    }
}

impl UnOp {
    pub open spec fn sig(self) -> OpSig {
        match self {
            UnOp::Neg => OpType::Neg.sig(),
            UnOp::Rec => OpType::Rec.sig(),
            UnOp::Exp => OpType::Exp.sig(),
            UnOp::Log => OpType::Log.sig(),
            UnOp::Gtz => OpType::Gtz.sig(),
        }
    }

    /// The low-level operation that computes this operator.
    pub fn op_type(self) -> (r: OpType)
        ensures
            r.sig() == self.sig(),
    {
        match self {
            UnOp::Neg => OpType::Neg,
            UnOp::Rec => OpType::Rec,
            UnOp::Exp => OpType::Exp,
            UnOp::Log => OpType::Log,
            UnOp::Gtz => OpType::Gtz,
        }
    }
}

/// The number of ids in `ids` that are assigned (not 0).
pub open spec fn assigned(ids: Seq<u64>) -> nat
    decreases ids.len(),
{
    if ids.len() == 0 {
        0
    } else {
        assigned(ids.drop_last()) + if ids.last() != 0 { 1nat } else { 0nat }
    }
}

/// The number of nodes in `vals` whose value is memoized.
pub open spec fn memoized(vals: Seq<Option<BufId>>) -> nat
    decreases vals.len(),
{
    if vals.len() == 0 {
        0
    } else {
        memoized(vals.drop_last()) + if vals.last() is Some { 1nat } else { 0nat }
    }
}

/// Every record names earlier buffers as its sources, and its output shape
/// is the shape of its first source.
pub open spec fn shaped(es: Seq<BufEntry>) -> bool {
    forall|k: int|
        0 <= k < es.len() && (#[trigger] es[k]) is Op ==> {
            &&& 1 <= es[k]->Op_0.src1.0 <= k
            &&& es[k]->Op_0.src2.0 <= k
            &&& es[k]->Op_0.osh@ == es[es[k]->Op_0.src1.0 - 1].shape()
        }
}

#[verifier::rlimit(50)]
proof fn lemma_alloc_shaped(b1: MLBuilder, sh: Seq<usize>, b2: MLBuilder, r: BufId)
    requires
        shaped(b1.entries()),
        allocates(b1, sh, b2, r),
    ensures
        shaped(b2.entries()),
{
    let es1 = b1.entries();
    let es2 = b2.entries();
    assert forall|k: int| 0 <= k < es2.len() && (#[trigger] es2[k]) is Op implies {
        &&& 1 <= es2[k]->Op_0.src1.0 <= k
        &&& es2[k]->Op_0.src2.0 <= k
        &&& es2[k]->Op_0.osh@ == es2[es2[k]->Op_0.src1.0 - 1].shape()
    } by {
        assert(es2[k] == es2.subrange(0, es1.len() as int)[k]);
        assert(es1[k] is Op);
        let s1 = es1[k]->Op_0.src1.0 - 1;
        assert(es2[s1] == es2.subrange(0, es1.len() as int)[s1]);
    }
}

/// An emission whose first source has the output shape keeps records
/// shaped, and the buffer it returns has that shape.
proof fn lemma_emit_shaped(b1: MLBuilder, op: OpSig, sh: Seq<usize>, s1: BufId, s2: BufId, b2: MLBuilder, out: BufId)
    requires
        shaped(b1.entries()),
        1 <= s1.0 <= b1.entries().len(),
        s2.0 <= b1.entries().len(),
        b1.entries()[s1.0 - 1].shape() == sh,
        emits(b1, op, sh, s1, s2, b2, out),
    ensures
        shaped(b2.entries()),
        b2.entries()[out.0 - 1].shape() == sh,
{
    let es1 = b1.entries();
    let es2 = b2.entries();
    assert forall|k: int| 0 <= k < es2.len() && (#[trigger] es2[k]) is Op implies {
        &&& 1 <= es2[k]->Op_0.src1.0 <= k
        &&& es2[k]->Op_0.src2.0 <= k
        &&& es2[k]->Op_0.osh@ == es2[es2[k]->Op_0.src1.0 - 1].shape()
    } by {
        if k < es1.len() {
            assert(es2[k] == es2.subrange(0, es1.len() as int)[k]);
            assert(es1[k] is Op);
            let t = es1[k]->Op_0.src1.0 - 1;
            assert(es2[t] == es2.subrange(0, es1.len() as int)[t]);
        } else {
            assert(es2[s1.0 - 1] == es2.subrange(0, es1.len() as int)[s1.0 - 1]);
        }
    }
    let o = out.0 - 1;
    assert(es2[o] is Op);
    assert(es2[o]->Op_0.src1.0 == s1.0);
    if o < es1.len() {
        assert(es2[s1.0 - 1] == es2.subrange(0, es1.len() as int)[s1.0 - 1]);
    } else {
        assert(es2[s1.0 - 1] == es2.subrange(0, es1.len() as int)[s1.0 - 1]);
    }
}

/// Node `i` of `g`, whose value in `vals` is memoized, is what the buffer
/// entries say of that value: a leaf of its shape, or the operation of its
/// operator on the values of its children.
pub open spec fn denotes(g: ExprGraph, es: Seq<BufEntry>, vals: Seq<Option<BufId>>, i: int) -> bool {
    let b = vals[i]->Some_0.0;
    &&& 1 <= b <= es.len()
    &&& es[b - 1].shape() == g.nodes()[i].shape()
    &&& match g.nodes()[i] {
        ExprData::Param(p) => es[b - 1] is Leaf && es[b - 1]->Leaf_0@ == p.shape@,
        ExprData::Zero(p) => es[b - 1] is Leaf && es[b - 1]->Leaf_0@ == p.shape@,
        ExprData::Bin(n) => {
            &&& n.l.0 < vals.len() && vals[n.l.0 as int] is Some
            &&& n.r.0 < vals.len() && vals[n.r.0 as int] is Some
            &&& key_at(
                es[b - 1],
                n.op.sig(),
                vals[n.l.0 as int]->Some_0.0,
                vals[n.r.0 as int]->Some_0.0,
            )
        },
        ExprData::Un(n) => {
            &&& n.x.0 < vals.len() && vals[n.x.0 as int] is Some
            &&& key_at(es[b - 1], n.op.sig(), vals[n.x.0 as int]->Some_0.0, 0)
        },
    }
}

/// The intermediate states of one lowering. For an operator node: how its
/// operands were lowered, the builder and values after its left (or only)
/// operand with that operand's buffer, and the same after its right operand.
pub enum Trace {
    Leaf,
    Op {
        left: Box<Trace>,
        right: Box<Trace>,
        ba: MLBuilder,
        va: Seq<Option<BufId>>,
        vl: BufId,
        bb: MLBuilder,
        vr: BufId,
    },
}

/// Lowering node `i` with builder `b1` and memoized values `v1` leaves
/// builder `b2` and values `v2` and gives buffer `r`, through the states in
/// `t`: a memoized node gives its value and changes nothing; any other node
/// does its work (see `work`) and then has `r` as its value.
pub open spec fn lowers(
    g: ExprGraph,
    b1: MLBuilder,
    v1: Seq<Option<BufId>>,
    i: int,
    b2: MLBuilder,
    v2: Seq<Option<BufId>>,
    r: BufId,
    t: Trace,
) -> bool
    decreases i, 1nat,
{
    if !(0 <= i < g.nodes().len() && i < v1.len()) {
        false
    } else if v1[i] is Some {
        r == v1[i]->Some_0 && b2 == b1 && v2 == v1
    } else {
        &&& v2.len() == v1.len()
        &&& v2[i] == Some(r)
        &&& work(g, b1, v1, i, b2, v2.update(i, None), r, t)
    }
}

/// The work of node `i`, which has no value: a leaf allocates a buffer of
/// its shape; an operator lowers its left operand, then its right one, then
/// emits its operation with its shape on their buffers (a unary one with 0
/// as second source). `vb` are the values just before `i` gets its own.
pub open spec fn work(
    g: ExprGraph,
    b1: MLBuilder,
    v1: Seq<Option<BufId>>,
    i: int,
    b2: MLBuilder,
    vb: Seq<Option<BufId>>,
    r: BufId,
    t: Trace,
) -> bool
    decreases i, 0nat,
{
    if !(0 <= i < g.nodes().len()) {
        false
    } else {
        match g.nodes()[i] {
            ExprData::Param(p) => allocates(b1, p.shape@, b2, r) && vb == v1,
            ExprData::Zero(p) => allocates(b1, p.shape@, b2, r) && vb == v1,
            ExprData::Bin(n) => match t {
                Trace::Op { left, right, ba, va, vl, bb, vr } => {
                    &&& n.l.0 < i
                    &&& n.r.0 < i
                    &&& lowers(g, b1, v1, n.l.0 as int, ba, va, vl, *left)
                    &&& lowers(g, ba, va, n.r.0 as int, bb, vb, vr, *right)
                    &&& emits(bb, n.op.sig(), n.shape@, vl, vr, b2, r)
                },
                Trace::Leaf => false,
            },
            ExprData::Un(n) => match t {
                Trace::Op { left, ba, vl, .. } => {
                    &&& n.x.0 < i
                    &&& lowers(g, b1, v1, n.x.0 as int, ba, vb, vl, *left)
                    &&& emits(ba, n.op.sig(), n.shape@, vl, BufId(0), b2, r)
                },
                Trace::Leaf => false,
            },
        }
    }
}

/// `v` with `None` added up to length `n`.
pub open spec fn padded(v: Seq<Option<BufId>>, n: nat) -> Seq<Option<BufId>> {
    Seq::new(n, |j: int| if j < v.len() { v[j] } else { None })
}

/// The state of one evaluation: the id counter, whether gradients are
/// wanted, each node's id (0 while unassigned) and memoized buffer, the ids
/// of the nodes whose evaluation is under way, and the builder that
/// receives the emitted operations.
#[derive(Debug)]
pub struct EvalCtx {
    next: u64,
    grad: bool,
    ids: Vec<u64>,
    vals: Vec<Option<BufId>>,
    active: Vec<u64>,
    builder: MLBuilder,
}

impl EvalCtx {
    pub closed spec fn ids(self) -> Seq<u64> {
        self.ids@
    }

    pub closed spec fn vals(self) -> Seq<Option<BufId>> {
        self.vals@
    }

    /// The last id given out; 0 before the first.
    pub closed spec fn last_id(self) -> u64 {
        self.next
    }

    pub closed spec fn wants_grad(self) -> bool {
        self.grad
    }

    pub closed spec fn builder(self) -> MLBuilder {
        self.builder
    }

    /// The ids of the nodes whose evaluation has been entered and not yet
    /// exited, innermost last.
    pub closed spec fn active(self) -> Seq<u64> {
        self.active@
    }

    /// The memoized value of a node, if any.
    pub open spec fn value(self, i: int) -> Option<BufId> {
        if 0 <= i < self.vals().len() {
            self.vals()[i]
        } else {
            None
        }
    }

    /// Every memoized node has an id and denotes its buffer, and the id
    /// counter is the number of ids given out.
    pub open spec fn consistent(self, g: ExprGraph) -> bool {
        let vals = self.vals();
        &&& g.wf()
        &&& self.ids().len() == vals.len()
        &&& vals.len() <= g.nodes().len()
        &&& self.last_id() == assigned(self.ids())
        &&& self.builder().wf()
        &&& shaped(self.builder().entries())
        &&& forall|i: int|
            0 <= i < vals.len() && (#[trigger] vals[i]) is Some ==> {
                &&& self.ids()[i] != 0
                &&& denotes(g, self.builder().entries(), vals, i)
            }
        // allocation is never shared: distinct leaves have distinct buffers
        &&& forall|i1: int, i2: int|
            0 <= i1 < vals.len() && 0 <= i2 < vals.len() && i1 != i2 && (#[trigger] vals[i1]) is Some
                && (#[trigger] vals[i2]) is Some && is_leaf(g, i1) && is_leaf(g, i2) ==> vals[i1] != vals[i2]
    }

    /// Consistent, and no more buffers than memoized nodes.
    pub open spec fn wf(self, g: ExprGraph) -> bool {
        &&& self.consistent(g)
        &&& self.builder().entries().len() <= memoized(self.vals())
    }

    pub fn new(grad: bool) -> (r: EvalCtx)
        ensures
            r.ids().len() == 0,
            r.vals().len() == 0,
            r.last_id() == 0,
            r.wants_grad() == grad,
            r.active().len() == 0,
            r.builder().entries().len() == 0,
            r.builder().deps().is_empty(),
            forall|g: ExprGraph| g.wf() ==> #[trigger] r.wf(g),
    {
        let r = EvalCtx {
            next: 0,
            grad,
            ids: Vec::new(),
            vals: Vec::new(),
            active: Vec::new(),
            builder: MLBuilder::new(),
        };
        assert(r.ids@ =~= Seq::<u64>::empty());
        r
    }

    /// Whether gradients are wanted.
    pub fn grad(&self) -> (r: bool)
        ensures
            r == self.wants_grad(),
    {
        self.grad
    }

    /// The builder that evaluation has emitted into.
    pub fn emitter(&self) -> (r: &MLBuilder)
        ensures
            *r == self.builder(),
    {
        &self.builder
    }

    /// The ids of the nodes under evaluation, innermost last.
    pub fn active_ids(&self) -> (r: &Vec<u64>)
        ensures
            r@ == self.active(),
    {
        &self.active
    }

    /// Marks the start of the evaluation of the node with id `id`.
    fn enter(&mut self, id: u64)
        ensures
            *final(self) == (EvalCtx { active: final(self).active, ..*old(self) }),
            final(self).active@ == old(self).active@.push(id),
    {
        self.active.push(id);
    }

    /// Marks the end of the innermost evaluation under way.
    fn exit(&mut self)
        requires
            old(self).active@.len() > 0,
        ensures
            *final(self) == (EvalCtx { active: final(self).active, ..*old(self) }),
            final(self).active@ == old(self).active@.drop_last(),
    {
        self.active.pop();
    }

    /// The id of node `e` in this context, 0 if it has none yet.
    pub fn id_of(&self, e: Expr) -> (r: u64)
        ensures
            e.0 < self.ids().len() ==> r == self.ids()[e.0 as int],
            e.0 >= self.ids().len() ==> r == 0,
    {
        if e.0 < self.ids.len() {
            self.ids[e.0]
        } else {
            0
        }
    }

    /// A new id: one more than the last.
    fn mkid(&mut self) -> (r: u64)
        requires
            old(self).next < u64::MAX,
        ensures
            r == old(self).next + 1,
            *final(self) == (EvalCtx { next: r, ..*old(self) }),
    {
        self.next = self.next + 1;
        self.next
    }
}

proof fn lemma_assigned_bound(ids: Seq<u64>)
    ensures
        assigned(ids) <= ids.len(),
    decreases ids.len(),
{
    if ids.len() > 0 {
        lemma_assigned_bound(ids.drop_last());
    }
}

proof fn lemma_assigned_set(ids: Seq<u64>, i: int, v: u64)
    requires
        0 <= i < ids.len(),
        ids[i] == 0,
        v != 0,
    ensures
        assigned(ids.update(i, v)) == assigned(ids) + 1,
        assigned(ids) < ids.len(),
    decreases ids.len(),
{
    let u = ids.update(i, v);
    if i == ids.len() - 1 {
        assert(u.drop_last() =~= ids.drop_last());
        lemma_assigned_bound(ids.drop_last());
    } else {
        assert(u.drop_last() =~= ids.drop_last().update(i, v));
        lemma_assigned_set(ids.drop_last(), i, v);
    }
}

proof fn lemma_assigned_push_zero(ids: Seq<u64>)
    ensures
        assigned(ids.push(0)) == assigned(ids),
{
    assert(ids.push(0).drop_last() =~= ids);
}

proof fn lemma_memoized_bound(vals: Seq<Option<BufId>>)
    ensures
        memoized(vals) <= vals.len(),
    decreases vals.len(),
{
    if vals.len() > 0 {
        lemma_memoized_bound(vals.drop_last());
    }
}

proof fn lemma_memoized_set(vals: Seq<Option<BufId>>, i: int, v: BufId)
    requires
        0 <= i < vals.len(),
        vals[i] is None,
    ensures
        memoized(vals.update(i, Some(v))) == memoized(vals) + 1,
        memoized(vals) < vals.len(),
    decreases vals.len(),
{
    let u = vals.update(i, Some(v));
    if i == vals.len() - 1 {
        assert(u.drop_last() =~= vals.drop_last());
        lemma_memoized_bound(vals.drop_last());
    } else {
        assert(u.drop_last() =~= vals.drop_last().update(i, Some(v)));
        lemma_memoized_set(vals.drop_last(), i, v);
    }
}

proof fn lemma_memoized_push_none(vals: Seq<Option<BufId>>)
    ensures
        memoized(vals.push(None)) == memoized(vals),
{
    assert(vals.push(None).drop_last() =~= vals);
}

/// What a memoized node denotes stays true while buffer entries are only
/// added and memoized values are kept.
proof fn lemma_denotes_stable(
    g: ExprGraph,
    es1: Seq<BufEntry>,
    vals1: Seq<Option<BufId>>,
    es2: Seq<BufEntry>,
    vals2: Seq<Option<BufId>>,
    i: int,
)
    requires
        0 <= i < vals1.len(),
        vals1[i] is Some,
        denotes(g, es1, vals1, i),
        es1.len() <= es2.len(),
        es2.subrange(0, es1.len() as int) == es1,
        vals1.len() <= vals2.len(),
        forall|j: int| 0 <= j < vals1.len() && vals1[j] is Some ==> #[trigger] vals2[j] == vals1[j],
    ensures
        denotes(g, es2, vals2, i),
{
    let b = vals1[i]->Some_0.0;
    assert(vals2[i] == vals1[i]);
    assert(es2[b - 1] == es2.subrange(0, es1.len() as int)[b - 1]);
    match g.nodes()[i] {
        ExprData::Bin(n) => {
            assert(vals2[n.l.0 as int] == vals1[n.l.0 as int]);
            assert(vals2[n.r.0 as int] == vals1[n.r.0 as int]);
        },
        ExprData::Un(n) => {
            assert(vals2[n.x.0 as int] == vals1[n.x.0 as int]);
        },
        _ => {},
    }
}

/// Node `j` is `i` or below it: reached from `i` through child links.
pub open spec fn reaches(g: ExprGraph, i: int, j: int) -> bool
    decreases i,
{
    if j == i {
        true
    } else if 0 <= i < g.nodes().len() {
        match g.nodes()[i] {
            ExprData::Bin(b) => (b.l.0 < i && reaches(g, b.l.0 as int, j)) || (b.r.0 < i && reaches(
                g,
                b.r.0 as int,
                j,
            )),
            ExprData::Un(u) => u.x.0 < i && reaches(g, u.x.0 as int, j),
            _ => false,
        }
    } else {
        false
    }
}

/// Node `j` is a leaf.
pub open spec fn is_leaf(g: ExprGraph, j: int) -> bool {
    g.nodes()[j] is Param || g.nodes()[j] is Zero
}

/// Every node that got a value between `c1` and `c2` is reached from `i`,
/// and a leaf among them got a buffer that `c1`'s builder did not have.
pub open spec fn grown(g: ExprGraph, c1: EvalCtx, c2: EvalCtx, i: int) -> bool {
    forall|j: int|
        0 <= j < g.nodes().len() && c1.value(j) is None && (#[trigger] c2.value(j)) is Some ==> {
            &&& reaches(g, i, j)
            &&& is_leaf(g, j) ==> c2.value(j)->Some_0.0 > c1.builder().entries().len()
        }
}

proof fn lemma_grown_chain(g: ExprGraph, c1: EvalCtx, c2: EvalCtx, c3: EvalCtx, i: int, a: int, b: int)
    requires
        grown(g, c1, c2, a),
        grown(g, c2, c3, b),
        forall|j: int| #[trigger] c1.value(j) is Some ==> c2.value(j) == c1.value(j),
        forall|j: int| #[trigger] c2.value(j) is Some ==> c3.value(j) == c2.value(j),
        c1.builder().entries().len() <= c2.builder().entries().len(),
        forall|j: int| reaches(g, a, j) ==> reaches(g, i, j),
        forall|j: int| reaches(g, b, j) ==> reaches(g, i, j),
    ensures
        grown(g, c1, c3, i),
{
    assert forall|j: int|
        0 <= j < g.nodes().len() && c1.value(j) is None && (#[trigger] c3.value(j)) is Some implies {
            &&& reaches(g, i, j)
            &&& is_leaf(g, j) ==> c3.value(j)->Some_0.0 > c1.builder().entries().len()
        } by {
        if c2.value(j) is Some {
            assert(c3.value(j) == c2.value(j));
            assert(reaches(g, a, j));
        } else {
            assert(reaches(g, b, j));
        }
    }
}

/// Buffer `k` is the value of a node that had no value in `c1`.
pub open spec fn newly_memoized(g: ExprGraph, c1: EvalCtx, c2: EvalCtx, k: int) -> bool {
    exists|j: int|
        0 <= j < g.nodes().len() && c1.value(j) is None && #[trigger] c2.value(j) == Some(BufId(k as u64))
}

proof fn lemma_prefix_trans(a: Seq<BufEntry>, b: Seq<BufEntry>, c: Seq<BufEntry>)
    requires
        a.len() <= b.len() <= c.len(),
        b.subrange(0, a.len() as int) == a,
        c.subrange(0, b.len() as int) == b,
    ensures
        c.subrange(0, a.len() as int) == a,
{
    assert(c.subrange(0, a.len() as int) =~= c.subrange(0, b.len() as int).subrange(0, a.len() as int));
}

proof fn lemma_newly_chain(g: ExprGraph, c0: EvalCtx, c1: EvalCtx, c2: EvalCtx, n0: int, n1: int, n2: int)
    requires
        forall|k: int| n0 < k <= n1 ==> #[trigger] newly_memoized(g, c0, c1, k),
        forall|k: int| n1 < k <= n2 ==> #[trigger] newly_memoized(g, c1, c2, k),
        forall|j: int| #[trigger] c0.value(j) is Some ==> c1.value(j) == c0.value(j),
        forall|j: int| #[trigger] c1.value(j) is Some ==> c2.value(j) == c1.value(j),
    ensures
        forall|k: int| n0 < k <= n2 ==> #[trigger] newly_memoized(g, c0, c2, k),
{
    assert forall|k: int| n0 < k <= n2 implies #[trigger] newly_memoized(g, c0, c2, k) by {
        if k <= n1 {
            assert(newly_memoized(g, c0, c1, k));
            let j = choose|j: int|
                0 <= j < g.nodes().len() && c0.value(j) is None && #[trigger] c1.value(j) == Some(BufId(k as u64));
            assert(c2.value(j) == c1.value(j));
        } else {
            assert(newly_memoized(g, c1, c2, k));
            let j = choose|j: int|
                0 <= j < g.nodes().len() && c1.value(j) is None && #[trigger] c2.value(j) == Some(BufId(k as u64));
            if c0.value(j) is Some {
                assert(c1.value(j) == c0.value(j));
            }
        }
    }
}

/// The postcondition of evaluating node `i`: `c2` is `c1` after it, and `r`
/// is the result.
pub open spec fn evaluated(g: ExprGraph, c1: EvalCtx, i: int, c2: EvalCtx, r: BufId) -> bool {
    let es1 = c1.builder().entries();
    let es2 = c2.builder().entries();
    &&& c2.wf(g)
    &&& c2.vals().len() == g.nodes().len()
    &&& c2.value(i) == Some(r)
    &&& denotes(g, es2, c2.vals(), i)
    &&& forall|j: int| #[trigger] c1.value(j) is Some ==> c2.value(j) == c1.value(j)
    &&& forall|j: int| i < j ==> #[trigger] c2.value(j) == c1.value(j)
    &&& forall|j: int|
        0 <= j < c1.ids().len() && #[trigger] c1.ids()[j] != 0 ==> c2.ids()[j] == c1.ids()[j]
    &&& es1.len() <= es2.len()
    &&& es2.subrange(0, es1.len() as int) == es1
    &&& c1.builder().deps().subset_of(c2.builder().deps())
    &&& c2.wants_grad() == c1.wants_grad()
    &&& c2.active() == c1.active()
    &&& c1.last_id() <= c2.last_id()
    // every buffer added is the value of a node that had none before
    &&& forall|k: int| es1.len() < k <= es2.len() ==> #[trigger] newly_memoized(g, c1, c2, k)
    // only nodes below `i` are evaluated, and leaves get fresh buffers
    &&& grown(g, c1, c2, i)
    // a node without an id gets the counter's next value
    &&& c1.value(i) is None && (i >= c1.ids().len() || c1.ids()[i] == 0) ==> c2.ids()[i] == c1.last_id() + 1
    // a memoized node is not evaluated again
    &&& c1.value(i) is Some ==> {
        &&& c2.builder() == c1.builder()
        &&& c2.last_id() == c1.last_id()
        &&& forall|j: int| 0 <= j < g.nodes().len() ==> #[trigger] c2.value(j) == c1.value(j)
    }
}

/// The state after the work of node `i` and before its value is memoized:
/// `out` is what node `i` denotes once memoized.
pub open spec fn computed(g: ExprGraph, c1: EvalCtx, i: int, c4: EvalCtx, out: BufId) -> bool {
    let es1 = c1.builder().entries();
    let es4 = c4.builder().entries();
    &&& c4.consistent(g)
    &&& c4.vals().len() == g.nodes().len()
    &&& c4.vals()[i] is None
    &&& c4.ids()[i] != 0
    &&& denotes(g, es4, c4.vals().update(i, Some(out)), i)
    &&& es4.len() <= memoized(c4.vals()) + 1
    &&& forall|j: int| #[trigger] c1.value(j) is Some ==> c4.value(j) == c1.value(j)
    &&& forall|j: int| i <= j ==> #[trigger] c4.value(j) == c1.value(j)
    &&& forall|j: int|
        0 <= j < c1.ids().len() && #[trigger] c1.ids()[j] != 0 ==> c4.ids()[j] == c1.ids()[j]
    &&& es1.len() <= es4.len()
    &&& es4.subrange(0, es1.len() as int) == es1
    &&& c1.builder().deps().subset_of(c4.builder().deps())
    &&& c4.wants_grad() == c1.wants_grad()
    &&& c4.active() == c1.active()
    &&& c1.last_id() <= c4.last_id()
    &&& forall|k: int| es1.len() < k <= es4.len() && k != out.0 ==> #[trigger] newly_memoized(g, c1, c4, k)
    &&& grown(g, c1, c4, i)
    &&& is_leaf(g, i) ==> out.0 > es1.len()
    &&& c4.ids()[i] == c1.ids()[i]
}

impl EvalCtx {
    /// After the builder call of node `i`'s work: `c1` is the state when the
    /// work began, `c` the state just before the call.
    proof fn lemma_after_builder(self, g: ExprGraph, c1: EvalCtx, c: EvalCtx, i: int, out: BufId)
        requires
            c1.wf(g),
            c1.vals().len() == g.nodes().len(),
            0 <= i < g.nodes().len(),
            c1.vals()[i] is None,
            c1.ids()[i] != 0,
            c.wf(g),
            c.vals().len() == g.nodes().len(),
            c.vals()[i] is None,
            forall|j: int| #[trigger] c1.value(j) is Some ==> c.value(j) == c1.value(j),
            forall|j: int| i <= j ==> #[trigger] c.value(j) == c1.value(j),
            forall|j: int|
                0 <= j < c1.ids().len() && #[trigger] c1.ids()[j] != 0 ==> c.ids()[j] == c1.ids()[j],
            c1.builder().entries().len() <= c.builder().entries().len(),
            c.builder().entries().subrange(0, c1.builder().entries().len() as int) == c1.builder().entries(),
            c1.builder().deps().subset_of(c.builder().deps()),
            c.wants_grad() == c1.wants_grad(),
            c.active() == c1.active(),
            c1.last_id() <= c.last_id(),
            forall|k: int| c1.builder().entries().len() < k <= c.builder().entries().len()
                ==> #[trigger] newly_memoized(g, c1, c, k),
            self.vals == c.vals,
            self.ids == c.ids,
            self.next == c.next,
            self.grad == c.grad,
            self.active == c.active,
            self.builder.wf(),
            c.builder().entries().len() <= self.builder().entries().len() <= c.builder().entries().len() + 1,
            self.builder().entries().subrange(0, c.builder().entries().len() as int) == c.builder().entries(),
            self.builder().entries().len() > c.builder().entries().len() ==> out.0 == self.builder().entries().len(),
            c.builder().deps().subset_of(self.builder().deps()),
            denotes(g, self.builder().entries(), c.vals().update(i, Some(out)), i),
            grown(g, c1, c, i),
            is_leaf(g, i) ==> out.0 > c1.builder().entries().len(),
            shaped(self.builder().entries()),
        ensures
            computed(g, c1, i, self, out),
    {
        let es1 = c1.builder().entries();
        let esc = c.builder().entries();
        let es = self.builder().entries();
        lemma_memoized_set(c.vals(), i, out);
        lemma_prefix_trans(es1, esc, es);
        assert(c1.ids()[i] != 0);
        assert(self.ids()[i] == c1.ids()[i]);
        assert forall|j: int| 0 <= j < self.vals@.len() && (#[trigger] self.vals@[j]) is Some implies {
            &&& self.ids@[j] != 0
            &&& denotes(g, es, self.vals@, j)
        } by {
            lemma_denotes_stable(g, esc, c.vals@, es, self.vals@, j);
        }
        assert forall|j: int|
            0 <= j < g.nodes().len() && c1.value(j) is None && (#[trigger] self.value(j)) is Some implies {
                &&& reaches(g, i, j)
                &&& is_leaf(g, j) ==> self.value(j)->Some_0.0 > c1.builder().entries().len()
            } by {
            assert(self.value(j) == c.value(j));
        }
        assert forall|k: int| es1.len() < k <= es.len() && k != out.0 implies #[trigger] newly_memoized(g, c1, self, k) by {
            assert(newly_memoized(g, c1, c, k));
            let j = choose|j: int|
                0 <= j < g.nodes().len() && c1.value(j) is None && #[trigger] c.value(j) == Some(BufId(k as u64));
            assert(self.value(j) == c.value(j));
        }
    }

    /// The work of node `i`, which has an id and no value yet: a fresh
    /// buffer of its shape for a leaf, or the emission of its operation on
    /// its children's buffers.
    #[verifier::rlimit(80)]
    fn compute(&mut self, g: &ExprGraph, i: usize) -> (out: BufId)
        requires
            old(self).wf(*g),
            old(self).vals().len() == g.nodes().len(),
            i < g.nodes().len(),
            old(self).vals()[i as int] is None,
            old(self).ids()[i as int] != 0,
        ensures
            computed(*g, *old(self), i as int, *final(self), out),
            exists|t: Trace| work(*g, old(self).builder(), old(self).vals(), i as int, final(self).builder(), final(self).vals(), out, t),
        decreases i, 0nat,
    {
        let ghost c1 = *self;
        let ghost n1 = c1.builder().entries().len() as int;
        let glen = g.len();
        proof {
            lemma_memoized_set(self.vals@, i as int, BufId(0));
            assert(c1.builder().entries().subrange(0, n1) =~= c1.builder().entries());
        }
        match g.node(Expr(i)) {
            ExprData::Param(p) => {
                let out = self.builder.buffer(p.shape.copy());
                proof {
                    lemma_alloc_shaped(c1.builder, p.shape@, self.builder, out);
                    self.lemma_after_builder(*g, c1, c1, i as int, out);
                    assert(self.vals() == c1.vals());
                    assert(work(*g, c1.builder(), c1.vals(), i as int, self.builder(), self.vals(), out, Trace::Leaf));
                }
                out
            },
            ExprData::Zero(p) => {
                let out = self.builder.buffer(p.shape.copy());
                proof {
                    lemma_alloc_shaped(c1.builder, p.shape@, self.builder, out);
                    self.lemma_after_builder(*g, c1, c1, i as int, out);
                    assert(self.vals() == c1.vals());
                    assert(work(*g, c1.builder(), c1.vals(), i as int, self.builder(), self.vals(), out, Trace::Leaf));
                }
                out
            },
            ExprData::Bin(n) => {
                let l = self.eval_at(g, n.l.0);
                let ghost c2 = *self;
                let r = self.eval_at(g, n.r.0);
                let ghost c3 = *self;
                proof {
                    lemma_newly_chain(*g, c1, c2, c3, n1,
                        c2.builder().entries().len() as int, c3.builder().entries().len() as int);
                    assert(self.value(i as int) == c1.value(i as int));
                    lemma_memoized_set(self.vals@, i as int, BufId(0));
                    lemma_prefix_trans(c1.builder().entries(), c2.builder().entries(), c3.builder().entries());
                }
                proof {
                    assert(c3.value(n.l.0 as int) == c2.value(n.l.0 as int));
                    assert(g.shape_follows(i as int));
                    assert(c3.vals@[n.l.0 as int] is Some);
                    assert(c3.vals@[n.r.0 as int] is Some);
                    assert(denotes(*g, c3.builder.entries(), c3.vals@, n.l.0 as int));
                    assert(denotes(*g, c3.builder.entries(), c3.vals@, n.r.0 as int));
                }
                let out = self.builder.emit(n.op.op_type(), &n.shape, l, r);
                proof {
                    lemma_emit_shaped(c3.builder, n.op.sig(), n.shape@, l, r, self.builder, out);
                    assert(c3.value(n.l.0 as int) == c2.value(n.l.0 as int));
                    assert forall|j: int| reaches(*g, n.l.0 as int, j) implies reaches(*g, i as int, j) by {}
                    assert forall|j: int| reaches(*g, n.r.0 as int, j) implies reaches(*g, i as int, j) by {}
                    lemma_grown_chain(*g, c1, c2, c3, i as int, n.l.0 as int, n.r.0 as int);
                    self.lemma_after_builder(*g, c1, c3, i as int, out);
                    assert(self.vals() == c3.vals());
                    let tl = choose|t: Trace| lowers(*g, c1.builder(), c1.vals(), n.l.0 as int, c2.builder(), c2.vals(), l, t);
                    let tr = choose|t: Trace| lowers(*g, c2.builder(), c2.vals(), n.r.0 as int, c3.builder(), c3.vals(), r, t);
                    let t = Trace::Op { left: Box::new(tl), right: Box::new(tr), ba: c2.builder(), va: c2.vals(), vl: l, bb: c3.builder(), vr: r };
                    assert(g.nodes()[i as int].children_below(i as int));
                    assert(work(*g, c1.builder(), c1.vals(), i as int, self.builder(), self.vals(), out, t));
                }
                out
            },
            ExprData::Un(n) => {
                let x = self.eval_at(g, n.x.0);
                let ghost c2 = *self;
                proof {
                    assert(self.value(i as int) == c1.value(i as int));
                    lemma_memoized_set(self.vals@, i as int, BufId(0));
                }
                proof {
                    assert(g.shape_follows(i as int));
                    assert(c2.vals@[n.x.0 as int] is Some);
                    assert(denotes(*g, c2.builder.entries(), c2.vals@, n.x.0 as int));
                }
                let out = self.builder.emit(n.op.op_type(), &n.shape, x, BufId(0));
                proof {
                    lemma_emit_shaped(c2.builder, n.op.sig(), n.shape@, x, BufId(0), self.builder, out);
                    assert forall|j: int| reaches(*g, n.x.0 as int, j) implies reaches(*g, i as int, j) by {}
                    lemma_grown_chain(*g, c1, c2, c2, i as int, n.x.0 as int, n.x.0 as int);
                    self.lemma_after_builder(*g, c1, c2, i as int, out);
                    assert(self.vals() == c2.vals());
                    let tx = choose|t: Trace| lowers(*g, c1.builder(), c1.vals(), n.x.0 as int, c2.builder(), c2.vals(), x, t);
                    let t = Trace::Op { left: Box::new(tx), right: Box::new(Trace::Leaf), ba: c2.builder(), va: c2.vals(), vl: x, bb: c2.builder(), vr: x };
                    assert(g.nodes()[i as int].children_below(i as int));
                    assert(work(*g, c1.builder(), c1.vals(), i as int, self.builder(), self.vals(), out, t));
                }
                out
            },
        }
    }

    /// Evaluates node `i`: its memoized buffer if it has one; otherwise it
    /// gets an id if it has none, then its work is done and its value
    /// memoized.
    #[verifier::rlimit(60)]
    fn eval_at(&mut self, g: &ExprGraph, i: usize) -> (r: BufId)
        requires
            old(self).wf(*g),
            old(self).vals().len() == g.nodes().len(),
            i < g.nodes().len(),
        ensures
            evaluated(*g, *old(self), i as int, *final(self), r),
            exists|t: Trace| lowers(*g, old(self).builder(), old(self).vals(), i as int, final(self).builder(), final(self).vals(), r, t),
        decreases i, 1nat,
    {
        if let Some(b) = self.vals[i] {
            assert forall|k: int|
                self.builder.entries().len() < k <= self.builder.entries().len() implies #[trigger] newly_memoized(*g, *old(self), *self, k) by {}
            assert(self.builder.entries().subrange(0, self.builder.entries().len() as int) =~= self.builder.entries());
            assert(lowers(*g, self.builder(), self.vals(), i as int, self.builder(), self.vals(), b, Trace::Leaf));
            return b;
        }
        let ghost c0 = *self;
        if self.ids[i] == 0 {
            proof {
                lemma_assigned_set(self.ids@, i as int, 1);
                assert(self.ids@.len() == self.ids.len());
                assert(self.ids.len() <= u64::MAX);
            }
            let id = self.mkid();
            proof {
                lemma_assigned_set(self.ids@, i as int, id);
            }
            self.ids.set(i, id);
        }
        let id = self.ids[i];
        self.enter(id);
        let ghost c1 = *self;
        let out = self.compute(g, i);
        let ghost c4 = *self;
        self.exit();
        assert(self.active@ =~= c0.active@);
        self.vals.set(i, Some(out));
        proof {
            lemma_memoized_set(c4.vals@, i as int, out);
            let es4 = c4.builder.entries();
            let es = self.builder.entries();
            assert(es.subrange(0, es4.len() as int) =~= es4);
            assert forall|j: int| 0 <= j < self.vals@.len() && (#[trigger] self.vals@[j]) is Some implies {
                &&& self.ids@[j] != 0
                &&& denotes(*g, es, self.vals@, j)
            } by {
                if j != i {
                    assert(c4.vals@[j] == self.vals@[j]);
                    lemma_denotes_stable(*g, es4, c4.vals@, es, self.vals@, j);
                }
            }
            assert(self.ids()[i as int] == c1.ids()[i as int]);
            assert(self.vals().update(i as int, None) =~= c4.vals());
            assert(c1.vals() == c0.vals() && c1.builder() == c0.builder());
            let t = choose|t: Trace| work(*g, c1.builder(), c1.vals(), i as int, c4.builder(), c4.vals(), out, t);
            assert(work(*g, c0.builder(), c0.vals(), i as int, self.builder(), self.vals().update(i as int, None), out, t));
            assert(lowers(*g, c0.builder(), c0.vals(), i as int, self.builder(), self.vals(), out, t));
            assert forall|i1: int, i2: int|
                0 <= i1 < self.vals@.len() && 0 <= i2 < self.vals@.len() && i1 != i2 && (#[trigger] self.vals@[i1]) is Some
                    && (#[trigger] self.vals@[i2]) is Some && is_leaf(*g, i1) && is_leaf(*g, i2) implies self.vals@[i1] != self.vals@[i2] by {
                if i1 == i as int || i2 == i as int {
                    let j = if i1 == i as int { i2 } else { i1 };
                    assert(c4.vals@[j] == self.vals@[j]);
                    if c1.value(j) is None {
                        assert(reaches(*g, i as int, j));
                        assert(false);
                    } else {
                        assert(c4.value(j) == c1.value(j));
                        assert(c1.vals@[j] is Some);
                        assert(denotes(*g, c1.builder.entries(), c1.vals@, j));
                    }
                } else {
                    assert(c4.vals@[i1] == self.vals@[i1]);
                    assert(c4.vals@[i2] == self.vals@[i2]);
                }
            }
            assert forall|j: int| 0 <= j < c0.ids@.len() && #[trigger] c0.ids@[j] != 0 implies self.ids@[j] == c0.ids@[j] by {
                assert(c1.ids()[j] == c0.ids()[j]);
                assert(c1.ids()[j] != 0);
                assert(c4.ids()[j] == c1.ids()[j]);
            }
            assert forall|j: int|
                0 <= j < g.nodes().len() && c0.value(j) is None && (#[trigger] self.value(j)) is Some implies {
                    &&& reaches(*g, i as int, j)
                    &&& is_leaf(*g, j) ==> self.value(j)->Some_0.0 > c0.builder().entries().len()
                } by {
                assert(c1.value(j) == c0.value(j));
                if j != i {
                    assert(self.value(j) == c4.value(j));
                }
            }
            assert forall|j: int| i < j implies #[trigger] self.value(j) == c0.value(j) by {
                assert(c4.value(j) == c1.value(j));
            }
            assert forall|k: int| c0.builder().entries().len() < k <= es.len() implies #[trigger] newly_memoized(*g, c0, *self, k) by {
                if k == out.0 {
                    assert(self.value(i as int) == Some(BufId(k as u64)));
                } else {
                    assert(newly_memoized(*g, c1, c4, k));
                    let j = choose|j: int|
                        0 <= j < g.nodes().len() && c1.value(j) is None && #[trigger] c4.value(j) == Some(BufId(k as u64));
                    assert(self.value(j) == c4.value(j));
                }
            }
        }
        assert forall|j: int| #[trigger] c0.value(j) is Some implies self.value(j) == c0.value(j) by {
            assert(c1.value(j) == c0.value(j));
            assert(c4.value(j) == c1.value(j));
            if j == i {
                assert(c0.value(i as int) is None);
            }
        }
        out
    }
}

impl EvalCtx {
    /// Gives every node of `g` a place in the tables of this context.
    fn fit(&mut self, g: &ExprGraph)
        requires
            old(self).wf(*g),
        ensures
            final(self).wf(*g),
            final(self).vals().len() == g.nodes().len(),
            final(self).builder() == old(self).builder(),
            final(self).last_id() == old(self).last_id(),
            final(self).wants_grad() == old(self).wants_grad(),
            final(self).active() == old(self).active(),
            forall|j: int| #[trigger] final(self).value(j) == old(self).value(j),
            forall|j: int| 0 <= j < old(self).ids().len() ==> #[trigger] final(self).ids()[j] == old(self).ids()[j],
            forall|j: int| old(self).ids().len() <= j < final(self).ids().len() ==> #[trigger] final(self).ids()[j] == 0,
            final(self).vals() == padded(old(self).vals(), g.nodes().len()),
    {
        let n = g.len();
        while self.vals.len() < n
            invariant
                self.wf(*g),
                n == g.nodes().len(),
                self.builder == old(self).builder,
                self.next == old(self).next,
                self.grad == old(self).grad,
                self.active == old(self).active,
                old(self).vals@.len() <= self.vals@.len(),
                old(self).ids@.len() == old(self).vals@.len(),
                forall|j: int| #[trigger] self.value(j) == old(self).value(j),
                forall|j: int| 0 <= j < old(self).ids().len() ==> #[trigger] self.ids()[j] == old(self).ids()[j],
                forall|j: int| old(self).ids().len() <= j < self.ids().len() ==> #[trigger] self.ids()[j] == 0,
            decreases n - self.vals@.len(),
        {
            let ghost v0 = self.vals@;
            let ghost i0 = self.ids@;
            let ghost head = *self;
            proof {
                lemma_memoized_push_none(v0);
                lemma_assigned_push_zero(i0);
            }
            self.vals.push(None);
            self.ids.push(0);
            proof {
                let es = self.builder.entries();
                assert forall|j: int| 0 <= j < self.vals@.len() && (#[trigger] self.vals@[j]) is Some implies {
                    &&& self.ids@[j] != 0
                    &&& denotes(*g, es, self.vals@, j)
                } by {
                    assert(self.vals@[j] == v0[j]);
                    assert(self.ids@[j] == i0[j]);
                    assert(es.subrange(0, es.len() as int) =~= es);
                    lemma_denotes_stable(*g, es, v0, es, self.vals@, j);
                }
                assert forall|j: int| #[trigger] self.value(j) == old(self).value(j) by {
                    assert(head.value(j) == old(self).value(j));
                    if 0 <= j < v0.len() {
                        assert(self.vals@[j] == v0[j]);
                    }
                }
                assert forall|j: int| 0 <= j < old(self).ids().len() implies #[trigger] self.ids()[j] == old(self).ids()[j] by {
                    assert(head.ids()[j] == old(self).ids()[j]);
                    assert(self.ids@[j] == i0[j]);
                }
                assert forall|j: int| old(self).ids().len() <= j < self.ids().len() implies #[trigger] self.ids()[j] == 0 by {
                    if j < i0.len() {
                        assert(head.ids()[j] == 0);
                        assert(self.ids@[j] == i0[j]);
                    }
                }
            }
        }
        proof {
            assert forall|j: int| 0 <= j < self.vals().len() implies self.vals()[j] == padded(old(self).vals(), g.nodes().len())[j] by {
                assert(self.value(j) == old(self).value(j));
            }
            assert(self.vals() =~= padded(old(self).vals(), g.nodes().len()));
        }
    }
}

impl Expr {
    /// Evaluates this expression in `ctx`, emitting into its builder. A
    /// node evaluated before in this context returns its memoized buffer and
    /// emits nothing; see `evaluated` for the whole contract.
    pub fn eval(self, g: &ExprGraph, ctx: &mut EvalCtx) -> (r: BufId)
        requires
            g.wf(),
            g.valid(self),
            old(ctx).wf(*g),
        ensures
            evaluated(*g, *old(ctx), self.0 as int, *final(ctx), r),
            // lowering, operands left to right before their node
            exists|t: Trace|
                lowers(
                    *g,
                    old(ctx).builder(),
                    padded(old(ctx).vals(), g.nodes().len()),
                    self.0 as int,
                    final(ctx).builder(),
                    final(ctx).vals(),
                    r,
                    t,
                ),
    {
        ctx.fit(g);
        let ghost c1 = *ctx;
        let r = ctx.eval_at(g, self.0);
        proof {
            let c0 = *old(ctx);
            assert(c1.value(self.0 as int) == c0.value(self.0 as int));
            if (self.0 as int) < c0.ids().len() {
                assert(c1.ids()[self.0 as int] == c0.ids()[self.0 as int]);
            } else {
                assert(c1.ids()[self.0 as int] == 0);
            }
            assert forall|j: int| 0 <= j < c0.ids().len() && #[trigger] c0.ids()[j] != 0 implies ctx.ids()[j] == c0.ids()[j] by {
                assert(c1.ids()[j] == c0.ids()[j]);
            }
            assert forall|k: int| c0.builder().entries().len() < k <= ctx.builder().entries().len() implies #[trigger] newly_memoized(*g, c0, *ctx, k) by {
                assert(newly_memoized(*g, c1, *ctx, k));
                let j = choose|j: int|
                    0 <= j < g.nodes().len() && c1.value(j) is None && #[trigger] ctx.value(j) == Some(BufId(k as u64));
                assert(c1.value(j) == c0.value(j));
            }
            assert forall|j: int| #[trigger] c0.value(j) is Some implies ctx.value(j) == c0.value(j) by {
                assert(c1.value(j) == c0.value(j));
            }
            assert forall|j: int| self.0 < j implies #[trigger] ctx.value(j) == c0.value(j) by {
                assert(c1.value(j) == c0.value(j));
            }
            if c0.value(self.0 as int) is Some {
                assert forall|j: int| 0 <= j < g.nodes().len() implies #[trigger] ctx.value(j) == c0.value(j) by {
                    assert(c1.value(j) == c0.value(j));
                }
            }
        }
        r
    }
}

/// Memoization: a node that already has a value in a context is not
/// evaluated again there. Evaluating it returns that value and leaves the
/// builder, the ids and every memoized value as they were.
pub proof fn lemma_memoized_not_reevaluated(g: ExprGraph, c1: EvalCtx, i: int, c2: EvalCtx, r: BufId)
    requires
        evaluated(g, c1, i, c2, r),
        c1.value(i) is Some,
    ensures
        r == c1.value(i)->Some_0,
        c2.builder() == c1.builder(),
        c2.last_id() == c1.last_id(),
        forall|j: int| 0 <= j < g.nodes().len() ==> #[trigger] c2.value(j) == c1.value(j),
{
}

/// Every buffer that an evaluation adds is the value of a node that had no
/// value before it: a node is given at most one buffer per context, and a
/// shared node is lowered once.
pub proof fn lemma_new_buffers_are_new_values(g: ExprGraph, c1: EvalCtx, i: int, c2: EvalCtx, r: BufId, k: int)
    requires
        evaluated(g, c1, i, c2, r),
        c1.builder().entries().len() < k <= c2.builder().entries().len(),
    ensures
        exists|j: int|
            0 <= j < g.nodes().len() && c1.value(j) is None && #[trigger] c2.value(j) == Some(BufId(k as u64)),
{
    assert(newly_memoized(g, c1, c2, k));
}

/// Memoization of a shared operand: evaluating `x * x` (one leaf handle
/// used as both operands), where neither node has a value yet, allocates
/// exactly one buffer for the leaf, however often the product refers to it.
pub proof fn lemma_shared_leaf_allocated_once(g: ExprGraph, c1: EvalCtx, m: int, c2: EvalCtx, r: BufId, x: int)
    requires
        evaluated(g, c1, m, c2, r),
        0 <= m < g.nodes().len(),
        g.nodes()[m] is Bin,
        g.nodes()[m]->Bin_0.l.0 == x,
        g.nodes()[m]->Bin_0.r.0 == x,
        g.nodes()[x] is Param,
        c1.value(x) is None,
    ensures
        c2.value(x) is Some,
        c1.builder().entries().len() < c2.value(x)->Some_0.0 <= c2.builder().entries().len(),
        c2.builder().entries()[c2.value(x)->Some_0.0 - 1] is Leaf,
        forall|k: int|
            c1.builder().entries().len() < k <= c2.builder().entries().len()
                && (#[trigger] c2.builder().entries()[k - 1]) is Leaf ==> k == c2.value(x)->Some_0.0,
{
    let es2 = c2.builder().entries();
    let vals = c2.vals();
    assert(g.nodes()[m].children_below(m));
    assert(vals[x] is Some);
    assert(c2.value(x) == vals[x]);
    assert(reaches(g, m, x));
    assert(is_leaf(g, x));
    lemma_memoized_bound(vals);
    assert(c2.vals@.len() == c2.vals.len());
    assert forall|k: int|
        c1.builder().entries().len() < k <= es2.len() && (#[trigger] es2[k - 1]) is Leaf implies k == c2.value(x)->Some_0.0 by {
        assert(newly_memoized(g, c1, c2, k));
        let j = choose|j: int|
            0 <= j < g.nodes().len() && c1.value(j) is None && #[trigger] c2.value(j) == Some(BufId(k as u64));
        assert(reaches(g, m, j));
        assert(vals[j] is Some);
        assert(k as u64 == k);
        if j == m {
            assert(denotes(g, es2, vals, m));
        } else {
            assert(reaches(g, x, j));
            assert(j == x);
        }
    }
}

/// A context stays well formed for a graph that only gained nodes, such as
/// the gradient nodes that `backward` adds, so they can be evaluated in it.
pub proof fn lemma_ctx_wf_extends(c: EvalCtx, g1: ExprGraph, g2: ExprGraph)
    requires
        c.wf(g1),
        extends(g1, g2),
    ensures
        c.wf(g2),
{
    let vals = c.vals();
    assert forall|i: int| 0 <= i < g1.nodes().len() implies #[trigger] g2.nodes()[i] == g1.nodes()[i] by {
        assert(g2.nodes().subrange(0, g1.nodes().len() as int)[i] == g2.nodes()[i]);
    }
    assert forall|i: int| 0 <= i < vals.len() && (#[trigger] vals[i]) is Some implies {
        &&& c.ids()[i] != 0
        &&& denotes(g2, c.builder().entries(), vals, i)
    } by {
        assert(g2.nodes()[i] == g1.nodes()[i]);
        assert(denotes(g1, c.builder().entries(), vals, i));
    }
    assert forall|i1: int, i2: int|
        0 <= i1 < vals.len() && 0 <= i2 < vals.len() && i1 != i2 && (#[trigger] vals[i1]) is Some
            && (#[trigger] vals[i2]) is Some && is_leaf(g2, i1) && is_leaf(g2, i2) implies vals[i1] != vals[i2] by {
        assert(g2.nodes()[i1] == g1.nodes()[i1]);
        assert(g2.nodes()[i2] == g1.nodes()[i2]);
    }
}

} // verus!
