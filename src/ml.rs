//! The low-level operation graph: buffers, instruction records, and the
//! hash-consing table that collapses structurally identical operations.
use vstd::prelude::*;
use indexmap::IndexSet;
use crate::shape::{Shape, copy_dims, same_dims};
use crate::table::{
    Edge, OpKey, OpTable, op_table, edge_set, op_table_new, op_table_get, op_table_insert,
    edge_set_new, edge_set_insert, edge_set_contains,
};

verus! {

/// How a pad operation fills the new cells.
#[derive(Debug, Clone, Copy, PartialEq, Eq, Hash, Structural)]
pub enum PadKind {
    /// Pad with zeroes.
    Zero,
    /// Pad with ones.
    One,
    /// Mirror from the buffer.
    Mirror,
    /// Keep the edge value.
    Edge,
}

/// The kinds of low-level operation.
#[derive(Debug)]
pub enum OpType {
    Add,
    Mul,
    Pow,
    Eq,
    Neg,
    Rec,
    Exp,
    Log,
    Gtz,
    MatMul,
    Max,
    Sum,
    Broadcast { axis: usize, count: usize },
    Cat { axis: usize },
    Flip { axis: usize },
    Permute { axes: Vec<usize> },
    Pad { axis: usize, amt: usize, kind: PadKind },
}

/// What identifies an operation type: a tag for the variant and its fields.
pub type OpSig = (nat, usize, usize, Seq<usize>, usize, PadKind);

impl OpType {
    pub open spec fn sig(&self) -> OpSig {
        match self {
            OpType::Add => (0, 0, 0, Seq::empty(), 0, PadKind::Zero),
            OpType::Mul => (1, 0, 0, Seq::empty(), 0, PadKind::Zero),
            OpType::Pow => (2, 0, 0, Seq::empty(), 0, PadKind::Zero),
            OpType::Eq => (3, 0, 0, Seq::empty(), 0, PadKind::Zero),
            OpType::Neg => (4, 0, 0, Seq::empty(), 0, PadKind::Zero),
            OpType::Rec => (5, 0, 0, Seq::empty(), 0, PadKind::Zero),
            OpType::Exp => (6, 0, 0, Seq::empty(), 0, PadKind::Zero),
            OpType::Log => (7, 0, 0, Seq::empty(), 0, PadKind::Zero),
            OpType::Gtz => (8, 0, 0, Seq::empty(), 0, PadKind::Zero),
            OpType::MatMul => (9, 0, 0, Seq::empty(), 0, PadKind::Zero),
            OpType::Max => (10, 0, 0, Seq::empty(), 0, PadKind::Zero),
            OpType::Sum => (11, 0, 0, Seq::empty(), 0, PadKind::Zero),
            OpType::Broadcast { axis, count } => (12, *axis, *count, Seq::empty(), 0, PadKind::Zero),
            OpType::Cat { axis } => (13, *axis, 0, Seq::empty(), 0, PadKind::Zero),
            OpType::Flip { axis } => (14, *axis, 0, Seq::empty(), 0, PadKind::Zero),
            OpType::Permute { axes } => (15, 0, 0, axes@, 0, PadKind::Zero),
            OpType::Pad { axis, amt, kind } => (16, *axis, *amt, Seq::empty(), 0, *kind),
        }
    }

    /// Whether two operation types are the same operation.
    pub fn same(&self, other: &OpType) -> (r: bool)
        ensures
            r == (self.sig() == other.sig()),
    {
        match (self, other) {
            (OpType::Add, OpType::Add) => true,
            (OpType::Mul, OpType::Mul) => true,
            (OpType::Pow, OpType::Pow) => true,
            (OpType::Eq, OpType::Eq) => true,
            (OpType::Neg, OpType::Neg) => true,
            (OpType::Rec, OpType::Rec) => true,
            (OpType::Exp, OpType::Exp) => true,
            (OpType::Log, OpType::Log) => true,
            (OpType::Gtz, OpType::Gtz) => true,
            (OpType::MatMul, OpType::MatMul) => true,
            (OpType::Max, OpType::Max) => true,
            (OpType::Sum, OpType::Sum) => true,
            (OpType::Broadcast { axis: a1, count: c1 }, OpType::Broadcast { axis: a2, count: c2 }) =>
                *a1 == *a2 && *c1 == *c2,
            (OpType::Cat { axis: a1 }, OpType::Cat { axis: a2 }) => *a1 == *a2,
            (OpType::Flip { axis: a1 }, OpType::Flip { axis: a2 }) => *a1 == *a2,
            (OpType::Permute { axes: x1 }, OpType::Permute { axes: x2 }) => same_dims(x1, x2),
            (OpType::Pad { axis: a1, amt: m1, kind: k1 }, OpType::Pad { axis: a2, amt: m2, kind: k2 }) =>
                *a1 == *a2 && *m1 == *m2 && *k1 == *k2,
            _ => false,
        }
    }

    /// A second value of the same operation type.
    pub fn copy(&self) -> (r: OpType)
        ensures
            r.sig() == self.sig(),
    {
        match self {
            OpType::Add => OpType::Add,
            OpType::Mul => OpType::Mul,
            OpType::Pow => OpType::Pow,
            OpType::Eq => OpType::Eq,
            OpType::Neg => OpType::Neg,
            OpType::Rec => OpType::Rec,
            OpType::Exp => OpType::Exp,
            OpType::Log => OpType::Log,
            OpType::Gtz => OpType::Gtz,
            OpType::MatMul => OpType::MatMul,
            OpType::Max => OpType::Max,
            OpType::Sum => OpType::Sum,
            OpType::Broadcast { axis, count } => OpType::Broadcast { axis: *axis, count: *count },
            OpType::Cat { axis } => OpType::Cat { axis: *axis },
            OpType::Flip { axis } => OpType::Flip { axis: *axis },
            OpType::Permute { axes } => OpType::Permute { axes: copy_dims(axes) },
            OpType::Pad { axis, amt, kind } => OpType::Pad { axis: *axis, amt: *amt, kind: *kind },
        }
    }
}

/// The id of a buffer in one builder. Ids start at 1; 0 stands for "no
/// buffer", the unused second source of a unary operation.
#[derive(Debug, Clone, Copy, PartialEq, Eq, Hash, Structural)]
pub struct BufId(pub u64);

/// An operation key: the operation type and its two sources.
#[derive(Debug)]
pub struct MLOp {
    pub op: OpType,
    pub src1: BufId,
    pub src2: BufId,
}

/// The instruction record of a buffer that an operation computes.
#[derive(Debug)]
pub struct OpInfo {
    pub op: OpType,
    pub osh: Shape,
    pub src1: BufId,
    pub src2: BufId,
}

/// What the builder knows of one buffer.
#[derive(Debug)]
pub enum BufEntry {
    /// A buffer allocated with its shape.
    Leaf(Shape),
    /// A buffer computed by an operation.
    Op(OpInfo),
}

impl BufEntry {
    /// The shape of the buffer: allocated with, or recorded for its output.
    pub open spec fn shape(self) -> Seq<usize> {
        match self {
            BufEntry::Leaf(s) => s@,
            BufEntry::Op(info) => info.osh@,
        }
    }
}

/// Whether an entry is the record of operation `op` on sources `s1`, `s2`.
pub open spec fn key_at(e: BufEntry, op: OpSig, s1: u64, s2: u64) -> bool {
    &&& e is Op
    &&& e->Op_0.op.sig() == op
    &&& e->Op_0.src1.0 == s1
    &&& e->Op_0.src2.0 == s2
}

/// Whether some entry is the record of operation `op` on sources `s1`, `s2`.
pub open spec fn has_key(es: Seq<BufEntry>, op: OpSig, s1: u64, s2: u64) -> bool {
    exists|i: int| 0 <= i < es.len() && key_at(#[trigger] es[i], op, s1, s2)
}

/// The builder of the low-level operation graph. Buffer `i` is described by
/// the entry at position `i - 1`.
#[derive(Debug)]
pub struct MLBuilder {
    entries: Vec<BufEntry>,
    /// For the record at each position, the position of its operation type
    /// in `ops`; 0 for an allocated buffer.
    codes: Vec<u64>,
    ops: Vec<OpType>,
    nodes: OpTable,
    deps: IndexSet<Edge>,
}

/// `b2` is `b1` after `allocate_buffer` of a buffer of shape `sh` returned `r`.
pub open spec fn allocates(b1: MLBuilder, sh: Seq<usize>, b2: MLBuilder, r: BufId) -> bool {
    &&& b2.wf()
    &&& r.0 == b1.entries().len() + 1
    &&& b2.entries().len() == b1.entries().len() + 1
    &&& b2.entries().subrange(0, b1.entries().len() as int) == b1.entries()
    &&& b2.entries()[b1.entries().len() as int] is Leaf
    &&& b2.entries()[b1.entries().len() as int]->Leaf_0@ == sh
    &&& b2.deps() == b1.deps()
}

/// `b2` is `b1` after `emit` of operation `op` with output shape `sh` on
/// sources `s1`, `s2` returned `r`.
pub open spec fn emits(
    b1: MLBuilder,
    op: OpSig,
    sh: Seq<usize>,
    s1: BufId,
    s2: BufId,
    b2: MLBuilder,
    r: BufId,
) -> bool {
    &&& b2.wf()
    &&& b2.entries().subrange(0, b1.entries().len() as int) == b1.entries()
    &&& if has_key(b1.entries(), op, s1.0, s2.0) {
        &&& b2.entries() == b1.entries()
        &&& 1 <= r.0 <= b1.entries().len()
        &&& forall|i: int|
            0 <= i < b1.entries().len() && key_at(#[trigger] b1.entries()[i], op, s1.0, s2.0)
                ==> r.0 == i + 1
    } else {
        &&& r.0 == b1.entries().len() + 1
        &&& b2.entries().len() == b1.entries().len() + 1
        &&& b2.entries().subrange(0, b1.entries().len() as int) == b1.entries()
        &&& key_at(b2.entries()[b1.entries().len() as int], op, s1.0, s2.0)
        &&& b2.entries()[b1.entries().len() as int]->Op_0.osh@ == sh
    }
    &&& 1 <= r.0 <= b2.entries().len()
    &&& key_at(b2.entries()[r.0 - 1], op, s1.0, s2.0)
    &&& b2.deps() == b1.deps().insert((s1.0, r.0)).insert((s2.0, r.0))
}

impl MLBuilder {
    /// The buffer entries, the one of buffer `i` at position `i - 1`.
    pub closed spec fn entries(self) -> Seq<BufEntry> {
        self.entries@
    }

    /// The dependency edges: `(s, o)` where buffer `o` consumes buffer `s`.
    pub closed spec fn deps(self) -> Set<Edge> {
        edge_set(self.deps)
    }

    pub closed spec fn wf(self) -> bool {
        let es = self.entries@;
        let cs = self.codes@;
        let ops = self.ops@;
        let tbl = op_table(self.nodes);
        &&& cs.len() == es.len()
        &&& ops.len() <= es.len()
        &&& forall|j: int, k: int|
            0 <= j < k < ops.len() ==> (#[trigger] ops[j]).sig() != (#[trigger] ops[k]).sig()
        &&& forall|key: OpKey|
            #[trigger] tbl.contains_key(key) ==> {
                &&& key.0 < ops.len()
                &&& 1 <= tbl[key] <= es.len()
                &&& es[tbl[key] - 1] is Op
                &&& cs[tbl[key] - 1] == key.0
                &&& es[tbl[key] - 1]->Op_0.src1.0 == key.1
                &&& es[tbl[key] - 1]->Op_0.src2.0 == key.2
            }
        &&& forall|i: int|
            0 <= i < es.len() && (#[trigger] es[i]) is Op ==> {
                let info = es[i]->Op_0;
                &&& cs[i] < ops.len()
                &&& ops[cs[i] as int].sig() == info.op.sig()
                &&& tbl.contains_key((cs[i], info.src1.0, info.src2.0))
                &&& tbl[(cs[i], info.src1.0, info.src2.0)] == i + 1
            }
    }

    pub fn new() -> (r: MLBuilder)
        ensures
            r.wf(),
            r.entries().len() == 0,
            r.deps().is_empty(),
    {
        MLBuilder {
            entries: Vec::new(),
            codes: Vec::new(),
            ops: Vec::new(),
            nodes: op_table_new(),
            deps: edge_set_new(),
        }
    }

    /// The number of buffers so far; also the largest id given out.
    pub fn len(&self) -> (r: u64)
        requires
            self.entries().len() <= u64::MAX,
        ensures
            r == self.entries().len(),
    {
        self.entries.len() as u64
    }

    /// Allocates a fresh buffer of the given shape; never deduplicated.
    pub fn buffer(&mut self, shape: Shape) -> (r: BufId)
        requires
            old(self).wf(),
            old(self).entries().len() < u64::MAX,
        ensures
            allocates(*old(self), shape@, *final(self), r),
    {
        let ghost sh = shape@;
        let id = self.entries.len() as u64 + 1;
        self.entries.push(BufEntry::Leaf(shape));
        self.codes.push(0);
        assert(self.entries@.subrange(0, old(self).entries@.len() as int) =~= old(self).entries@);
        let ghost es = self.entries@;
        assert forall|i: int| 0 <= i < es.len() && (#[trigger] es[i]) is Op implies {
            let info = es[i]->Op_0;
            let c = self.codes@[i];
            &&& c < self.ops@.len()
            &&& self.ops@[c as int].sig() == info.op.sig()
            &&& op_table(self.nodes).contains_key((c, info.src1.0, info.src2.0))
            &&& op_table(self.nodes)[(c, info.src1.0, info.src2.0)] == i + 1
        } by {
            assert(es[i] == old(self).entries@[i]);
            assert(self.codes@[i] == old(self).codes@[i]);
        }
        BufId(id)
    }

    /// The position of `op` in the table of operation types, added last if
    /// it is not there yet.
    fn op_code(&mut self, op: &OpType) -> (r: u64)
        requires
            old(self).wf(),
        ensures
            final(self).entries == old(self).entries,
            final(self).codes == old(self).codes,
            final(self).nodes == old(self).nodes,
            final(self).deps == old(self).deps,
            old(self).ops@.len() <= final(self).ops@.len() <= old(self).ops@.len() + 1,
            old(self).ops@ == final(self).ops@.subrange(0, old(self).ops@.len() as int),
            r < final(self).ops@.len(),
            final(self).ops@[r as int].sig() == op.sig(),
            forall|j: int, k: int|
                0 <= j < k < final(self).ops@.len() ==> (#[trigger] final(self).ops@[j]).sig()
                    != (#[trigger] final(self).ops@[k]).sig(),
            final(self).ops@.len() > old(self).ops@.len() ==> r == old(self).ops@.len(),
            final(self).ops@.len() > old(self).ops@.len() ==> forall|j: int|
                0 <= j < old(self).ops@.len() ==> (#[trigger] old(self).ops@[j]).sig() != op.sig(),
    {
        let mut j: usize = 0;
        while j < self.ops.len()
            invariant
                j <= self.ops@.len(),
                self.ops@ == old(self).ops@,
                self.entries == old(self).entries,
                self.codes == old(self).codes,
                self.nodes == old(self).nodes,
                self.deps == old(self).deps,
                old(self).wf(),
                forall|k: int| 0 <= k < j ==> (#[trigger] self.ops@[k]).sig() != op.sig(),
            decreases self.ops@.len() - j,
        {
            if self.ops[j].same(op) {
                assert(old(self).ops@.len() <= old(self).entries@.len());
                assert(self.ops@ =~= self.ops@.subrange(0, self.ops@.len() as int));
                return j as u64;
            }
            j = j + 1;
        }
        let ghost before = self.ops@;
        assert(self.ops@.len() <= self.entries@.len());
        self.ops.push(op.copy());
        assert(before =~= self.ops@.subrange(0, before.len() as int));
        j as u64
    }

    /// Emits operation `op` with output shape `osh` on sources `src1`, `src2`.
    /// A key emitted before resolves to the buffer it got then; a new key
    /// gets a fresh buffer and an instruction record. Either way both
    /// sources are recorded as consumed by the result.
    pub fn emit(&mut self, op: OpType, osh: &Shape, src1: BufId, src2: BufId) -> (r: BufId)
        requires
            old(self).wf(),
            old(self).entries().len() < u64::MAX,
        ensures
            emits(*old(self), op.sig(), osh@, src1, src2, *final(self), r),
    {
        let ghost old_es = self.entries@;
        let ghost sig = op.sig();
        let code = self.op_code(&op);
        let key: OpKey = (code, src1.0, src2.0);
        let found = op_table_get(&self.nodes, &key);
        let outid: u64;
        match found {
            Some(id) => {
                outid = id;
                assert(self.entries@.subrange(0, old_es.len() as int) =~= old_es);
                let ghost tbl = op_table(self.nodes);
                let ghost c0 = old(self).codes@[id - 1];
                assert(self.ops@.subrange(0, old(self).ops@.len() as int)[c0 as int] == self.ops@[c0 as int]);
                assert(old(self).ops@[c0 as int] == self.ops@[c0 as int]);
                assert(key_at(old_es[id - 1], sig, src1.0, src2.0));
                assert forall|i: int|
                    0 <= i < old_es.len() && key_at(#[trigger] old_es[i], sig, src1.0, src2.0)
                        implies outid == i + 1 by {
                    let c = old(self).codes@[i];
                    if c != code {
                        if c < code {
                            assert(self.ops@[c as int].sig() != self.ops@[code as int].sig());
                        } else {
                            assert(self.ops@[code as int].sig() != self.ops@[c as int].sig());
                        }
                    }
                }
                assert(self.ops@ == old(self).ops@) by {
                    if self.ops@.len() > old(self).ops@.len() {
                        assert(tbl.contains_key(key));
                    }
                }
            }
            None => {
                outid = self.entries.len() as u64 + 1;
                assert(!has_key(old_es, sig, src1.0, src2.0)) by {
                    if has_key(old_es, sig, src1.0, src2.0) {
                        let i = choose|i: int| 0 <= i < old_es.len() && key_at(#[trigger] old_es[i], sig, src1.0, src2.0);
                        let c = old(self).codes@[i];
                        assert(self.ops@[c as int] == old(self).ops@[c as int]);
                        if c != code {
                            if c < code {
                                assert(self.ops@[c as int].sig() != self.ops@[code as int].sig());
                            } else {
                                assert(self.ops@[code as int].sig() != self.ops@[c as int].sig());
                            }
                        }
                        assert(op_table(self.nodes).contains_key(key));
                    }
                }
                let info = OpInfo { op, osh: osh.copy(), src1, src2 };
                self.entries.push(BufEntry::Op(info));
                self.codes.push(code);
                op_table_insert(&mut self.nodes, key, outid);
                let ghost es = self.entries@;
                let ghost tbl = op_table(self.nodes);
                let ghost otbl = op_table(old(self).nodes);
                assert(es.subrange(0, old_es.len() as int) =~= old_es);
                assert(!otbl.contains_key(key));
                assert forall|k: OpKey| #[trigger] tbl.contains_key(k) implies {
                    &&& k.0 < self.ops@.len()
                    &&& 1 <= tbl[k] <= es.len()
                    &&& es[tbl[k] - 1] is Op
                    &&& self.codes@[tbl[k] - 1] == k.0
                    &&& es[tbl[k] - 1]->Op_0.src1.0 == k.1
                    &&& es[tbl[k] - 1]->Op_0.src2.0 == k.2
                } by {
                    if k != key {
                        assert(otbl.contains_key(k));
                        assert(es[tbl[k] - 1] == old_es[tbl[k] - 1]);
                        assert(self.codes@[tbl[k] - 1] == old(self).codes@[tbl[k] - 1]);
                    }
                }
                assert forall|i: int| 0 <= i < es.len() && (#[trigger] es[i]) is Op implies {
                    let info = es[i]->Op_0;
                    let c = self.codes@[i];
                    &&& c < self.ops@.len()
                    &&& self.ops@[c as int].sig() == info.op.sig()
                    &&& tbl.contains_key((c, info.src1.0, info.src2.0))
                    &&& tbl[(c, info.src1.0, info.src2.0)] == i + 1
                } by {
                    if i < old_es.len() {
                        assert(es[i] == old_es[i]);
                        assert(self.codes@[i] == old(self).codes@[i]);
                        let info = es[i]->Op_0;
                        let c = self.codes@[i];
                        assert(self.ops@[c as int] == old(self).ops@[c as int]);
                        assert(otbl.contains_key((c, info.src1.0, info.src2.0)));
                        assert((c, info.src1.0, info.src2.0) != key);
                    }
                }
            }
        }
        edge_set_insert(&mut self.deps, (src1.0, outid));
        edge_set_insert(&mut self.deps, (src2.0, outid));
        BufId(outid)
    }

    /// The buffer that an operation key resolves to, if it was emitted.
    pub fn lookup(&self, key: &MLOp) -> (r: Option<BufId>)
        requires
            self.wf(),
        ensures
            r is Some <==> has_key(self.entries(), key.op.sig(), key.src1.0, key.src2.0),
            r matches Some(b) ==> 1 <= b.0 <= self.entries().len()
                && key_at(self.entries()[b.0 - 1], key.op.sig(), key.src1.0, key.src2.0),
    {
        let ghost sig = key.op.sig();
        let ghost es = self.entries@;
        let mut j: usize = 0;
        while j < self.ops.len()
            invariant
                self.wf(),
                sig == key.op.sig(),
                es == self.entries@,
                j <= self.ops@.len(),
                forall|k: int| 0 <= k < j ==> (#[trigger] self.ops@[k]).sig() != sig,
            decreases self.ops@.len() - j,
        {
            if self.ops[j].same(&key.op) {
                let k: OpKey = (j as u64, key.src1.0, key.src2.0);
                let found = op_table_get(&self.nodes, &k);
                match found {
                    Some(id) => {
                        assert(key_at(es[id - 1], sig, key.src1.0, key.src2.0));
                        return Some(BufId(id));
                    }
                    None => {
                        assert(!has_key(es, sig, key.src1.0, key.src2.0)) by {
                            if has_key(es, sig, key.src1.0, key.src2.0) {
                                let i = choose|i: int| 0 <= i < es.len() && key_at(#[trigger] es[i], sig, key.src1.0, key.src2.0);
                                let c = self.codes@[i];
                                if c != j as u64 {
                                    if c < j as u64 {
                                        assert(self.ops@[c as int].sig() != self.ops@[j as int].sig());
                                    } else {
                                        assert(self.ops@[j as int].sig() != self.ops@[c as int].sig());
                                    }
                                }
                            }
                        }
                        return None;
                    }
                }
            }
            j = j + 1;
        }
        assert(!has_key(es, sig, key.src1.0, key.src2.0)) by {
            if has_key(es, sig, key.src1.0, key.src2.0) {
                let i = choose|i: int| 0 <= i < es.len() && key_at(#[trigger] es[i], sig, key.src1.0, key.src2.0);
                let c = self.codes@[i];
                assert(self.ops@[c as int].sig() == sig);
            }
        }
        None
    }

    /// The entry of buffer `id`, if the builder gave out that id.
    pub fn entry(&self, id: BufId) -> (r: Option<&BufEntry>)
        ensures
            1 <= id.0 <= self.entries().len() ==> r == Some(&self.entries()[id.0 - 1]),
            !(1 <= id.0 <= self.entries().len()) ==> r is None,
    {
        if 1 <= id.0 && id.0 <= self.entries.len() as u64 {
            Some(&self.entries[(id.0 - 1) as usize])
        } else {
            None
        }
    }

    /// Whether buffer `out` is recorded as consuming buffer `src`.
    pub fn depends(&self, src: BufId, out: BufId) -> (r: bool)
        ensures
            r == self.deps().contains((src.0, out.0)),
    {
        edge_set_contains(&self.deps, &(src.0, out.0))
    }
}

/// One call that may have allocated: the builder grew by at most one buffer,
/// and where it grew, `r` is the new buffer.
pub open spec fn steps(b1: MLBuilder, b2: MLBuilder, r: BufId) -> bool {
    &&& b1.entries().len() <= b2.entries().len() <= b1.entries().len() + 1
    &&& b2.entries().subrange(0, b1.entries().len() as int) == b1.entries()
    &&& b2.entries().len() > b1.entries().len() ==> r.0 == b2.entries().len()
}

/// Whether the call from `b1` to `b2` took a fresh id.
pub open spec fn fresh(b1: MLBuilder, b2: MLBuilder) -> bool {
    b2.entries().len() > b1.entries().len()
}

/// An allocation always takes a fresh id.
pub proof fn lemma_allocates_steps(b1: MLBuilder, sh: Seq<usize>, b2: MLBuilder, r: BufId)
    requires
        allocates(b1, sh, b2, r),
    ensures
        steps(b1, b2, r),
        fresh(b1, b2),
{
}

/// An emission takes a fresh id exactly when its key is new.
pub proof fn lemma_emits_steps(
    b1: MLBuilder,
    op: OpSig,
    sh: Seq<usize>,
    s1: BufId,
    s2: BufId,
    b2: MLBuilder,
    r: BufId,
)
    requires
        emits(b1, op, sh, s1, s2, b2, r),
    ensures
        steps(b1, b2, r),
        fresh(b1, b2) == !has_key(b1.entries(), op, s1.0, s2.0),
{
    if has_key(b1.entries(), op, s1.0, s2.0) {
        assert(b2.entries().subrange(0, b1.entries().len() as int) =~= b1.entries());
    }
}

proof fn lemma_steps_grow(bs: Seq<MLBuilder>, rs: Seq<BufId>, i: int, j: int)
    requires
        bs.len() == rs.len() + 1,
        forall|k: int| 0 <= k < rs.len() ==> steps(#[trigger] bs[k], bs[k + 1], rs[k]),
        0 <= i <= j < bs.len(),
    ensures
        bs[i].entries().len() <= bs[j].entries().len(),
    decreases j - i,
{
    if i < j {
        assert(steps(bs[j - 1], bs[j], rs[j - 1]));
        lemma_steps_grow(bs, rs, i, j - 1);
    }
}

/// Id monotonicity: over any run of allocations and emissions, the fresh ids
/// strictly increase in call order, none is 0, and from a new builder the
/// first is 1.
pub proof fn lemma_fresh_ids_increase(bs: Seq<MLBuilder>, rs: Seq<BufId>)
    requires
        bs.len() == rs.len() + 1,
        forall|k: int| 0 <= k < rs.len() ==> steps(#[trigger] bs[k], bs[k + 1], rs[k]),
    ensures
        forall|i: int, j: int|
            0 <= i < j < rs.len() && fresh(bs[i], bs[i + 1]) && fresh(bs[j], bs[j + 1])
                ==> (#[trigger] rs[i]).0 < (#[trigger] rs[j]).0,
        forall|i: int| 0 <= i < rs.len() && fresh(bs[i], bs[i + 1]) ==> (#[trigger] rs[i]).0 >= 1,
        bs[0].entries().len() == 0 ==> forall|i: int|
            0 <= i < rs.len() && fresh(bs[i], bs[i + 1]) && (forall|k: int|
                0 <= k < i ==> !fresh(#[trigger] bs[k], bs[k + 1])) ==> (#[trigger] rs[i]).0 == 1,
{
    assert forall|i: int, j: int|
        0 <= i < j < rs.len() && fresh(bs[i], bs[i + 1]) && fresh(bs[j], bs[j + 1])
            implies (#[trigger] rs[i]).0 < (#[trigger] rs[j]).0 by {
        assert(steps(bs[i], bs[i + 1], rs[i]));
        assert(steps(bs[j], bs[j + 1], rs[j]));
        lemma_steps_grow(bs, rs, i + 1, j);
    }
    assert forall|i: int| 0 <= i < rs.len() && fresh(bs[i], bs[i + 1]) implies (#[trigger] rs[i]).0 >= 1 by {
        assert(steps(bs[i], bs[i + 1], rs[i]));
    }
    if bs[0].entries().len() == 0 {
        assert forall|i: int|
            0 <= i < rs.len() && fresh(bs[i], bs[i + 1]) && (forall|k: int|
                0 <= k < i ==> !fresh(#[trigger] bs[k], bs[k + 1])) implies (#[trigger] rs[i]).0 == 1 by {
            lemma_no_fresh_no_growth(bs, rs, i);
            assert(steps(bs[i], bs[i + 1], rs[i]));
        }
    }
}

proof fn lemma_no_fresh_no_growth(bs: Seq<MLBuilder>, rs: Seq<BufId>, i: int)
    requires
        bs.len() == rs.len() + 1,
        forall|k: int| 0 <= k < rs.len() ==> steps(#[trigger] bs[k], bs[k + 1], rs[k]),
        0 <= i < bs.len(),
        forall|k: int| 0 <= k < i ==> !fresh(#[trigger] bs[k], bs[k + 1]),
    ensures
        bs[i].entries().len() == bs[0].entries().len(),
    decreases i,
{
    if i > 0 {
        assert(steps(bs[i - 1], bs[i], rs[i - 1]));
        assert(!fresh(bs[i - 1], bs[i]));
        lemma_no_fresh_no_growth(bs, rs, i - 1);
    }
}

/// A key has at most one instruction record.
pub proof fn lemma_one_record(b: MLBuilder, op: OpSig, s1: u64, s2: u64, i: int, j: int)
    requires
        b.wf(),
        0 <= i < b.entries().len(),
        0 <= j < b.entries().len(),
        key_at(b.entries()[i], op, s1, s2),
        key_at(b.entries()[j], op, s1, s2),
    ensures
        i == j,
{
    let es = b.entries@;
    let ci = b.codes@[i];
    let cj = b.codes@[j];
    if ci != cj {
        if ci < cj {
            assert(b.ops@[ci as int].sig() != b.ops@[cj as int].sig());
        } else {
            assert(b.ops@[cj as int].sig() != b.ops@[ci as int].sig());
        }
    }
}

/// Hash-consing: emitting a key a second time returns the buffer of the
/// first emission and adds no record, and the key has exactly one record.
pub proof fn lemma_emit_idempotent(
    b0: MLBuilder,
    op: OpSig,
    sh1: Seq<usize>,
    sh2: Seq<usize>,
    s1: BufId,
    s2: BufId,
    b1: MLBuilder,
    r1: BufId,
    b2: MLBuilder,
    r2: BufId,
)
    requires
        b0.wf(),
        emits(b0, op, sh1, s1, s2, b1, r1),
        emits(b1, op, sh2, s1, s2, b2, r2),
    ensures
        r2 == r1,
        b2.entries() == b1.entries(),
        1 <= r1.0 <= b2.entries().len(),
        key_at(b2.entries()[r1.0 - 1], op, s1.0, s2.0),
        forall|i: int|
            0 <= i < b2.entries().len() && key_at(#[trigger] b2.entries()[i], op, s1.0, s2.0)
                ==> i == r1.0 - 1,
{
    if has_key(b0.entries(), op, s1.0, s2.0) {
        let i = choose|i: int| 0 <= i < b0.entries().len() && key_at(#[trigger] b0.entries()[i], op, s1.0, s2.0);
        assert(r1.0 == i + 1);
        assert(key_at(b1.entries()[i], op, s1.0, s2.0));
    } else {
        let n = b0.entries().len() as int;
        assert(key_at(b1.entries()[n], op, s1.0, s2.0));
    }
    assert(has_key(b1.entries(), op, s1.0, s2.0));
    assert forall|i: int|
        0 <= i < b2.entries().len() && key_at(#[trigger] b2.entries()[i], op, s1.0, s2.0)
            implies i == r1.0 - 1 by {
        lemma_one_record(b2, op, s1.0, s2.0, i, r1.0 - 1);
    }
}

/// Hash-consing across other calls: once an emission of a key returned
/// `r0`, any later emission of that key into the same builder, after any
/// calls that only add buffers, returns `r0` and adds no record.
pub proof fn lemma_key_keeps_its_buffer(
    b0: MLBuilder,
    op: OpSig,
    sh0: Seq<usize>,
    sh: Seq<usize>,
    s1: BufId,
    s2: BufId,
    b1: MLBuilder,
    r0: BufId,
    b2: MLBuilder,
    b3: MLBuilder,
    r: BufId,
)
    requires
        emits(b0, op, sh0, s1, s2, b1, r0),
        b1.entries().len() <= b2.entries().len(),
        b2.entries().subrange(0, b1.entries().len() as int) == b1.entries(),
        emits(b2, op, sh, s1, s2, b3, r),
    ensures
        r == r0,
        b3.entries() == b2.entries(),
{
    let k = r0.0 - 1;
    assert(b2.entries()[k] == b2.entries().subrange(0, b1.entries().len() as int)[k]);
    assert(key_at(b2.entries()[k], op, s1.0, s2.0));
    assert(has_key(b2.entries(), op, s1.0, s2.0));
}

/// Dependency completeness: after an emission both sources are recorded as
/// consumed by its result, and no edge recorded before is lost.
pub proof fn lemma_emit_records_dependencies(
    b1: MLBuilder,
    op: OpSig,
    sh: Seq<usize>,
    s1: BufId,
    s2: BufId,
    b2: MLBuilder,
    r: BufId,
)
    requires
        emits(b1, op, sh, s1, s2, b2, r),
    ensures
        b2.deps().contains((s1.0, r.0)),
        b2.deps().contains((s2.0, r.0)),
        b1.deps().subset_of(b2.deps()),
{
}

} // verus!
