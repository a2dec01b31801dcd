use lazygraph::ml::{BufEntry, BufId, MLBuilder, MLOp, OpType, PadKind};
use lazygraph::shape::Shape;

fn sh(d: &[usize]) -> Shape {
    Shape::new(d.to_vec())
}

#[test]
fn test_emit() {
    let mut bld = MLBuilder::new();
    let b1 = bld.buffer(sh(&[1, 1]));
    let b2 = bld.buffer(sh(&[1, 1]));

    let b3 = bld.emit(OpType::Add, &Shape::scalar(), b1, b2);
    assert_eq!(b3, BufId(3));

    let b4 = bld.emit(OpType::Mul, &Shape::scalar(), b1, b2);
    assert_eq!(b4, BufId(4));

    let b5 = bld.emit(OpType::Add, &Shape::scalar(), b1, b2);
    assert_eq!(b5, BufId(3));

    let b6 = bld.emit(OpType::Add, &Shape::scalar(), b3, b4);
    assert_eq!(b6, BufId(5));

    println!("{:#?}", bld);
}

fn count_ops(bld: &MLBuilder) -> usize {
    let mut n = 0;
    for i in 1..=bld.len() {
        if let Some(BufEntry::Op(_)) = bld.entry(BufId(i)) {
            n += 1;
        }
    }
    n
}

#[test]
fn same_key_many_times_one_record() {
    let mut bld = MLBuilder::new();
    let b1 = bld.buffer(sh(&[2]));
    let b2 = bld.buffer(sh(&[2]));
    let first = bld.emit(OpType::Add, &sh(&[2]), b1, b2);
    for _ in 0..5 {
        assert_eq!(bld.emit(OpType::Add, &sh(&[2]), b1, b2), first);
    }
    assert_eq!(bld.len(), 3);
    assert_eq!(count_ops(&bld), 1);
    let other = bld.emit(OpType::Mul, &sh(&[2]), b1, b2);
    assert_ne!(other, first);
    assert_eq!(count_ops(&bld), 2);
}

#[test]
fn source_order_is_part_of_the_key() {
    let mut bld = MLBuilder::new();
    let b1 = bld.buffer(sh(&[1]));
    let b2 = bld.buffer(sh(&[1]));
    let a = bld.emit(OpType::Add, &sh(&[1]), b1, b2);
    let b = bld.emit(OpType::Add, &sh(&[1]), b2, b1);
    assert_ne!(a, b);
}

#[test]
fn buffers_are_never_deduplicated() {
    let mut bld = MLBuilder::new();
    let b1 = bld.buffer(sh(&[3, 3]));
    let b2 = bld.buffer(sh(&[3, 3]));
    assert_eq!(b1, BufId(1));
    assert_eq!(b2, BufId(2));
    match bld.entry(b2) {
        Some(BufEntry::Leaf(s)) => assert_eq!(s.dims(), &vec![3, 3]),
        _ => panic!("buffer 2 is not a leaf"),
    }
    assert!(bld.entry(BufId(0)).is_none());
    assert!(bld.entry(BufId(3)).is_none());
}

#[test]
fn ids_increase_from_one() {
    let mut bld = MLBuilder::new();
    let a = bld.buffer(sh(&[1]));
    let n = bld.emit(OpType::Neg, &sh(&[1]), a, BufId(0));
    let n_again = bld.emit(OpType::Neg, &sh(&[1]), a, BufId(0));
    let b = bld.buffer(sh(&[1]));
    let e = bld.emit(OpType::Exp, &sh(&[1]), b, BufId(0));
    assert_eq!(a, BufId(1));
    assert_eq!(n, BufId(2));
    assert_eq!(n_again, BufId(2));
    assert_eq!(b, BufId(3));
    assert_eq!(e, BufId(4));
}

#[test]
fn dependencies_recorded_for_both_sources() {
    let mut bld = MLBuilder::new();
    let b1 = bld.buffer(sh(&[1]));
    let b2 = bld.buffer(sh(&[1]));
    let out = bld.emit(OpType::Mul, &sh(&[1]), b1, b2);
    assert!(bld.depends(b1, out));
    assert!(bld.depends(b2, out));
    assert!(!bld.depends(out, b1));
    let sq = bld.emit(OpType::Mul, &sh(&[1]), b1, b1);
    assert!(bld.depends(b1, sq));
    let neg = bld.emit(OpType::Neg, &sh(&[1]), out, BufId(0));
    assert!(bld.depends(out, neg));
    assert!(bld.depends(BufId(0), neg));
}

#[test]
fn parametrised_ops_compare_by_fields() {
    let mut bld = MLBuilder::new();
    let b = bld.buffer(sh(&[2, 3]));
    let perm_a = bld.emit(OpType::Permute { axes: vec![1, 0] }, &sh(&[3, 2]), b, BufId(0));
    let perm_b = bld.emit(OpType::Permute { axes: vec![1, 0] }, &sh(&[3, 2]), b, BufId(0));
    let perm_c = bld.emit(OpType::Permute { axes: vec![0, 1] }, &sh(&[2, 3]), b, BufId(0));
    assert_eq!(perm_a, perm_b);
    assert_ne!(perm_a, perm_c);
    let d1 = bld.emit(OpType::Pad { axis: 0, amt: 1, kind: PadKind::Zero }, &sh(&[3, 3]), b, BufId(0));
    let d2 = bld.emit(OpType::Pad { axis: 0, amt: 1, kind: PadKind::Edge }, &sh(&[3, 3]), b, BufId(0));
    assert_ne!(d1, d2);
    let key = MLOp { op: OpType::Permute { axes: vec![1, 0] }, src1: b, src2: BufId(0) };
    assert_eq!(bld.lookup(&key), Some(perm_a));
    let missing = MLOp { op: OpType::Flip { axis: 0 }, src1: b, src2: BufId(0) };
    assert_eq!(bld.lookup(&missing), None);
}

#[test]
fn duplicate_key_keeps_first_shape() {
    let mut bld = MLBuilder::new();
    let b = bld.buffer(sh(&[4]));
    let s1 = bld.emit(OpType::Log, &sh(&[4]), b, BufId(0));
    let s2 = bld.emit(OpType::Log, &sh(&[9]), b, BufId(0));
    assert_eq!(s1, s2);
    match bld.entry(s1) {
        Some(BufEntry::Op(info)) => assert_eq!(info.osh.dims(), &vec![4]),
        _ => panic!("not an operation"),
    }
}

#[test]
fn zeros_tensor_has_the_shape() {
    let s = sh(&[2, 5]);
    let t = lazygraph::shape::Ten::zeros(&s);
    assert!(t.get_shape().same(&s));
    assert!(!t.get_shape().same(&sh(&[5, 2])));
}
