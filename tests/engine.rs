use lazygraph::eval::EvalCtx;
use lazygraph::expr::{param, zero, BinOp, Expr, ExprData, ExprGraph, Param, UnOp, Visitor};
use lazygraph::grad::push_grads;
use lazygraph::ml::{BufEntry, BufId, MLBuilder, OpType};
use lazygraph::module::{Affine, Module, ModuleInput};
use lazygraph::shape::Shape;

fn sh(d: &[usize]) -> Shape {
    Shape::new(d.to_vec())
}

fn leaves_and_ops(bld: &MLBuilder) -> (usize, Vec<OpType>) {
    let mut leaves = 0;
    let mut ops = Vec::new();
    for i in 1..=bld.len() {
        match bld.entry(BufId(i)) {
            Some(BufEntry::Leaf(_)) => leaves += 1,
            Some(BufEntry::Op(info)) => ops.push(info.op.copy()),
            None => panic!("missing entry"),
        }
    }
    (leaves, ops)
}

fn bin(g: &ExprGraph, e: Expr) -> (BinOp, Expr, Expr) {
    match g.node(e) {
        ExprData::Bin(b) => (b.op, b.l, b.r),
        _ => panic!("not a binary node"),
    }
}

fn un(g: &ExprGraph, e: Expr) -> (UnOp, Expr) {
    match g.node(e) {
        ExprData::Un(u) => (u.op, u.x),
        _ => panic!("not a unary node"),
    }
}

#[test]
fn test_expr_bldr() {
    let mut g = ExprGraph::new();
    let module = Affine::new(&mut g, &sh(&[1]));
    let input = param(&mut g, sh(&[0]));
    let out = module.forward(&mut g, input);
    let mut e = EvalCtx::new(false);
    let b = out.eval(&g, &mut e);
    assert!(b.0 >= 1);
    println!("{e:#?}");
}

#[test]
fn shared_leaf_is_evaluated_once() {
    let mut g = ExprGraph::new();
    let x = param(&mut g, sh(&[1]));
    let sq = x.mul(&mut g, x);
    let mut ctx = EvalCtx::new(false);
    let out = sq.eval(&g, &mut ctx);
    let (leaves, ops) = leaves_and_ops(ctx.emitter());
    assert_eq!(leaves, 1);
    assert_eq!(ops.len(), 1);
    assert!(ops[0].same(&OpType::Mul));
    assert_eq!(out, BufId(2));
    assert_eq!(ctx.id_of(x), 2);
    assert_eq!(ctx.id_of(sq), 1);
    assert!(ctx.active_ids().is_empty());
}

#[test]
fn affine_apply_builds_product_then_sum() {
    let mut g = ExprGraph::new();
    let m = Affine::new(&mut g, &sh(&[2]));
    let x = param(&mut g, sh(&[2]));
    let f = m.apply(&mut g, x);
    assert_eq!(f.0, g.len() - 1);
    let (op, p, r) = bin(&g, f);
    assert_eq!((op, r), (BinOp::Add, m.bias));
    assert_eq!(p.0, f.0 - 1);
    assert_eq!(bin(&g, p), (BinOp::Mul, x, m.weight));
}

#[test]
fn affine_model_end_to_end() {
    let mut g = ExprGraph::new();
    let w = param(&mut g, sh(&[1]));
    let b = param(&mut g, sh(&[1]));
    assert_ne!(w, b);
    let x = param(&mut g, sh(&[1]));
    let xw = x.mul(&mut g, w);
    let f = xw.add(&mut g, b);
    let mut ctx = EvalCtx::new(false);
    let r1 = f.eval(&g, &mut ctx);
    let (leaves, ops) = leaves_and_ops(ctx.emitter());
    assert_eq!(leaves, 3);
    assert_eq!(ops.len(), 2);
    assert_eq!(ops.iter().filter(|o| o.same(&OpType::Mul)).count(), 1);
    assert_eq!(ops.iter().filter(|o| o.same(&OpType::Add)).count(), 1);
    let n = ctx.emitter().len();
    let r2 = f.eval(&g, &mut ctx);
    assert_eq!(r1, r2);
    assert_eq!(ctx.emitter().len(), n);
    assert_eq!(leaves_and_ops(ctx.emitter()).0, 3);
}

fn record(bld: &MLBuilder, id: u64) -> (OpType, Vec<usize>, BufId, BufId) {
    match bld.entry(BufId(id)) {
        Some(BufEntry::Op(info)) => (info.op.copy(), info.osh.dims().clone(), info.src1, info.src2),
        _ => panic!("buffer {} is not a record", id),
    }
}

#[test]
fn end_to_end_ids_follow_call_order() {
    let mut g = ExprGraph::new();
    let w = param(&mut g, sh(&[1]));
    let b = param(&mut g, sh(&[1]));
    let x = param(&mut g, sh(&[0]));
    let xw = x.mul(&mut g, w);
    let f = xw.add(&mut g, b);
    let mut ctx = EvalCtx::new(false);
    let r = f.eval(&g, &mut ctx);
    assert_eq!(r, BufId(5));
    let bld = ctx.emitter();
    assert_eq!(bld.len(), 5);
    let (op, osh, s1, s2) = record(bld, 3);
    assert!(op.same(&OpType::Mul));
    assert_eq!(osh, vec![0]);
    assert_eq!((s1, s2), (BufId(1), BufId(2)));
    let (op, osh, s1, s2) = record(bld, 5);
    assert!(op.same(&OpType::Add));
    assert_eq!(osh, vec![0]);
    assert_eq!((s1, s2), (BufId(3), BufId(4)));
    assert_eq!(ctx.id_of(f), 1);
    assert_eq!(ctx.id_of(xw), 2);
    assert_eq!(ctx.id_of(x), 3);
}

#[test]
fn duplicate_sum_shares_one_record() {
    let mut g = ExprGraph::new();
    let x = param(&mut g, sh(&[1]));
    let y = param(&mut g, sh(&[1]));
    let f = x.add(&mut g, y);
    let h = x.add(&mut g, y);
    let mut ctx = EvalCtx::new(false);
    let rf = f.eval(&g, &mut ctx);
    let rh = h.eval(&g, &mut ctx);
    assert_eq!(rf, rh);
    let (leaves, ops) = leaves_and_ops(ctx.emitter());
    assert_eq!((leaves, ops.len()), (2, 1));
}

#[test]
fn unary_record_has_operand_shape() {
    let mut g = ExprGraph::new();
    let x = param(&mut g, sh(&[2, 3]));
    let n = x.neg(&mut g);
    let mut ctx = EvalCtx::new(false);
    let r = n.eval(&g, &mut ctx);
    let (op, osh, s1, s2) = record(ctx.emitter(), r.0);
    assert!(op.same(&OpType::Neg));
    assert_eq!(osh, vec![2, 3]);
    assert_eq!((s1, s2), (BufId(1), BufId(0)));
}

#[test]
fn input_leaf_of_module() {
    let mut g = ExprGraph::new();
    let x = <Expr as ModuleInput>::zero(&mut g, &sh(&[4]));
    assert_eq!(x.0, 0);
    match g.node(x) {
        ExprData::Param(p) => assert_eq!(p.shape.dims(), &vec![4]),
        _ => panic!("not a parameter"),
    }
}

#[test]
fn affine_module_matches_hand_built() {
    let mut g = ExprGraph::new();
    let m = Affine::new(&mut g, &sh(&[1]));
    let x = <Expr as ModuleInput>::zero(&mut g, &sh(&[1]));
    let f = m.forward(&mut g, x);
    let (op, l, r) = bin(&g, f);
    assert_eq!(op, BinOp::Add);
    assert_eq!(r, m.bias);
    assert_eq!(bin(&g, l), (BinOp::Mul, x, m.weight));
}

#[test]
fn structurally_equal_nodes_share_a_buffer() {
    let mut g = ExprGraph::new();
    let a = param(&mut g, sh(&[2]));
    let b = param(&mut g, sh(&[2]));
    let s1 = a.add(&mut g, b);
    let s2 = a.add(&mut g, b);
    let both = s1.mul(&mut g, s2);
    let mut ctx = EvalCtx::new(false);
    both.eval(&g, &mut ctx);
    let (leaves, ops) = leaves_and_ops(ctx.emitter());
    assert_eq!(leaves, 2);
    assert_eq!(ops.len(), 2);
}

#[test]
fn new_context_evaluates_again() {
    let mut g = ExprGraph::new();
    let x = param(&mut g, sh(&[1]));
    let n = x.neg(&mut g);
    let mut c1 = EvalCtx::new(false);
    n.eval(&g, &mut c1);
    let mut c2 = EvalCtx::new(true);
    n.eval(&g, &mut c2);
    assert_eq!(c2.emitter().len(), 2);
    assert!(c2.grad());
    assert!(!c1.grad());
}

#[test]
fn unary_ops_emit_their_kind() {
    let mut g = ExprGraph::new();
    let x = param(&mut g, sh(&[3]));
    let e = x.exp(&mut g);
    let l = e.log(&mut g);
    let r = l.rec(&mut g);
    let t = r.gtz(&mut g);
    let mut ctx = EvalCtx::new(false);
    t.eval(&g, &mut ctx);
    let (leaves, ops) = leaves_and_ops(ctx.emitter());
    assert_eq!(leaves, 1);
    let kinds = [OpType::Exp, OpType::Log, OpType::Rec, OpType::Gtz];
    assert_eq!(ops.len(), 4);
    for (o, k) in ops.iter().zip(kinds.iter()) {
        assert!(o.same(k));
    }
}

#[test]
fn sub_and_div_desugar() {
    let mut g = ExprGraph::new();
    let a = param(&mut g, sh(&[1]));
    let b = param(&mut g, sh(&[1]));
    let d = a.sub(&mut g, b);
    let (op, l, r) = bin(&g, d);
    assert_eq!((op, l), (BinOp::Add, a));
    assert_eq!(un(&g, r), (UnOp::Neg, b));
    let q = a.div(&mut g, b);
    let (op, l, r) = bin(&g, q);
    assert_eq!((op, l), (BinOp::Mul, a));
    assert_eq!(un(&g, r), (UnOp::Rec, b));
}

#[test]
fn binary_shape_is_left_shape() {
    let mut g = ExprGraph::new();
    let a = param(&mut g, sh(&[2, 2]));
    let b = param(&mut g, sh(&[1]));
    let s = a.add(&mut g, b);
    assert_eq!(g.shape(s).dims(), &vec![2, 2]);
    let n = b.neg(&mut g);
    assert_eq!(g.shape(n).dims(), &vec![1]);
}

#[test]
fn gradient_of_add_is_passed_through() {
    let mut g = ExprGraph::new();
    let a = param(&mut g, sh(&[1]));
    let b = param(&mut g, sh(&[1]));
    let y = a.add(&mut g, b);
    let seed = param(&mut g, sh(&[1]));
    let before = g.len();
    let out = push_grads(&mut g, y, seed);
    assert_eq!(out, vec![(a, seed), (b, seed)]);
    assert_eq!(g.len(), before);
}

#[test]
fn gradient_of_mul_swaps_operands() {
    let mut g = ExprGraph::new();
    let a = param(&mut g, sh(&[1]));
    let b = param(&mut g, sh(&[1]));
    let y = a.mul(&mut g, b);
    let seed = param(&mut g, sh(&[1]));
    let out = push_grads(&mut g, y, seed);
    assert_eq!(out.len(), 2);
    assert_eq!(out[0].0, a);
    assert_eq!(bin(&g, out[0].1), (BinOp::Mul, seed, b));
    assert_eq!(out[1].0, b);
    assert_eq!(bin(&g, out[1].1), (BinOp::Mul, seed, a));
}

#[test]
fn gradient_rules_of_unary_ops() {
    let mut g = ExprGraph::new();
    let x = param(&mut g, sh(&[4]));
    let seed = param(&mut g, sh(&[4]));

    let n = x.neg(&mut g);
    let out = push_grads(&mut g, n, seed);
    assert_eq!(out[0].0, x);
    assert_eq!(un(&g, out[0].1), (UnOp::Neg, seed));

    let r = x.rec(&mut g);
    let out = push_grads(&mut g, r, seed);
    let (op, b, rr) = bin(&g, out[0].1);
    assert_eq!((op, rr), (BinOp::Mul, r));
    let (op, m, rr) = bin(&g, b);
    assert_eq!((op, rr), (BinOp::Mul, r));
    assert_eq!(un(&g, m), (UnOp::Neg, seed));

    let e = x.exp(&mut g);
    let out = push_grads(&mut g, e, seed);
    assert_eq!(bin(&g, out[0].1), (BinOp::Mul, seed, e));

    let l = x.log(&mut g);
    let out = push_grads(&mut g, l, seed);
    let (op, gg, q) = bin(&g, out[0].1);
    assert_eq!((op, gg), (BinOp::Mul, seed));
    assert_eq!(un(&g, q), (UnOp::Rec, x));

    let t = x.gtz(&mut g);
    let out = push_grads(&mut g, t, seed);
    match g.node(out[0].1) {
        ExprData::Zero(p) => assert_eq!(p.shape.dims(), &vec![4]),
        _ => panic!("not a zero leaf"),
    }

    let out = push_grads(&mut g, x, seed);
    assert!(out.is_empty());
}

#[test]
fn backward_sums_fan_in() {
    let mut g = ExprGraph::new();
    let a = param(&mut g, sh(&[1]));
    let y = a.add(&mut g, a);
    let seed = param(&mut g, sh(&[1]));
    let grads = y.backward(&mut g, seed);
    assert_eq!(grads.len(), y.0 + 1);
    assert_eq!(grads[y.0], Some(seed));
    let ga = grads[a.0].expect("a gets a gradient");
    assert_eq!(bin(&g, ga), (BinOp::Add, seed, seed));
}

#[test]
fn backward_through_product() {
    let mut g = ExprGraph::new();
    let a = param(&mut g, sh(&[1]));
    let b = param(&mut g, sh(&[1]));
    let unused = param(&mut g, sh(&[1]));
    let y = a.mul(&mut g, b);
    let seed = zero(&mut g, sh(&[1]));
    let grads = y.backward(&mut g, seed);
    assert_eq!(bin(&g, grads[a.0].unwrap()), (BinOp::Mul, seed, b));
    assert_eq!(bin(&g, grads[b.0].unwrap()), (BinOp::Mul, seed, a));
    assert_eq!(grads[unused.0], None);
}

#[test]
fn backward_square_adds_both_slots() {
    let mut g = ExprGraph::new();
    let x = param(&mut g, sh(&[1]));
    let y = x.mul(&mut g, x);
    let seed = param(&mut g, sh(&[1]));
    let grads = y.backward(&mut g, seed);
    let gx = grads[x.0].unwrap();
    let (op, l, r) = bin(&g, gx);
    assert_eq!(op, BinOp::Add);
    assert_eq!(bin(&g, l), (BinOp::Mul, seed, x));
    assert_eq!(bin(&g, r), (BinOp::Mul, seed, x));
}

#[test]
fn backward_adds_parents_from_the_root_down() {
    let mut g = ExprGraph::new();
    let a = param(&mut g, sh(&[1]));
    let b = param(&mut g, sh(&[1]));
    let y = a.mul(&mut g, b);
    let z = y.add(&mut g, a);
    let seed = param(&mut g, sh(&[1]));
    let grads = z.backward(&mut g, seed);
    assert_eq!(grads[y.0], Some(seed));
    let (op, first, second) = bin(&g, grads[a.0].unwrap());
    assert_eq!(op, BinOp::Add);
    assert_eq!(first, seed);
    assert_eq!(bin(&g, second), (BinOp::Mul, seed, b));
    assert_eq!(bin(&g, grads[b.0].unwrap()), (BinOp::Mul, seed, a));
}

struct Count(usize);

impl Visitor for Count {
    fn visit_param(&mut self, _p: &Param) {
        self.0 += 1;
    }
}

#[test]
fn visitor_sees_each_path_to_a_param() {
    let mut g = ExprGraph::new();
    let x = param(&mut g, sh(&[1]));
    let z = zero(&mut g, sh(&[1]));
    let sq = x.mul(&mut g, x);
    let s = sq.add(&mut g, z);
    let mut c = Count(0);
    s.accept(&g, &mut c);
    assert_eq!(c.0, 2);
}

#[test]
fn random_compositions_terminate() {
    let mut seed: u64 = 0x2545_f491_4f6c_dd1d;
    let mut next = move || {
        seed ^= seed << 13;
        seed ^= seed >> 7;
        seed ^= seed << 17;
        seed
    };
    for _ in 0..20 {
        let mut g = ExprGraph::new();
        let mut nodes = vec![param(&mut g, sh(&[1])), param(&mut g, sh(&[1]))];
        for _ in 0..60 {
            let i = nodes[(next() as usize) % nodes.len()];
            let j = nodes[(next() as usize) % nodes.len()];
            let e = match next() % 9 {
                0 => i.add(&mut g, j),
                1 => i.mul(&mut g, j),
                2 => i.sub(&mut g, j),
                3 => i.div(&mut g, j),
                4 => i.neg(&mut g),
                5 => i.rec(&mut g),
                6 => i.exp(&mut g),
                7 => i.log(&mut g),
                _ => i.gtz(&mut g),
            };
            nodes.push(e);
        }
        for k in 0..g.len() {
            match g.node(Expr(k)) {
                ExprData::Bin(b) => assert!(b.l.0 < k && b.r.0 < k),
                ExprData::Un(u) => assert!(u.x.0 < k),
                _ => {}
            }
        }
        let root = *nodes.last().unwrap();
        let mut ctx = EvalCtx::new(false);
        root.eval(&g, &mut ctx);
        assert!(ctx.emitter().len() as usize <= g.len());
        let seed_grad = param(&mut g, sh(&[1]));
        let grads = root.backward(&mut g, seed_grad);
        assert_eq!(grads[root.0], Some(seed_grad));
    }
}
