//! Drives the verified engine with double-precision scalars: graph payloads
//! are bit encodings of doubles, and the backward schedule the engine returns
//! is interpreted here with ordinary floating-point arithmetic.

use micrograd_rs::backward::GradStep;
use micrograd_rs::graph::{Graph, Operation, Parameter, Parents, SCALAR_NEG_ONE, SCALAR_ONE, SCALAR_ZERO};
use std::cell::RefCell;
use std::rc::Rc;

type Ctx = Rc<RefCell<Graph>>;

fn new_ctx() -> Ctx {
    Rc::new(RefCell::new(Graph::new()))
}

fn from_scalar(ctx: &Ctx, v: f64) -> Scalar {
    let p = ctx.borrow_mut().from_scalar(v.to_bits());
    Scalar { ctx: Rc::clone(ctx), p }
}

#[derive(Clone)]
struct Scalar {
    ctx: Ctx,
    p: Parameter,
}

impl Scalar {
    fn data(&self) -> f64 {
        f64::from_bits(self.ctx.borrow().data(self.p))
    }

    fn grad(&self) -> f64 {
        f64::from_bits(self.ctx.borrow().grad(self.p))
    }

    fn zero_grad(&mut self) {
        self.ctx.borrow_mut().zero_grad(self.p);
    }

    fn relu(self) -> Scalar {
        let negative = self.data() < 0.0;
        let p = self.ctx.borrow_mut().relu(self.p, negative);
        Scalar { ctx: self.ctx.clone(), p }
    }

    fn pow(self, exponent: f64) -> Scalar {
        let d = self.data().powf(exponent);
        let p = self.ctx.borrow_mut().pow(self.p, exponent.to_bits(), d.to_bits());
        Scalar { ctx: self.ctx.clone(), p }
    }

    fn lr_step(&mut self, lr: f64) {
        let stepped = self.data() - lr * self.grad();
        self.ctx.borrow_mut().lr_step(self.p, stepped.to_bits());
    }

    fn backward(&self) -> Vec<GradStep> {
        let tape = self.ctx.borrow_mut().backward(self.p);
        run_tape(&self.ctx, &tape);
        tape
    }
}

/// Interpret a backward schedule: each step accumulates one contribution into
/// the target's gradient, exactly as the step documentation prescribes.
fn run_tape(ctx: &Ctx, tape: &[GradStep]) {
    let mut g = ctx.borrow_mut();
    for step in tape {
        match *step {
            GradStep::AddAcc { target, out } => {
                let c = f64::from_bits(g.grad(out));
                let v = f64::from_bits(g.grad(target)) + c;
                g.set_grad(target, v.to_bits());
            }
            GradStep::MulAcc { target, factor, out } => {
                let c = f64::from_bits(factor) * f64::from_bits(g.grad(out));
                let v = f64::from_bits(g.grad(target)) + c;
                g.set_grad(target, v.to_bits());
            }
            GradStep::PowAcc { target, exponent, out } => {
                let e = f64::from_bits(exponent);
                let x = f64::from_bits(g.data(target));
                let c = e * x.powf(e - 1.0) * f64::from_bits(g.grad(out));
                let v = f64::from_bits(g.grad(target)) + c;
                g.set_grad(target, v.to_bits());
            }
            GradStep::ReluAcc { target, out } => {
                let c = if f64::from_bits(g.data(out)) > 0.0 {
                    f64::from_bits(g.grad(out))
                } else {
                    0.0
                };
                let v = f64::from_bits(g.grad(target)) + c;
                g.set_grad(target, v.to_bits());
            }
        }
    }
}

impl std::ops::Add for Scalar {
    type Output = Scalar;
    fn add(self, other: Scalar) -> Scalar {
        let d = self.data() + other.data();
        let p = self.ctx.borrow_mut().add(self.p, other.p, d.to_bits());
        Scalar { ctx: self.ctx.clone(), p }
    }
}

impl std::ops::Mul for Scalar {
    type Output = Scalar;
    fn mul(self, other: Scalar) -> Scalar {
        let d = self.data() * other.data();
        let p = self.ctx.borrow_mut().mul(self.p, other.p, d.to_bits());
        Scalar { ctx: self.ctx.clone(), p }
    }
}

impl std::ops::Neg for Scalar {
    type Output = Scalar;
    fn neg(self) -> Scalar {
        let d = self.data() * -1.0;
        let p = self.ctx.borrow_mut().neg(self.p, d.to_bits());
        Scalar { ctx: self.ctx.clone(), p }
    }
}

impl std::ops::Sub for Scalar {
    type Output = Scalar;
    fn sub(self, other: Scalar) -> Scalar {
        let neg_d = other.data() * -1.0;
        let d = self.data() + neg_d;
        let p = self.ctx.borrow_mut().sub(self.p, other.p, neg_d.to_bits(), d.to_bits());
        Scalar { ctx: self.ctx.clone(), p }
    }
}

impl std::ops::Div for Scalar {
    type Output = Scalar;
    fn div(self, other: Scalar) -> Scalar {
        let recip = other.data().powf(-1.0);
        let d = self.data() * recip;
        let p = self.ctx.borrow_mut().div(self.p, other.p, recip.to_bits(), d.to_bits());
        Scalar { ctx: self.ctx.clone(), p }
    }
}

fn assert_approx(actual: f64, expected: f64, tol: f64) {
    assert!(
        (actual - expected).abs() < tol,
        "expected {} within {}, got {}",
        expected,
        tol,
        actual
    );
}

#[test]
fn autograd_test_scalar() {
    let ctx = new_ctx();
    let x = from_scalar(&ctx, 4.0);
    assert_eq!(x.data(), 4.0);
}

#[test]
fn autograd_test_add() {
    let ctx = new_ctx();
    let x = from_scalar(&ctx, 4.0);
    let y = from_scalar(&ctx, 2.0);
    let z = x + y;
    assert_eq!(z.data(), 6.0);
}

#[test]
fn autograd_test_mul() {
    let ctx = new_ctx();
    let x = from_scalar(&ctx, 2.0);
    let y = from_scalar(&ctx, 6.0);
    let z = x * y;
    assert_eq!(z.data(), 12.0);
    let x = from_scalar(&ctx, -2.0);
    let y = from_scalar(&ctx, 6.0);
    let z = x * y;
    assert_eq!(z.data(), -12.0);
}

#[test]
fn autograd_test_sanity_check() {
    let ctx = new_ctx();
    let x = from_scalar(&ctx, -4.0);
    let z = from_scalar(&ctx, 2.0) * x.clone() + from_scalar(&ctx, 2.0) + x.clone();
    let q = z.clone().relu() + z.clone() * x.clone();
    let h = (z.clone() * z).relu();
    let y = h + q.clone() + q.clone() * x.clone();
    y.backward();

    // forward pass
    assert_eq!(y.data(), -20.0);
    // backward pass
    assert_eq!(x.grad(), 46.0);
}

#[test]
fn test_more_ops() {
    let ctx = new_ctx();
    let a = from_scalar(&ctx, -4.0);
    let b = from_scalar(&ctx, 2.0);
    let c = a.clone() + b.clone();
    let d = a.clone() * b.clone() + b.clone().pow(3.0);
    let c = c.clone() + (c.clone() + from_scalar(&ctx, 1.0));
    let c = c.clone() + (from_scalar(&ctx, 1.0) + c.clone() + (-a.clone()));
    let d = d.clone() + (d.clone() * from_scalar(&ctx, 2.0) + (b.clone() + a.clone()).relu());
    let d = d.clone() + (from_scalar(&ctx, 3.0) * d + (b.clone() - a.clone()).relu());
    let e = c.clone() - d.clone();
    let f = e.pow(2.0);
    let g = f.clone() / from_scalar(&ctx, 2.0);
    let g = g + (from_scalar(&ctx, 10.0) / f.clone());
    g.backward();
    let (amg, bmg, gmg) = (a, b, g);

    // forward pass
    assert_approx(gmg.data(), 24.7040816327, 1e-6);
    // backward pass
    assert_approx(amg.grad(), 138.8338192420, 1e-6);
    assert_approx(bmg.grad(), 645.5772594752, 1e-6);
}

#[test]
fn lib_test_scalar() {
    let ctx = new_ctx();
    let x = from_scalar(&ctx, 4.0);
    assert_eq!(x.data(), 4.0);
}

#[test]
fn lib_test_add() {
    let ctx = new_ctx();
    let x = from_scalar(&ctx, 4.0);
    let y = from_scalar(&ctx, 2.0);
    let z = x + y;
    assert_eq!(z.data(), 6.0);
}

#[test]
fn lib_test_mul() {
    let ctx = new_ctx();
    let x = from_scalar(&ctx, 2.0);
    let y = from_scalar(&ctx, 6.0);
    let z = x * y;
    assert_eq!(z.data(), 12.0);
}

#[test]
fn lib_test_sanity_check() {
    let ctx = new_ctx();
    let x = from_scalar(&ctx, -4.0);
    let z = from_scalar(&ctx, 2.0) * x.clone() + from_scalar(&ctx, 2.0) + x.clone();
    let q = z.clone().relu() + z.clone() * x.clone();
    let h = (z.clone() * z.clone()).relu();
    let y = h + q.clone() + q.clone() * x.clone();
    y.backward();
    let (xmg, ymg) = (x, y);

    assert_eq!(ymg.data(), -20.0);
    assert_eq!(xmg.data(), -4.0);
}

#[test]
fn forward_values_match_ordinary_arithmetic() {
    let cases: [(f64, f64); 4] = [(4.0, 2.0), (-2.5, 6.25), (0.0, -1.0), (1e-3, 1e3)];
    for (xv, yv) in cases {
        let ctx = new_ctx();
        let a = from_scalar(&ctx, xv);
        let b = from_scalar(&ctx, yv);
        let s = a.clone() + b.clone();
        assert_eq!(s.data(), xv + yv);
        let m = a * b;
        assert_eq!(m.data(), xv * yv);
    }
}

#[test]
fn shared_leaf_accumulates_both_contributions() {
    let ctx = new_ctx();
    let a = from_scalar(&ctx, 3.0);
    let b = a.clone() * a.clone();
    assert_eq!(b.data(), 9.0);
    b.backward();
    // both partial derivatives land on the shared leaf: 2 * 3.0
    assert_eq!(a.grad(), 6.0);
}

#[test]
fn zero_grad_resets_any_accumulation() {
    let ctx = new_ctx();
    let mut a = from_scalar(&ctx, 3.0);
    let b = a.clone() * a.clone();
    b.backward();
    assert_eq!(a.grad(), 6.0);
    a.zero_grad();
    assert_eq!(a.grad(), 0.0);
    a.zero_grad();
    assert_eq!(a.grad(), 0.0);
    let mut fresh = from_scalar(&ctx, 1.5);
    fresh.zero_grad();
    assert_eq!(fresh.grad(), 0.0);
}

#[test]
fn topological_order_lists_parents_first() {
    let ctx = new_ctx();
    let x = from_scalar(&ctx, -4.0);
    let z = from_scalar(&ctx, 2.0) * x.clone() + from_scalar(&ctx, 2.0) + x.clone();
    let q = z.clone().relu() + z.clone() * x.clone();
    let h = (z.clone() * z).relu();
    let y = h + q.clone() + q.clone() * x.clone();

    let g = ctx.borrow();
    let order = g.build_topo(y.p);
    let mut position = vec![usize::MAX; g.node_count()];
    for (pos, p) in order.iter().enumerate() {
        assert_eq!(position[p.id], usize::MAX, "node listed twice");
        position[p.id] = pos;
    }
    for (pos, p) in order.iter().enumerate() {
        let parents: Vec<Parameter> = match g.node(*p).parents {
            Parents::Leaf => vec![],
            Parents::One(a) => vec![a],
            Parents::Two(a, b) => vec![a, b],
        };
        for parent in parents {
            assert!(position[parent.id] < pos, "parent listed after its node");
        }
    }
    // the terminal is reachable from itself, so it is listed (and last:
    // nothing else can follow all of its own ancestors and the terminal)
    assert_eq!(order.last().map(|p| p.id), Some(y.p.id));
}

#[test]
fn rectifier_zero_boundary() {
    let ctx = new_ctx();
    let x = from_scalar(&ctx, 0.0);
    let y = x.clone().relu();
    assert_eq!(y.data(), 0.0);
    y.backward();
    assert_eq!(y.grad(), 1.0);
    assert_eq!(x.grad(), 0.0);
}

#[test]
fn rectifier_passes_positive_and_blocks_negative() {
    let ctx = new_ctx();
    let x = from_scalar(&ctx, 5.0);
    let y = x.clone().relu();
    assert_eq!(y.data(), 5.0);
    y.backward();
    assert_eq!(x.grad(), 1.0);

    let u = from_scalar(&ctx, -4.0);
    let v = u.clone().relu();
    assert_eq!(v.data(), 0.0);
    v.backward();
    assert_eq!(u.grad(), 0.0);
}

#[test]
fn division_round_trip() {
    for v in [2.0f64, 3.0, -7.5, 0.125, 1234.5] {
        let ctx = new_ctx();
        let a = from_scalar(&ctx, v);
        let q = a.clone() / a.clone();
        assert_approx(q.data(), 1.0, 1e-9);
        q.backward();
        // d/dv (v / v) == 0
        assert_approx(a.grad(), 0.0, 1e-9);
    }
}

#[test]
fn backward_is_one_shot() {
    let ctx = new_ctx();
    let a = from_scalar(&ctx, 3.0);
    let b = from_scalar(&ctx, 4.0);
    let s = a.clone() + b.clone();
    let tape = s.backward();
    assert!(!tape.is_empty());
    assert_eq!(a.grad(), 1.0);
    // the rules were drained: a second pass reseeds but schedules nothing
    let tape2 = s.backward();
    assert!(tape2.is_empty());
    assert_eq!(a.grad(), 1.0);
    assert_eq!(s.grad(), 1.0);
}

#[test]
fn backward_on_a_leaf_only_seeds() {
    let ctx = new_ctx();
    let a = from_scalar(&ctx, 7.0);
    let tape = a.backward();
    assert!(tape.is_empty());
    assert_eq!(a.grad(), 1.0);
    assert_eq!(a.data(), 7.0);
}

#[test]
fn multiplication_captures_operands_at_construction() {
    let ctx = new_ctx();
    let mut a = from_scalar(&ctx, 2.0);
    let b = from_scalar(&ctx, 3.0);
    let m = a.clone() * b.clone();
    // move the operand's payload after the product was built
    {
        let mut g = ctx.borrow_mut();
        g.set_grad(a.p, (10.0f64).to_bits());
    }
    a.lr_step(0.1); // data becomes 2.0 - 0.1 * 10.0 == 1.0
    assert_eq!(a.data(), 1.0);
    {
        let mut g = ctx.borrow_mut();
        g.zero_grad(a.p);
    }
    m.backward();
    // b's contribution uses the captured payload of a (2.0), not the stepped one
    assert_eq!(b.grad(), 2.0);
    // a's own contribution uses the captured payload of b
    assert_eq!(a.grad(), 3.0);
}

#[test]
fn composite_operations_allocate_intermediate_nodes() {
    let ctx = new_ctx();
    let a = from_scalar(&ctx, 5.0);
    let b = from_scalar(&ctx, 3.0);
    assert_eq!(ctx.borrow().node_count(), 2);

    let d = a.clone() - b.clone();
    // a subtraction adds three nodes: a constant leaf, a negation, the sum
    assert_eq!(ctx.borrow().node_count(), 5);
    assert_eq!(d.data(), 2.0);
    {
        let g = ctx.borrow();
        assert_eq!(g.node(Parameter { id: 2 }).op, Operation::Init);
        assert_eq!(f64::from_bits(g.data(Parameter { id: 2 })), -1.0);
        assert_eq!(g.node(Parameter { id: 3 }).op, Operation::Neg);
        assert_eq!(g.node(d.p).op, Operation::Sub);
    }

    let q = a.clone() / b.clone();
    // a division adds two nodes: the reciprocal power, the product
    assert_eq!(ctx.borrow().node_count(), 7);
    assert_eq!(ctx.borrow().node(Parameter { id: 5 }).op, Operation::Pow);
    assert_eq!(ctx.borrow().node(q.p).op, Operation::Div);

    let n = -a.clone();
    // a negation adds two nodes: the constant leaf, the product
    assert_eq!(ctx.borrow().node_count(), 9);
    assert_eq!(ctx.borrow().node(n.p).op, Operation::Neg);
    assert_eq!(n.data(), -5.0);

    d.backward();
    assert_eq!(a.grad(), 1.0);
    assert_eq!(b.grad(), -1.0);
}

#[test]
fn subtraction_and_negation_values_and_gradients() {
    let ctx = new_ctx();
    let a = from_scalar(&ctx, 5.0);
    let b = from_scalar(&ctx, 3.0);
    let d = a.clone() - b.clone();
    assert_eq!(d.data(), 2.0);

    let ctx2 = new_ctx();
    let u = from_scalar(&ctx2, 4.0);
    let w = -u.clone();
    assert_eq!(w.data(), -4.0);
    w.backward();
    assert_eq!(u.grad(), -1.0);
}

#[test]
fn pow_value_and_gradient() {
    let ctx = new_ctx();
    let a = from_scalar(&ctx, 2.0);
    let c = a.clone().pow(3.0);
    assert_eq!(c.data(), 8.0);
    c.backward();
    // d/da a^3 == 3 * a^2
    assert_eq!(a.grad(), 12.0);
}

#[test]
fn lr_step_moves_against_the_gradient() {
    let ctx = new_ctx();
    let mut a = from_scalar(&ctx, 5.0);
    let b = a.clone() * a.clone();
    b.backward();
    assert_eq!(a.grad(), 10.0);
    a.lr_step(0.5);
    assert_eq!(a.data(), 0.0);
    assert_eq!(a.grad(), 10.0);
}

#[test]
fn scalar_constants_encode_the_distinguished_values() {
    assert_eq!(f64::from_bits(SCALAR_ZERO), 0.0);
    assert_eq!(f64::from_bits(SCALAR_ONE), 1.0);
    assert_eq!(f64::from_bits(SCALAR_NEG_ONE), -1.0);
    assert_eq!((0.0f64).to_bits(), SCALAR_ZERO);
    assert_eq!((1.0f64).to_bits(), SCALAR_ONE);
    assert_eq!((-1.0f64).to_bits(), SCALAR_NEG_ONE);
}

#[test]
fn handles_compare_by_identity() {
    let ctx = new_ctx();
    let a = from_scalar(&ctx, 1.5);
    let b = from_scalar(&ctx, 1.5);
    // structurally equal payloads, distinct nodes
    assert_ne!(a.p, b.p);
    assert_eq!(a.p, a.clone().p);
}
