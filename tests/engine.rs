use micrograd::engine::{Arena, Numeric, Op};

#[derive(Debug, Clone, Copy, PartialEq)]
struct F(f64);

impl Numeric for F {
    fn zero() -> Self {
        F(0.0)
    }
    fn one() -> Self {
        F(1.0)
    }
    fn neg_one() -> Self {
        F(-1.0)
    }
    fn plus(&self, other: &Self) -> Self {
        F(self.0 + other.0)
    }
    fn times(&self, other: &Self) -> Self {
        F(self.0 * other.0)
    }
    fn power(&self, exponent: &Self) -> Self {
        F(self.0.powf(exponent.0))
    }
    fn is_positive(&self) -> bool {
        self.0 > 0.0
    }
    fn negate(&self) -> Self {
        F(-self.0)
    }
    fn ratio(num: usize, den: usize) -> Self {
        F(num as f64 / den as f64)
    }
}

fn data(a: &Arena<F>, id: usize) -> f64 {
    a.get_value(id).data.0
}

fn grad(a: &Arena<F>, id: usize) -> f64 {
    a.get_value(id).grad.0
}

#[test]
fn scenario_product_squared() {
    let mut g = Arena::new();
    let a = g.scalar(F(2.0));
    let b = g.scalar(F(3.0));
    let m = g.mul(a, b);
    assert_eq!(data(&g, m), 6.0);
    let r = g.pow(m, F(2.0));
    assert_eq!(data(&g, r), 36.0);
    g.zero_grad();
    g.backward(r);
    assert_eq!(grad(&g, a), 36.0);
    assert_eq!(grad(&g, b), 24.0);
    assert_eq!(grad(&g, r), 1.0);
}

#[test]
fn scenario_additive_chain() {
    let mut g = Arena::new();
    let x = g.scalar(F(1.0));
    let y = g.scalar(F(2.0));
    let z = g.scalar(F(3.0));
    let xy = g.add(x, y);
    let s = g.add(xy, z);
    assert_eq!(data(&g, s), 6.0);
    g.backward(s);
    assert_eq!(grad(&g, x), 1.0);
    assert_eq!(grad(&g, y), 1.0);
    assert_eq!(grad(&g, z), 1.0);
}

#[test]
fn scenario_relu_gate_closed() {
    let mut g = Arena::new();
    let x = g.scalar(F(-5.0));
    let h = g.relu(x);
    assert_eq!(data(&g, h), 0.0);
    g.backward(h);
    assert_eq!(grad(&g, x), 0.0);
}

#[test]
fn scenario_relu_gate_open() {
    let mut g = Arena::new();
    let x = g.scalar(F(5.0));
    let h = g.relu(x);
    assert_eq!(data(&g, h), 5.0);
    g.backward(h);
    assert_eq!(grad(&g, x), 1.0);
}

#[test]
fn add_and_mul_forward_values() {
    let pairs = [(2.0, 3.0), (-1.5, 4.25), (0.0, -7.0), (1e10, 1e-10)];
    for &(p, q) in pairs.iter() {
        let mut g = Arena::new();
        let a = g.scalar(F(p));
        let b = g.scalar(F(q));
        let s = g.add(a, b);
        let m = g.mul(a, b);
        assert_eq!(data(&g, s), p + q);
        assert_eq!(data(&g, m), p * q);
    }
}

#[test]
fn relu_derivative_is_one_or_zero() {
    for &(input, expected) in [(3.5, 1.0), (1e-300, 1.0), (0.0, 0.0), (-0.0, 0.0), (-2.0, 0.0)].iter() {
        let mut g = Arena::new();
        let x = g.scalar(F(input));
        let h = g.relu(x);
        g.backward(h);
        assert_eq!(grad(&g, x), expected, "input {}", input);
    }
}

#[test]
fn backward_twice_doubles_gradients() {
    let mut g = Arena::new();
    let a = g.scalar(F(2.0));
    let b = g.scalar(F(3.0));
    let m = g.mul(a, b);
    g.backward(m);
    let once = (grad(&g, a), grad(&g, b));
    assert_eq!(once, (3.0, 2.0));
    g.backward(m);
    assert_eq!(grad(&g, a), 2.0 * once.0);
    assert_eq!(grad(&g, b), 2.0 * once.1);
    g.zero_grad();
    g.backward(m);
    assert_eq!((grad(&g, a), grad(&g, b)), once);
}

#[test]
fn backward_twice_through_a_chain_accumulates_intermediates() {
    let mut g = Arena::new();
    let a = g.scalar(F(2.0));
    let b = g.scalar(F(3.0));
    let m = g.mul(a, b);
    let r = g.pow(m, F(2.0));
    g.backward(r);
    assert_eq!(grad(&g, a), 36.0);
    g.backward(r);
    // the intermediate product holds 24 by now, so `a` receives 72 more
    assert_eq!(grad(&g, m), 24.0);
    assert_eq!(grad(&g, a), 108.0);
}

#[test]
fn reset_to_size_reuses_identifiers() {
    let mut g = Arena::new();
    let a = g.scalar(F(1.0));
    let b = g.scalar(F(2.0));
    let n = g.len();
    assert_eq!(n, 2);
    let s = g.add(a, b);
    g.mul(s, s);
    assert_eq!(g.len(), 4);
    g.reset_to_size(n);
    assert_eq!(g.len(), n);
    let c = g.add(a, b);
    assert_eq!(c, n);
    g.reset_to_size(n);
    let d = g.scalar(F(9.0));
    assert_eq!(d, n);
    assert_eq!(data(&g, a), 1.0);
    assert_eq!(data(&g, b), 2.0);
}

#[test]
fn reset_to_larger_size_keeps_everything() {
    let mut g = Arena::new();
    g.scalar(F(1.0));
    g.reset_to_size(5);
    assert_eq!(g.len(), 1);
}

#[test]
fn sub_and_div_values_and_gradients() {
    let mut g = Arena::new();
    let a = g.scalar(F(7.0));
    let b = g.scalar(F(2.0));
    let d = g.sub(a, b);
    assert_eq!(d, 4);
    assert_eq!(g.len(), 5);
    assert_eq!(data(&g, d), 5.0);
    g.backward(d);
    assert_eq!(grad(&g, a), 1.0);
    assert_eq!(grad(&g, b), -1.0);

    let mut g = Arena::new();
    let a = g.scalar(F(6.0));
    let b = g.scalar(F(4.0));
    let q = g.div(a, b);
    assert_eq!(q, 3);
    assert_eq!(g.len(), 4);
    assert_eq!(data(&g, q), 1.5);
    g.backward(q);
    assert_eq!(grad(&g, a), 0.25);
    assert_eq!(grad(&g, b), -6.0 / 16.0);
}

#[test]
fn shared_operand_sums_contributions() {
    let mut g = Arena::new();
    let x = g.scalar(F(3.0));
    let s = g.add(x, x);
    let p = g.mul(x, x);
    let t = g.add(s, p);
    assert_eq!(data(&g, t), 15.0);
    g.backward(t);
    assert_eq!(grad(&g, x), 2.0 + 6.0);
}

#[test]
fn power_with_fractional_and_negative_exponents() {
    let mut g = Arena::new();
    let x = g.scalar(F(4.0));
    let r = g.pow(x, F(0.5));
    assert_eq!(data(&g, r), 2.0);
    g.backward(r);
    assert_eq!(grad(&g, x), 0.25);

    let mut g = Arena::new();
    let z = g.scalar(F(0.0));
    let inv = g.pow(z, F(-1.0));
    assert!(data(&g, inv).is_infinite());
}

#[test]
fn nodes_after_root_are_not_visited() {
    let mut g = Arena::new();
    let a = g.scalar(F(2.0));
    let b = g.scalar(F(5.0));
    let root = g.mul(a, b);
    let later = g.add(root, a);
    g.backward(root);
    assert_eq!(grad(&g, later), 0.0);
    assert_eq!(grad(&g, a), 5.0);
    assert_eq!(grad(&g, b), 2.0);
}

#[test]
fn zero_grad_clears_every_gradient() {
    let mut g = Arena::new();
    let a = g.scalar(F(2.0));
    let b = g.relu(a);
    g.backward(b);
    assert_eq!(grad(&g, a), 1.0);
    g.zero_grad();
    assert_eq!(grad(&g, a), 0.0);
    assert_eq!(grad(&g, b), 0.0);
}

#[test]
fn nodes_record_operation_and_operands() {
    let mut g = Arena::new();
    let a = g.scalar(F(2.0));
    let b = g.scalar(F(5.0));
    let m = g.mul(a, b);
    let p = g.pow(m, F(3.0));
    let r = g.relu(p);
    assert!(matches!(g.get_value(a).op, Op::Scalar));
    assert!(g.get_value(a).children.is_empty());
    assert!(matches!(g.get_value(m).op, Op::Mul));
    assert_eq!(g.get_value(m).children, vec![a, b]);
    assert!(matches!(g.get_value(p).op, Op::Pow(F(e)) if e == 3.0));
    assert_eq!(g.get_value(r).children, vec![p]);
    assert_eq!(data(&g, r), 1000.0);
}

#[test]
fn set_data_changes_only_the_data() {
    let mut g = Arena::new();
    let w = g.scalar(F(1.0));
    let r = g.relu(w);
    g.backward(r);
    g.set_data(w, F(-2.5));
    assert_eq!(data(&g, w), -2.5);
    assert_eq!(grad(&g, w), 1.0);
    assert_eq!(data(&g, r), 1.0);
}

#[test]
fn optimizer_writes_data_in_place() {
    let mut g = Arena::new();
    let w = g.scalar(F(1.0));
    g.get_value_mut(w).data = F(0.5);
    assert_eq!(data(&g, w), 0.5);
}
