use scalargrad::engine::Graph;
use scalargrad::engine::OpKind;
use scalargrad::scalar::Scalar;

#[test]
fn final_grad() {
    let mut g = Graph::new();
    let a = g.leaf(Scalar::from_int(3));
    assert_eq!(g.grad(a), Scalar::zero());
    g.backward(a);
    assert_eq!(g.grad(a), Scalar::one());
}

#[test]
fn add() {
    let mut g = Graph::new();
    let a = g.leaf(Scalar::from_int(3));
    let b = g.leaf(Scalar::from_int(4));
    let c = g.add(a, b);

    g.backward(c);

    assert_eq!(g.data(c), Scalar::from_int(7));
    assert_eq!(g.grad(a), Scalar::one());
    assert_eq!(g.grad(b), Scalar::one());
}

#[test]
fn add_self() {
    let mut g = Graph::new();
    let a = g.leaf(Scalar::from_int(3));
    let b = g.add(a, a);

    g.backward(b);

    assert_eq!(g.data(b), Scalar::from_int(6));
    assert_eq!(g.grad(a), Scalar::from_int(2));
}

#[test]
fn multiply() {
    let mut g = Graph::new();
    let a = g.leaf(Scalar::from_int(3));
    let b = g.leaf(Scalar::from_int(4));
    let c = g.mul(a, b);

    g.backward(c);

    assert_eq!(g.data(c), Scalar::from_int(12));
    assert_eq!(g.grad(a), Scalar::from_int(4));
    assert_eq!(g.grad(b), Scalar::from_int(3));
}

#[test]
fn subtract() {
    let mut g = Graph::new();
    let a = g.leaf(Scalar::from_int(3));
    let b = g.leaf(Scalar::from_int(4));
    let c = g.sub(a, b);

    g.backward(c);

    assert_eq!(g.data(c), Scalar::from_int(-1));
    assert_eq!(g.grad(a), Scalar::one());
    assert_eq!(g.grad(b), Scalar::from_int(-1));
}

#[test]
fn subtract_self() {
    let mut g = Graph::new();
    let a = g.leaf(Scalar::from_int(3));
    let b = g.sub(a, a);

    g.backward(b);

    assert_eq!(g.data(b), Scalar::zero());
    assert_eq!(g.grad(a), Scalar::zero());
}

#[test]
fn relu() {
    // positive input
    {
        let mut g = Graph::new();
        let a = g.leaf(Scalar::from_int(3));
        let b = g.relu(a);

        g.backward(b);

        assert_eq!(g.data(b), Scalar::from_int(3));
        assert_eq!(g.grad(a), Scalar::one());
    }

    // negative input
    {
        let mut g = Graph::new();
        let a = g.leaf(Scalar::from_int(-3));
        let b = g.relu(a);

        g.backward(b);

        assert_eq!(g.data(b), Scalar::zero());
        assert_eq!(g.grad(a), Scalar::zero());
    }
}

#[test]
fn divide() {
    let mut g = Graph::new();
    let a = g.leaf(Scalar::from_int(3));
    let b = g.leaf(Scalar::from_int(4));
    let c = g.div(a, b);

    g.backward(c);

    // d = 3/4; dd/da = 1/4; dd/db = -3/16
    assert!(g.data(c).same_value(&Scalar::from_ratio(3, 4)));
    assert!(g.grad(a).same_value(&Scalar::from_ratio(1, 4)));
    assert!(g.grad(b).same_value(&Scalar::from_ratio(-3, 16)));
}

#[test]
fn divide_by_zero_propagates() {
    let mut g = Graph::new();
    let a = g.leaf(Scalar::from_int(3));
    let z = g.leaf(Scalar::zero());
    let c = g.div(a, z);

    assert!(!g.data(c).is_defined());

    g.backward(c);
    assert!(!g.grad(a).is_defined());
}

#[test]
fn power() {
    let mut g = Graph::new();
    let a = g.leaf(Scalar::from_int(3));
    let e = g.leaf(Scalar::from_int(2));
    let c = g.pow(a, e);

    g.backward(c);

    assert_eq!(g.data(c), Scalar::from_int(9));
    // dc/da = 2 * 3^1 = 6
    assert_eq!(g.grad(a), Scalar::from_int(6));
    // the exponent operand never receives gradient
    assert_eq!(g.grad(e), Scalar::zero());
}

#[test]
fn power_negative_exponent() {
    let mut g = Graph::new();
    let a = g.leaf(Scalar::from_int(2));
    let e = g.leaf(Scalar::from_int(-1));
    let c = g.pow(a, e);

    assert!(g.data(c).same_value(&Scalar::from_ratio(1, 2)));
}

#[test]
fn power_fractional_exponent_undefined() {
    let mut g = Graph::new();
    let a = g.leaf(Scalar::from_int(2));
    let e = g.leaf(Scalar::from_ratio(1, 2));
    let c = g.pow(a, e);

    assert!(!g.data(c).is_defined());
}

#[test]
fn tanh_zero() {
    let mut g = Graph::new();
    let a = g.leaf(Scalar::zero());
    let t = g.tanh(a);

    g.backward(t);

    assert_eq!(g.data(t), Scalar::zero());
    // dt/da = 1 - tanh(0)^2 = 1
    assert_eq!(g.grad(a), Scalar::one());
}

#[test]
fn tanh_nonzero_undefined() {
    let mut g = Graph::new();
    let a = g.leaf(Scalar::from_int(1));
    let t = g.tanh(a);

    assert!(!g.data(t).is_defined());
}

#[test]
fn sum_with_repeats() {
    let mut g = Graph::new();
    let a = g.leaf(Scalar::from_int(5));
    let b = g.leaf(Scalar::from_int(7));
    let s = g.sum(&vec![a, b, a]);

    g.backward(s);

    assert_eq!(g.data(s), Scalar::from_int(17));
    assert_eq!(g.grad(a), Scalar::from_int(2));
    assert_eq!(g.grad(b), Scalar::one());
    assert_eq!(g.op(s), OpKind::Sum);
}

#[test]
fn diamond_shared_subexpression() {
    // d = (a + b) * (a + b): dd/da along both paths accumulates to 2 * (a + b)
    let mut g = Graph::new();
    let a = g.leaf(Scalar::from_int(2));
    let b = g.leaf(Scalar::from_int(3));
    let s = g.add(a, b);
    let d = g.mul(s, s);

    g.backward(d);

    assert_eq!(g.data(d), Scalar::from_int(25));
    assert_eq!(g.grad(s), Scalar::from_int(10));
    assert_eq!(g.grad(a), Scalar::from_int(10));
    assert_eq!(g.grad(b), Scalar::from_int(10));
}

#[test]
fn grads_accumulate_until_reset() {
    let mut g = Graph::new();
    let a = g.leaf(Scalar::from_int(3));
    let b = g.add(a, a);

    g.backward(b);
    assert_eq!(g.grad(a), Scalar::from_int(2));

    // a second pass without resetting compounds the gradient
    g.backward(b);
    assert_eq!(g.grad(a), Scalar::from_int(4));

    g.reset_grad(a);
    assert_eq!(g.grad(a), Scalar::zero());
}

#[test]
fn set_data_updates_parameter() {
    let mut g = Graph::new();
    let a = g.leaf(Scalar::from_int(3));
    g.set_data(a, Scalar::from_ratio(5, 2));
    assert!(g.data(a).same_value(&Scalar::from_ratio(5, 2)));
    assert_eq!(g.op(a), OpKind::Leaf);
}

#[test]
fn backward_leaves_unreachable_nodes_alone() {
    let mut g = Graph::new();
    let a = g.leaf(Scalar::from_int(3));
    let b = g.add(a, a);
    let stray = g.leaf(Scalar::from_int(9));

    g.backward(b);

    assert_eq!(g.data(stray), Scalar::from_int(9));
    assert_eq!(g.grad(stray), Scalar::zero());
    assert_eq!(g.op(stray), OpKind::Leaf);
}

#[test]
fn overflow_becomes_undefined() {
    let mut g = Graph::new();
    let big = g.leaf(Scalar::from_int(i64::MAX));
    let sq = g.mul(big, big);
    assert!(!g.data(sq).is_defined());
}
