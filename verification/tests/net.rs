use scalargrad::engine::Graph;
use scalargrad::engine::OpKind;
use scalargrad::net::Layer;
use scalargrad::net::MLP;
use scalargrad::net::Neuron;
use scalargrad::net::ParamSource;
use scalargrad::scalar::Scalar;

#[test]
fn mlp_end_to_end() {
    let mut g = Graph::new();
    let mut src = ParamSource::new(42);
    let m = MLP::new(&mut g, &mut src, 3, &vec![4, 4, 1]);

    // freshly built parameters carry a zero gradient accumulator
    for p in m.parameters() {
        assert_eq!(g.grad(p), Scalar::zero());
    }

    let inputs = vec![
        g.leaf(Scalar::from_int(1)),
        g.leaf(Scalar::from_int(2)),
        g.leaf(Scalar::from_int(3)),
    ];

    let outs = m.forward(&mut g, &inputs);
    assert_eq!(outs.len(), 1);

    let params = m.parameters();
    assert_eq!(params.len(), (3 + 1) * 4 + (4 + 1) * 4 + (4 + 1) * 1);

    g.backward(outs[0]);

    m.zero_grad(&mut g);
    for p in params.iter() {
        assert_eq!(g.grad(*p), Scalar::zero());
    }
}

#[test]
fn neuron_forward_is_weighted_sum_plus_bias() {
    let mut g = Graph::new();
    let mut src = ParamSource::new(7);
    let n = Neuron::new(&mut g, &mut src, 2);

    let params = n.parameters();
    assert_eq!(params.len(), 3);
    let w0 = g.data(params[0]);
    let w1 = g.data(params[1]);
    let b = g.data(params[2]);

    let x0 = g.leaf(Scalar::from_int(2));
    let x1 = g.leaf(Scalar::from_int(-1));
    let out = n.forward(&mut g, &vec![x0, x1]);

    let expected = w0
        .mul(Scalar::from_int(2))
        .add(w1.mul(Scalar::from_int(-1)))
        .add(b);
    assert!(g.data(out).same_value(&expected));
}

#[test]
fn layer_broadcasts_inputs() {
    let mut g = Graph::new();
    let mut src = ParamSource::new(3);
    let l = Layer::new(&mut g, &mut src, 2, 3);

    let x0 = g.leaf(Scalar::from_int(1));
    let x1 = g.leaf(Scalar::from_int(1));
    let outs = l.forward(&mut g, &vec![x0, x1]);

    assert_eq!(outs.len(), 3);
    let params = l.parameters();
    assert_eq!(params.len(), 3 * (2 + 1));
}

#[test]
fn parameter_values_are_unit_bounded() {
    let mut src = ParamSource::new(11);
    for _ in 0..50 {
        let w = src.next_weight();
        assert!(w.is_defined());
        // |w| <= 1: compare against the unit interval exactly
        let plus = w.add(Scalar::one());
        let minus = Scalar::one().sub(w);
        assert!(plus.is_defined() && minus.is_defined());
        assert!(plus.num >= 0);
        assert!(minus.num >= 0);
    }
}

#[test]
fn same_seed_same_network() {
    let mut g1 = Graph::new();
    let mut s1 = ParamSource::new(123);
    let m1 = MLP::new(&mut g1, &mut s1, 2, &vec![2, 1]);

    let mut g2 = Graph::new();
    let mut s2 = ParamSource::new(123);
    let m2 = MLP::new(&mut g2, &mut s2, 2, &vec![2, 1]);

    let p1 = m1.parameters();
    let p2 = m2.parameters();
    assert_eq!(p1.len(), p2.len());
    for (a, b) in p1.iter().zip(p2.iter()) {
        assert_eq!(g1.data(*a), g2.data(*b));
    }
}

#[test]
fn training_step_reduces_loss() {
    // one gradient-descent step on a single neuron's squared error must not
    // raise the loss: the loss is an exact convex quadratic in the
    // parameters and the step is small against the input's norm
    let mut g = Graph::new();
    let mut src = ParamSource::new(5);
    let n = Neuron::new(&mut g, &mut src, 2);

    let xs = vec![g.leaf(Scalar::from_int(2)), g.leaf(Scalar::from_int(3))];
    let y = g.leaf(Scalar::from_int(1));
    let two = g.leaf(Scalar::from_int(2));

    let loss1 = {
        let pred = n.forward(&mut g, &xs);
        let diff = g.sub(pred, y);
        g.pow(diff, two)
    };
    let before = g.data(loss1);

    g.backward(loss1);

    // parameter update: p -= grad / 50
    let step = Scalar::from_ratio(1, 50);
    for p in n.parameters() {
        let nd = g.data(p).sub(g.grad(p).mul(step));
        g.set_data(p, nd);
        g.reset_grad(p);
    }

    let loss2 = {
        let pred = n.forward(&mut g, &xs);
        let diff = g.sub(pred, y);
        g.pow(diff, two)
    };
    let after = g.data(loss2);

    assert!(before.is_defined() && after.is_defined());
    // after <= before, exactly: before - after >= 0
    let drop = before.sub(after);
    assert!(drop.is_defined());
    assert!(drop.num >= 0);
}

#[test]
fn neuron_forward_builds_products_sum_and_bias() {
    let mut g = Graph::new();
    let mut src = ParamSource::new(21);
    let n = Neuron::new(&mut g, &mut src, 2);
    let params = n.parameters();

    let x0 = g.leaf(Scalar::from_int(4));
    let x1 = g.leaf(Scalar::from_int(5));
    let out = n.forward(&mut g, &vec![x0, x1]);

    // the output adds the n-ary sum and the bias
    assert_eq!(g.op(out), OpKind::Add);
    let out_deps = g.deps(out);
    assert_eq!(out_deps.len(), 2);
    assert_eq!(out_deps[1], params[2]);

    // the sum ranges over the product nodes, in order
    let sum = out_deps[0];
    assert_eq!(g.op(sum), OpKind::Sum);
    let prods = g.deps(sum);
    assert_eq!(prods.len(), 2);

    // product k multiplies weight k by input k
    assert_eq!(g.op(prods[0]), OpKind::Mul);
    assert_eq!(g.deps(prods[0]), vec![params[0], x0]);
    assert_eq!(g.op(prods[1]), OpKind::Mul);
    assert_eq!(g.deps(prods[1]), vec![params[1], x1]);
}

#[test]
fn neuron_backward_reaches_parameters() {
    let mut g = Graph::new();
    let mut src = ParamSource::new(33);
    let n = Neuron::new(&mut g, &mut src, 2);
    let params = n.parameters();

    let x0 = g.leaf(Scalar::from_int(4));
    let x1 = g.leaf(Scalar::from_int(5));
    let out = n.forward(&mut g, &vec![x0, x1]);

    g.backward(out);

    // d out / d w_k = x_k, d out / d bias = 1, d out / d x_k = w_k
    assert!(g.grad(params[0]).same_value(&Scalar::from_int(4)));
    assert!(g.grad(params[1]).same_value(&Scalar::from_int(5)));
    assert!(g.grad(params[2]).same_value(&Scalar::one()));
    assert!(g.grad(x0).same_value(&g.data(params[0])));
    assert!(g.grad(x1).same_value(&g.data(params[1])));
}

#[test]
fn fresh_ids_advance() {
    let mut src = ParamSource::new(1);
    assert_eq!(src.fresh_id(), 0);
    assert_eq!(src.fresh_id(), 1);
    let _ = src.next_weight();
    assert_eq!(src.fresh_id(), 2);
}

#[test]
fn subgraph_tree_shape() {
    let mut g = Graph::new();
    let mut src = ParamSource::new(9);
    let m = MLP::new(&mut g, &mut src, 3, &vec![4, 4, 1]);

    let t = m.get_subgraph_tree();
    assert_eq!(t.children.len(), 3);
    assert_eq!(t.children[0].children.len(), 4);
    assert_eq!(t.children[1].children.len(), 4);
    assert_eq!(t.children[2].children.len(), 1);

    // identifiers are distinct across the whole tree
    let mut ids = vec![t.subgraph_id];
    for l in t.children.iter() {
        ids.push(l.subgraph_id);
        for n in l.children.iter() {
            ids.push(n.subgraph_id);
        }
    }
    let mut sorted = ids.clone();
    sorted.sort();
    sorted.dedup();
    assert_eq!(sorted.len(), ids.len());
}
