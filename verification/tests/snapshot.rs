use scalargrad::engine::Graph;
use scalargrad::engine::OpKind;
use scalargrad::scalar::Scalar;

#[test]
fn export_lists_reachable_nodes_in_topological_order() {
    let mut g = Graph::new();
    let a = g.leaf(Scalar::from_int(2));
    let b = g.leaf(Scalar::from_int(5));
    let s = g.add(a, b);
    let d = g.mul(s, a);
    // a node the root does not reach
    let _stray = g.leaf(Scalar::from_int(99));

    g.backward(d);

    let snap = g.export_snapshot(d);
    let order = g.build_topo(d);

    assert_eq!(snap.len(), order.len());
    assert_eq!(snap.len(), 4);
    for (e, i) in snap.iter().zip(order.iter()) {
        assert_eq!(e.id, *i);
        assert_eq!(e.data, g.data(scalargrad::engine::Value(*i)));
        assert_eq!(e.grad, g.grad(scalargrad::engine::Value(*i)));
        assert_eq!(e.op, g.op(scalargrad::engine::Value(*i)));
    }
    // the root comes last, dependencies before dependents
    assert_eq!(order, vec![a.0, b.0, s.0, d.0]);
    assert_eq!(*order.last().unwrap(), d.0);
    assert_eq!(snap[snap.len() - 1].deps, vec![s.0, a.0]);
    assert_eq!(snap[snap.len() - 1].op, OpKind::Mul);
}

#[test]
fn snapshot_round_trip_keeps_topological_order() {
    let mut g = Graph::new();
    let a = g.leaf(Scalar::from_int(3));
    let b = g.leaf(Scalar::from_int(4));
    let s = g.add(a, b);
    let t = g.add(a, a);
    let d = g.mul(s, t);
    let r = g.relu(d);

    let snap = g.export_snapshot(r);
    let rebuilt = Graph::rebuild_structure(&snap, g.len());

    let direct = g.build_topo(r);
    let again = rebuilt.build_topo(r);
    assert_eq!(direct, again);
}

#[test]
fn snapshot_reads_do_not_change_the_graph() {
    let mut g = Graph::new();
    let a = g.leaf(Scalar::from_int(1));
    let b = g.leaf(Scalar::from_int(2));
    let c = g.add(a, b);

    let before_len = g.len();
    let before_data = g.data(c);
    let _snap = g.export_snapshot(c);
    assert_eq!(g.len(), before_len);
    assert_eq!(g.data(c), before_data);
}
