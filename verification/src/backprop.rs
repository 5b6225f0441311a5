//! The backward pass: depth-first topological ordering and reverse-mode
//! gradient propagation.
//!
//! `backward(root)` first lists every node reachable from the root in
//! post-order (dependencies before dependents), visiting each node exactly
//! once; it then seeds the root's gradient with one and walks the list in
//! reverse, letting each node's operator rule accumulate contributions into
//! the gradients of its dependencies. A node's own gradient is final before
//! its rule runs, so shared subexpressions receive one contribution per
//! consumer.

use vstd::prelude::*;

use crate::engine::Graph;
use crate::engine::OpKind;
use crate::engine::Value;
use crate::engine::ValueData;
use crate::engine::dep;
use crate::engine::g_wf;
use crate::engine::node_wf;
use crate::engine::same_shape;
use crate::scalar::Scalar;
use crate::scalar::s_add;
use crate::scalar::s_div;
use crate::scalar::s_is_pos;
use crate::scalar::s_mul;
use crate::scalar::s_neg;
use crate::scalar::s_one;
use crate::scalar::s_pow;
use crate::scalar::s_sub;
use crate::scalar::s_tanh;
use crate::scalar::s_wf;

verus! {

/// Depth-first search from node `i`: nodes are marked visited on entry and
/// appended to the order only after all their dependencies, so the order is
/// a post-order — a topological order of the reachable subgraph.
pub open spec fn dfs_node(
    g: Seq<ValueData>,
    i: int,
    vis: Set<int>,
    ord: Seq<int>,
) -> (Set<int>, Seq<int>)
    decreases i, 1int, 0int,
        when 0 <= i < g.len() && g_wf(g)
{
    if vis.contains(i) {
        (vis, ord)
    } else {
        let st = dfs_deps(g, i, 0, vis.insert(i), ord);
        (st.0, st.1.push(i))
    }
}

/// Depth-first search over the dependencies of node `i`, from position `k`
/// on, in order.
pub open spec fn dfs_deps(
    g: Seq<ValueData>,
    i: int,
    k: int,
    vis: Set<int>,
    ord: Seq<int>,
) -> (Set<int>, Seq<int>)
    decreases i, 0int, g[i].prev@.len() - k,
        when 0 <= i < g.len() && 0 <= k <= g[i].prev@.len() && g_wf(g)
        via dfs_deps_dec
{
    if k >= g[i].prev@.len() {
        (vis, ord)
    } else {
        let st = dfs_node(g, dep(g, i, k), vis, ord);
        dfs_deps(g, i, k + 1, st.0, st.1)
    }
}

#[via_fn]
proof fn dfs_deps_dec(g: Seq<ValueData>, i: int, k: int, vis: Set<int>, ord: Seq<int>) {
    if 0 <= i < g.len() && 0 <= k < g[i].prev@.len() && g_wf(g) {
        assert(node_wf(g[i], i));
        assert(0 <= dep(g, i, k) < i);
    }
}

/// The topological order of the nodes reachable from `r`: dependencies
/// first, `r` last.
pub open spec fn spec_topo(g: Seq<ValueData>, r: int) -> Seq<int> {
    dfs_node(g, r, Set::empty(), Seq::empty()).1
}

/// The graph with the root's gradient seeded to one (the derivative of the
/// root with respect to itself).
pub open spec fn seed(g: Seq<ValueData>, r: int) -> Seq<ValueData> {
    g.update(r, ValueData { grad: s_one(), ..g[r] })
}

/// The graph with `c` accumulated into the gradient of node `j` (a slot
/// out of range is left untouched).
pub open spec fn acc(g: Seq<ValueData>, j: int, c: Scalar) -> Seq<ValueData> {
    if 0 <= j < g.len() {
        g.update(j, ValueData { grad: s_add(g[j].grad, c), ..g[j] })
    } else {
        g
    }
}

/// `c` accumulated into every dependency of node `i` from position `k` on,
/// in order; a dependency listed twice receives `c` twice.
pub open spec fn acc_all(g: Seq<ValueData>, i: int, c: Scalar, k: int) -> Seq<ValueData>
    decreases g[i].prev@.len() - k,
        when 0 <= i < g.len() && 0 <= k <= g[i].prev@.len()
        via acc_all_dec
{
    if k >= g[i].prev@.len() {
        g
    } else {
        acc_all(acc(g, dep(g, i, k), c), i, c, k + 1)
    }
}

#[via_fn]
proof fn acc_all_dec(g: Seq<ValueData>, i: int, c: Scalar, k: int) {
    if 0 <= i < g.len() && 0 <= k < g[i].prev@.len() {
        let g2 = acc(g, dep(g, i, k), c);
        assert(g2.len() == g.len());
        assert(g2[i].prev@ == g[i].prev@);
    }
}

/// The gradient rule of node `i`: each operator's exact local derivative,
/// applied to the node's own (final) gradient and its dependencies' data.
/// Leaves have no rule. The exponent operand of `Pow` never receives a
/// contribution: exponents are treated as constants.
pub open spec fn apply_rule(g: Seq<ValueData>, i: int) -> Seq<ValueData> {
    let gr = g[i].grad;
    match g[i].op {
        OpKind::Leaf => g,
        OpKind::Add => acc(acc(g, dep(g, i, 0), gr), dep(g, i, 1), gr),
        OpKind::Sub => acc(acc(g, dep(g, i, 0), gr), dep(g, i, 1), s_neg(gr)),
        OpKind::Mul => {
            let da = g[dep(g, i, 0)].data;
            let db = g[dep(g, i, 1)].data;
            acc(acc(g, dep(g, i, 0), s_mul(gr, db)), dep(g, i, 1), s_mul(gr, da))
        },
        OpKind::Div => {
            let da = g[dep(g, i, 0)].data;
            let db = g[dep(g, i, 1)].data;
            acc(
                acc(g, dep(g, i, 0), s_div(gr, db)),
                dep(g, i, 1),
                s_neg(s_div(s_mul(gr, da), s_mul(db, db))),
            )
        },
        OpKind::Pow => {
            let da = g[dep(g, i, 0)].data;
            let db = g[dep(g, i, 1)].data;
            acc(g, dep(g, i, 0), s_mul(s_mul(gr, db), s_pow(da, s_sub(db, s_one()))))
        },
        OpKind::Relu => {
            if s_is_pos(g[i].data) {
                acc(g, dep(g, i, 0), gr)
            } else {
                g
            }
        },
        OpKind::Tanh => {
            let t = s_tanh(g[dep(g, i, 0)].data);
            acc(g, dep(g, i, 0), s_mul(gr, s_sub(s_one(), s_mul(t, t))))
        },
        OpKind::Sum => acc_all(g, i, gr, 0),
    }
}

/// The graph after running the rules of `ord[j..]`, last position first:
/// the state of the reverse pass once it has walked down to position `j`.
pub open spec fn run_down(g: Seq<ValueData>, ord: Seq<int>, j: int) -> Seq<ValueData>
    decreases ord.len() - j,
        when 0 <= j <= ord.len()
{
    if j >= ord.len() {
        g
    } else {
        apply_rule(run_down(g, ord, j + 1), ord[j])
    }
}

/// What `backward(r)` does to a graph: seed the root's gradient with one,
/// then run every reachable node's rule in reverse topological order.
pub open spec fn spec_backward(g: Seq<ValueData>, r: int) -> Seq<ValueData> {
    run_down(seed(g, r), spec_topo(g, r), 0)
}

/// The set of already-visited slots a `Vec<bool>` marks.
pub open spec fn vis_set(v: Seq<bool>) -> Set<int> {
    Set::new(|j: int| 0 <= j < v.len() && v[j])
}

/// The slots a `Vec<usize>` lists, as mathematical integers.
pub open spec fn ord_ints(o: Seq<usize>) -> Seq<int> {
    o.map_values(|u: usize| u as int)
}

/// Every slot a listing names is in range for `g`.
pub open spec fn ords_ok(g: Seq<ValueData>, ord: Seq<int>) -> bool {
    forall|j: int| 0 <= j < ord.len() ==> 0 <= #[trigger] ord[j] < g.len()
}

/// Every slot that a depth-first search appends to the order is in range.
pub proof fn lemma_dfs_node_range(g: Seq<ValueData>, i: int, vis: Set<int>, ord: Seq<int>)
    requires
        g_wf(g),
        0 <= i < g.len(),
        ords_ok(g, ord),
    ensures
        ords_ok(g, dfs_node(g, i, vis, ord).1),
    decreases i, 1int, 0int,
{
    if !vis.contains(i) {
        lemma_dfs_deps_range(g, i, 0, vis.insert(i), ord);
        let st = dfs_deps(g, i, 0, vis.insert(i), ord);
        assert(dfs_node(g, i, vis, ord).1 == st.1.push(i));
        assert forall|j: int|
            0 <= j < st.1.push(i).len() implies 0 <= #[trigger] st.1.push(i)[j] < g.len() by {
            if j < st.1.len() {
                assert(0 <= st.1[j] < g.len());
            }
        }
    }
}

/// Every slot that the dependency sweep appends to the order is in range.
pub proof fn lemma_dfs_deps_range(g: Seq<ValueData>, i: int, k: int, vis: Set<int>, ord: Seq<int>)
    requires
        g_wf(g),
        0 <= i < g.len(),
        0 <= k <= g[i].prev@.len(),
        ords_ok(g, ord),
    ensures
        ords_ok(g, dfs_deps(g, i, k, vis, ord).1),
    decreases i, 0int, g[i].prev@.len() - k,
{
    if k < g[i].prev@.len() {
        assert(node_wf(g[i], i));
        lemma_dfs_node_range(g, dep(g, i, k), vis, ord);
        let st = dfs_node(g, dep(g, i, k), vis, ord);
        lemma_dfs_deps_range(g, i, k + 1, st.0, st.1);
    }
}

/// A depth-first search visits each node at most once: the order it
/// appends to stays free of duplicates, every listed slot is marked
/// visited, already-listed slots stay listed, and a slot newly listed was
/// not yet visited on entry.
pub proof fn lemma_dfs_node_nodup(g: Seq<ValueData>, i: int, vis: Set<int>, ord: Seq<int>)
    requires
        g_wf(g),
        0 <= i < g.len(),
        ord.no_duplicates(),
        forall|x: int| ord.contains(x) ==> vis.contains(x),
    ensures
        dfs_node(g, i, vis, ord).1.no_duplicates(),
        forall|x: int|
            #[trigger] dfs_node(g, i, vis, ord).1.contains(x) ==> dfs_node(
                g,
                i,
                vis,
                ord,
            ).0.contains(x),
        forall|x: int|
            #[trigger] dfs_node(g, i, vis, ord).1.contains(x) ==> ord.contains(x)
                || !vis.contains(x),
        forall|x: int| ord.contains(x) ==> #[trigger] dfs_node(g, i, vis, ord).1.contains(x),
        forall|x: int| vis.contains(x) ==> #[trigger] dfs_node(g, i, vis, ord).0.contains(x),
        dfs_node(g, i, vis, ord).0.contains(i),
    decreases i, 1int, 0int,
{
    if !vis.contains(i) {
        lemma_dfs_deps_nodup(g, i, 0, vis.insert(i), ord);
        assert(vis.insert(i).contains(i));
        let st = dfs_deps(g, i, 0, vis.insert(i), ord);
        assert(!st.1.contains(i)) by {
            if st.1.contains(i) {
                assert(ord.contains(i) || !vis.insert(i).contains(i));
                assert(vis.contains(i));
            }
        }
        assert(dfs_node(g, i, vis, ord).1 == st.1.push(i));
        assert forall|x: int|
            #[trigger] st.1.push(i).contains(x) implies st.1.contains(x) || x == i by {
            let idx = choose|idx: int| 0 <= idx < st.1.push(i).len() && st.1.push(i)[idx] == x;
            if idx < st.1.len() {
                assert(st.1[idx] == x);
            }
        }
        assert forall|x: int| st.1.contains(x) implies #[trigger] st.1.push(i).contains(x) by {
            let idx = choose|idx: int| 0 <= idx < st.1.len() && st.1[idx] == x;
            assert(st.1.push(i)[idx] == x);
        }
        assert(st.1.push(i).contains(i)) by {
            assert(st.1.push(i)[st.1.len() as int] == i);
        }
        assert(st.1.push(i).no_duplicates()) by {
            assert forall|x1: int, x2: int|
                0 <= x1 < st.1.push(i).len() && 0 <= x2 < st.1.push(i).len() && x1 != x2
                    implies st.1.push(i)[x1] != st.1.push(i)[x2] by {
                if x1 < st.1.len() && x2 < st.1.len() {
                } else if x1 < st.1.len() {
                    assert(st.1.contains(st.1[x1]));
                } else if x2 < st.1.len() {
                    assert(st.1.contains(st.1[x2]));
                }
            }
        }
    }
}

/// The dependency sweep visits each node at most once, with the same
/// bookkeeping as the single-node search.
pub proof fn lemma_dfs_deps_nodup(g: Seq<ValueData>, i: int, k: int, vis: Set<int>, ord: Seq<int>)
    requires
        g_wf(g),
        0 <= i < g.len(),
        0 <= k <= g[i].prev@.len(),
        ord.no_duplicates(),
        forall|x: int| ord.contains(x) ==> vis.contains(x),
    ensures
        dfs_deps(g, i, k, vis, ord).1.no_duplicates(),
        forall|x: int|
            #[trigger] dfs_deps(g, i, k, vis, ord).1.contains(x) ==> dfs_deps(
                g,
                i,
                k,
                vis,
                ord,
            ).0.contains(x),
        forall|x: int|
            #[trigger] dfs_deps(g, i, k, vis, ord).1.contains(x) ==> ord.contains(x)
                || !vis.contains(x),
        forall|x: int| ord.contains(x) ==> #[trigger] dfs_deps(g, i, k, vis, ord).1.contains(x),
        forall|x: int| vis.contains(x) ==> #[trigger] dfs_deps(g, i, k, vis, ord).0.contains(x),
    decreases i, 0int, g[i].prev@.len() - k,
{
    if k < g[i].prev@.len() {
        assert(node_wf(g[i], i));
        lemma_dfs_node_nodup(g, dep(g, i, k), vis, ord);
        let st = dfs_node(g, dep(g, i, k), vis, ord);
        lemma_dfs_deps_nodup(g, i, k + 1, st.0, st.1);
    }
}

/// Sameness of shape composes.
pub proof fn lemma_same_shape_trans(a: Seq<ValueData>, b: Seq<ValueData>, c: Seq<ValueData>)
    requires
        same_shape(a, b),
        same_shape(b, c),
    ensures
        same_shape(a, c),
{
    assert forall|j: int|
        0 <= j < a.len() implies ((#[trigger] c[j]).data == a[j].data && c[j].op == a[j].op
            && c[j].prev@ == a[j].prev@) by {
        assert(b[j].data == a[j].data && b[j].op == a[j].op && b[j].prev@ == a[j].prev@);
    }
}

/// Accumulating into a gradient changes no node's data, operator or
/// dependencies.
pub proof fn lemma_acc_shape(g: Seq<ValueData>, j: int, c: Scalar)
    ensures
        same_shape(g, acc(g, j, c)),
{
    assert forall|x: int|
        0 <= x < g.len() implies ((#[trigger] acc(g, j, c)[x]).data == g[x].data && acc(
            g,
            j,
            c,
        )[x].op == g[x].op && acc(g, j, c)[x].prev@ == g[x].prev@) by {
        if 0 <= j < g.len() && x == j {
            assert(acc(g, j, c)[x] == (ValueData { grad: s_add(g[j].grad, c), ..g[j] }));
        }
    }
}

/// A sweep of accumulations changes no node's data, operator or
/// dependencies.
pub proof fn lemma_acc_all_shape(g: Seq<ValueData>, i: int, c: Scalar, k: int)
    requires
        0 <= i < g.len(),
        0 <= k <= g[i].prev@.len(),
    ensures
        same_shape(g, acc_all(g, i, c, k)),
    decreases g[i].prev@.len() - k,
{
    if k < g[i].prev@.len() {
        let g1 = acc(g, dep(g, i, k), c);
        lemma_acc_shape(g, dep(g, i, k), c);
        lemma_acc_all_shape(g1, i, c, k + 1);
        lemma_same_shape_trans(g, g1, acc_all(g1, i, c, k + 1));
    } else {
        lemma_same_shape_trans(g, g, g);
    }
}

/// One gradient rule changes no node's data, operator or dependencies.
pub proof fn lemma_apply_shape(g: Seq<ValueData>, i: int)
    requires
        0 <= i < g.len(),
    ensures
        same_shape(g, apply_rule(g, i)),
{
    lemma_same_shape_trans(g, g, g);
    let gr = g[i].grad;
    match g[i].op {
        OpKind::Leaf => {},
        OpKind::Add => {
            lemma_acc_shape(g, dep(g, i, 0), gr);
            lemma_acc_shape(acc(g, dep(g, i, 0), gr), dep(g, i, 1), gr);
            lemma_same_shape_trans(g, acc(g, dep(g, i, 0), gr), apply_rule(g, i));
        },
        OpKind::Sub => {
            lemma_acc_shape(g, dep(g, i, 0), gr);
            lemma_acc_shape(acc(g, dep(g, i, 0), gr), dep(g, i, 1), s_neg(gr));
            lemma_same_shape_trans(g, acc(g, dep(g, i, 0), gr), apply_rule(g, i));
        },
        OpKind::Mul => {
            let da = g[dep(g, i, 0)].data;
            let db = g[dep(g, i, 1)].data;
            lemma_acc_shape(g, dep(g, i, 0), s_mul(gr, db));
            lemma_acc_shape(acc(g, dep(g, i, 0), s_mul(gr, db)), dep(g, i, 1), s_mul(gr, da));
            lemma_same_shape_trans(g, acc(g, dep(g, i, 0), s_mul(gr, db)), apply_rule(g, i));
        },
        OpKind::Div => {
            let da = g[dep(g, i, 0)].data;
            let db = g[dep(g, i, 1)].data;
            let cb = s_neg(s_div(s_mul(gr, da), s_mul(db, db)));
            lemma_acc_shape(g, dep(g, i, 0), s_div(gr, db));
            lemma_acc_shape(acc(g, dep(g, i, 0), s_div(gr, db)), dep(g, i, 1), cb);
            lemma_same_shape_trans(g, acc(g, dep(g, i, 0), s_div(gr, db)), apply_rule(g, i));
        },
        OpKind::Pow => {
            let da = g[dep(g, i, 0)].data;
            let db = g[dep(g, i, 1)].data;
            lemma_acc_shape(g, dep(g, i, 0), s_mul(s_mul(gr, db), s_pow(da, s_sub(db, s_one()))));
        },
        OpKind::Relu => {
            if s_is_pos(g[i].data) {
                lemma_acc_shape(g, dep(g, i, 0), gr);
            }
        },
        OpKind::Tanh => {
            let t = s_tanh(g[dep(g, i, 0)].data);
            lemma_acc_shape(g, dep(g, i, 0), s_mul(gr, s_sub(s_one(), s_mul(t, t))));
        },
        OpKind::Sum => {
            lemma_acc_all_shape(g, i, gr, 0);
        },
    }
}

/// The whole reverse pass changes no node's data, operator or
/// dependencies.
pub proof fn lemma_run_down_shape(g: Seq<ValueData>, ord: Seq<int>, j: int)
    requires
        0 <= j <= ord.len(),
        forall|x: int| 0 <= x < ord.len() ==> 0 <= #[trigger] ord[x] < g.len(),
    ensures
        same_shape(g, run_down(g, ord, j)),
    decreases ord.len() - j,
{
    if j < ord.len() {
        lemma_run_down_shape(g, ord, j + 1);
        let g1 = run_down(g, ord, j + 1);
        lemma_apply_shape(g1, ord[j]);
        lemma_same_shape_trans(g, g1, apply_rule(g1, ord[j]));
    } else {
        lemma_same_shape_trans(g, g, g);
    }
}

/// A sweep of accumulations into other slots leaves slot `j` unchanged.
pub proof fn lemma_acc_all_untouched(g: Seq<ValueData>, i: int, c: Scalar, k: int, j: int)
    requires
        0 <= i < g.len(),
        0 <= k <= g[i].prev@.len(),
        0 <= j < g.len(),
        forall|k2: int| k <= k2 < g[i].prev@.len() ==> #[trigger] dep(g, i, k2) != j,
    ensures
        acc_all(g, i, c, k)[j] == g[j],
    decreases g[i].prev@.len() - k,
{
    if k < g[i].prev@.len() {
        let g1 = acc(g, dep(g, i, k), c);
        assert(g1[i].prev@ == g[i].prev@);
        assert forall|k2: int|
            k + 1 <= k2 < g1[i].prev@.len() implies #[trigger] dep(g1, i, k2) != j by {
            assert(dep(g, i, k2) != j);
        }
        lemma_acc_all_untouched(g1, i, c, k + 1, j);
    }
}

/// A rule whose dependencies all differ from `j` leaves slot `j`
/// unchanged.
pub proof fn lemma_apply_untouched(g: Seq<ValueData>, i: int, j: int)
    requires
        0 <= i < g.len(),
        0 <= j < g.len(),
        crate::engine::op_arity_ok(g[i].op, g[i].prev@.len()),
        forall|k: int| 0 <= k < g[i].prev@.len() ==> #[trigger] dep(g, i, k) != j,
    ensures
        apply_rule(g, i)[j] == g[j],
{
    match g[i].op {
        OpKind::Sum => {
            lemma_acc_all_untouched(g, i, g[i].grad, 0, j);
        },
        _ => {
            if g[i].prev@.len() >= 1 {
                assert(dep(g, i, 0) != j);
            }
            if g[i].prev@.len() >= 2 {
                assert(dep(g, i, 1) != j);
            }
        },
    }
}

/// The reverse pass leaves slot `j` unchanged when `j` is no dependency of
/// any processed node.
pub proof fn lemma_run_down_untouched(g: Seq<ValueData>, ord: Seq<int>, jj: int, j: int)
    requires
        0 <= jj <= ord.len(),
        0 <= j < g.len(),
        forall|x: int| 0 <= x < ord.len() ==> 0 <= #[trigger] ord[x] < g.len(),
        forall|x: int|
            0 <= x < ord.len() ==> crate::engine::op_arity_ok(
                g[#[trigger] ord[x]].op,
                g[ord[x]].prev@.len(),
            ),
        forall|p: int, k: int|
            0 <= p < ord.len() && 0 <= k < g[ord[p]].prev@.len() ==> #[trigger] dep(
                g,
                ord[p],
                k,
            ) != j,
    ensures
        run_down(g, ord, jj)[j] == g[j],
    decreases ord.len() - jj,
{
    if jj < ord.len() {
        lemma_run_down_untouched(g, ord, jj + 1, j);
        let g1 = run_down(g, ord, jj + 1);
        lemma_run_down_shape(g, ord, jj + 1);
        assert(g1[ord[jj]].prev@ == g[ord[jj]].prev@);
        assert(g1[ord[jj]].op == g[ord[jj]].op);
        assert forall|k: int|
            0 <= k < g1[ord[jj]].prev@.len() implies #[trigger] dep(g1, ord[jj], k) != j by {
            assert(dep(g, ord[jj], k) != j);
        }
        lemma_apply_untouched(g1, ord[jj], j);
    }
}

/// What a pushed sequence contains.
pub proof fn lemma_push_contains(s: Seq<int>, i: int)
    ensures
        forall|x: int| s.contains(x) ==> #[trigger] s.push(i).contains(x),
        s.push(i).contains(i),
        forall|x: int| #[trigger] s.push(i).contains(x) ==> s.contains(x) || x == i,
{
    assert forall|x: int| s.contains(x) implies #[trigger] s.push(i).contains(x) by {
        let idx = choose|idx: int| 0 <= idx < s.len() && s[idx] == x;
        assert(s.push(i)[idx] == x);
    }
    assert(s.push(i)[s.len() as int] == i);
    assert forall|x: int| #[trigger] s.push(i).contains(x) implies s.contains(x) || x == i by {
        let idx = choose|idx: int| 0 <= idx < s.push(i).len() && s.push(i)[idx] == x;
        if idx < s.len() {
            assert(s[idx] == x);
        }
    }
}

/// The traversal depends only on the dependency structure: two graphs that
/// agree on the dependency lists of every node the traversal touches are
/// traversed identically.
pub proof fn lemma_dfs_node_agree(
    g1: Seq<ValueData>,
    g2: Seq<ValueData>,
    i: int,
    vis: Set<int>,
    ord: Seq<int>,
)
    requires
        g_wf(g1),
        g_wf(g2),
        g1.len() == g2.len(),
        0 <= i < g1.len(),
        ord.no_duplicates(),
        forall|x: int| ord.contains(x) ==> vis.contains(x),
        forall|x: int|
            #[trigger] dfs_node(g1, i, vis, ord).1.contains(x) ==> 0 <= x < g1.len()
                && g1[x].prev@ == g2[x].prev@,
    ensures
        dfs_node(g2, i, vis, ord) == dfs_node(g1, i, vis, ord),
    decreases i, 1int, 0int,
{
    if !vis.contains(i) {
        let st1 = dfs_deps(g1, i, 0, vis.insert(i), ord);
        lemma_push_contains(st1.1, i);
        assert(dfs_node(g1, i, vis, ord).1.contains(i));
        assert(g1[i].prev@ == g2[i].prev@);
        assert forall|x: int|
            #[trigger] dfs_deps(g1, i, 0, vis.insert(i), ord).1.contains(x) implies 0 <= x
            < g1.len() && g1[x].prev@ == g2[x].prev@ by {
            assert(st1.1.push(i).contains(x));
            assert(dfs_node(g1, i, vis, ord).1.contains(x));
        }
        lemma_dfs_deps_agree(g1, g2, i, 0, vis.insert(i), ord);
    }
}

/// The dependency sweep depends only on the dependency structure.
pub proof fn lemma_dfs_deps_agree(
    g1: Seq<ValueData>,
    g2: Seq<ValueData>,
    i: int,
    k: int,
    vis: Set<int>,
    ord: Seq<int>,
)
    requires
        g_wf(g1),
        g_wf(g2),
        g1.len() == g2.len(),
        0 <= i < g1.len(),
        0 <= k <= g1[i].prev@.len(),
        g1[i].prev@ == g2[i].prev@,
        ord.no_duplicates(),
        forall|x: int| ord.contains(x) ==> vis.contains(x),
        forall|x: int|
            #[trigger] dfs_deps(g1, i, k, vis, ord).1.contains(x) ==> 0 <= x < g1.len()
                && g1[x].prev@ == g2[x].prev@,
    ensures
        dfs_deps(g2, i, k, vis, ord) == dfs_deps(g1, i, k, vis, ord),
    decreases i, 0int, g1[i].prev@.len() - k,
{
    if k < g1[i].prev@.len() {
        assert(node_wf(g1[i], i));
        let d = dep(g1, i, k);
        assert(dep(g2, i, k) == d);
        lemma_dfs_node_nodup(g1, d, vis, ord);
        let st1 = dfs_node(g1, d, vis, ord);
        lemma_dfs_deps_nodup(g1, i, k + 1, st1.0, st1.1);
        assert forall|x: int|
            #[trigger] st1.1.contains(x) implies 0 <= x < g1.len() && g1[x].prev@
            == g2[x].prev@ by {
            assert(dfs_deps(g1, i, k + 1, st1.0, st1.1).1.contains(x));
            assert(dfs_deps(g1, i, k, vis, ord).1.contains(x));
        }
        lemma_dfs_node_agree(g1, g2, d, vis, ord);
        assert forall|x: int|
            #[trigger] dfs_deps(g1, i, k + 1, st1.0, st1.1).1.contains(x) implies 0 <= x
            < g1.len() && g1[x].prev@ == g2[x].prev@ by {
            assert(dfs_deps(g1, i, k, vis, ord).1.contains(x));
        }
        lemma_dfs_deps_agree(g1, g2, i, k + 1, st1.0, st1.1);
    }
}

/// A listing closed under dependencies: every dependency of a listed node
/// is itself listed.
pub open spec fn ord_closed(g: Seq<ValueData>, ord: Seq<int>) -> bool {
    forall|p: int, k: int|
        0 <= p < ord.len() && 0 <= k < g[ord[p]].prev@.len() ==> ord.contains(
            #[trigger] dep(g, ord[p], k),
        )
}

/// A depth-first search keeps the order closed under dependencies, and any
/// slot visited but not listed at the end was already pending on entry.
pub proof fn lemma_dfs_node_closed(g: Seq<ValueData>, i: int, vis: Set<int>, ord: Seq<int>)
    requires
        g_wf(g),
        0 <= i < g.len(),
        ords_ok(g, ord),
        ord_closed(g, ord),
        ord.no_duplicates(),
        forall|x: int| ord.contains(x) ==> vis.contains(x),
        forall|y: int| vis.contains(y) && !ord.contains(y) ==> y >= i,
    ensures
        ord_closed(g, dfs_node(g, i, vis, ord).1),
        forall|y: int|
            dfs_node(g, i, vis, ord).0.contains(y) && !(#[trigger] dfs_node(
                g,
                i,
                vis,
                ord,
            ).1.contains(y)) ==> vis.contains(y) && !ord.contains(y),
    decreases i, 1int, 0int,
{
    if !vis.contains(i) {
        let vis1 = vis.insert(i);
        assert(node_wf(g[i], i));
        lemma_dfs_deps_closed(g, i, 0, vis1, ord);
        lemma_dfs_deps_nodup(g, i, 0, vis1, ord);
        let st = dfs_deps(g, i, 0, vis1, ord);
        lemma_push_contains(st.1, i);
        // every dependency of `i` ends up listed: it is visited, and were
        // it unlisted it would have been pending below `i` on entry
        assert forall|k: int| 0 <= k < g[i].prev@.len() implies st.1.contains(
            #[trigger] dep(g, i, k),
        ) by {
            let d = dep(g, i, k);
            assert(st.0.contains(d));
            if !st.1.contains(d) {
                assert(vis1.contains(d) && !ord.contains(d));
                assert(d < i);
            }
        }
        assert forall|p: int, k: int|
            0 <= p < st.1.push(i).len() && 0 <= k < g[st.1.push(i)[p]].prev@.len() implies st
            .1.push(i).contains(#[trigger] dep(g, st.1.push(i)[p], k)) by {
            if p < st.1.len() {
                assert(st.1.contains(dep(g, st.1[p], k)));
            } else {
                assert(st.1.push(i)[p] == i);
                assert(st.1.contains(dep(g, i, k)));
            }
        }
    }
}

/// The dependency sweep keeps the order closed under dependencies, visits
/// every remaining dependency, and creates no new pending slots.
pub proof fn lemma_dfs_deps_closed(g: Seq<ValueData>, i: int, k: int, vis: Set<int>, ord: Seq<int>)
    requires
        g_wf(g),
        0 <= i < g.len(),
        0 <= k <= g[i].prev@.len(),
        ords_ok(g, ord),
        ord_closed(g, ord),
        ord.no_duplicates(),
        forall|x: int| ord.contains(x) ==> vis.contains(x),
        forall|y: int| vis.contains(y) && !ord.contains(y) ==> y >= i,
    ensures
        ord_closed(g, dfs_deps(g, i, k, vis, ord).1),
        forall|y: int|
            dfs_deps(g, i, k, vis, ord).0.contains(y) && !(#[trigger] dfs_deps(
                g,
                i,
                k,
                vis,
                ord,
            ).1.contains(y)) ==> vis.contains(y) && !ord.contains(y),
        forall|k2: int|
            k <= k2 < g[i].prev@.len() ==> dfs_deps(g, i, k, vis, ord).0.contains(
                #[trigger] dep(g, i, k2),
            ),
    decreases i, 0int, g[i].prev@.len() - k,
{
    if k < g[i].prev@.len() {
        assert(node_wf(g[i], i));
        let d = dep(g, i, k);
        lemma_dfs_node_nodup(g, d, vis, ord);
        lemma_dfs_node_range(g, d, vis, ord);
        lemma_dfs_node_closed(g, d, vis, ord);
        let st = dfs_node(g, d, vis, ord);
        lemma_dfs_deps_nodup(g, i, k + 1, st.0, st.1);
        assert forall|y: int| st.0.contains(y) && !st.1.contains(y) implies y >= i by {
            assert(vis.contains(y) && !ord.contains(y));
        }
        lemma_dfs_deps_closed(g, i, k + 1, st.0, st.1);
        assert(st.0.contains(d));
        assert(dfs_deps(g, i, k + 1, st.0, st.1).0.contains(d));
    }
}

/// The topological order is closed under dependencies: every dependency of
/// a reachable node is reachable and listed.
pub proof fn lemma_topo_closed(g: Seq<ValueData>, r: int)
    requires
        g_wf(g),
        0 <= r < g.len(),
    ensures
        ord_closed(g, spec_topo(g, r)),
        spec_topo(g, r).contains(r),
{
    lemma_dfs_node_closed(g, r, Set::empty(), Seq::empty());
    lemma_dfs_node_nodup(g, r, Set::empty(), Seq::empty());
    let st = dfs_deps(g, r, 0, Set::empty().insert(r), Seq::empty());
    lemma_push_contains(st.1, r);
}

/// `x` appears in the listing strictly before position `p`.
pub open spec fn listed_before(ord: Seq<int>, p: int, x: int) -> bool {
    exists|q: int| 0 <= q < p && ord[q] == x
}

/// A listing in dependency order: every dependency of a listed node
/// appears at a strictly earlier position.
pub open spec fn ord_sorted(g: Seq<ValueData>, ord: Seq<int>) -> bool {
    forall|p: int, k: int|
        0 <= p < ord.len() && 0 <= k < g[ord[p]].prev@.len() ==> listed_before(
            ord,
            p,
            #[trigger] dep(g, ord[p], k),
        )
}

/// A depth-first search appends a node only after all its dependencies, so
/// the order it builds keeps dependencies at earlier positions.
pub proof fn lemma_dfs_node_sorted(g: Seq<ValueData>, i: int, vis: Set<int>, ord: Seq<int>)
    requires
        g_wf(g),
        0 <= i < g.len(),
        ords_ok(g, ord),
        ord_closed(g, ord),
        ord_sorted(g, ord),
        ord.no_duplicates(),
        forall|x: int| ord.contains(x) ==> vis.contains(x),
        forall|y: int| vis.contains(y) && !ord.contains(y) ==> y >= i,
    ensures
        ord_sorted(g, dfs_node(g, i, vis, ord).1),
    decreases i, 1int, 0int,
{
    if !vis.contains(i) {
        let vis1 = vis.insert(i);
        assert(node_wf(g[i], i));
        lemma_dfs_deps_closed(g, i, 0, vis1, ord);
        lemma_dfs_deps_sorted(g, i, 0, vis1, ord);
        let st = dfs_deps(g, i, 0, vis1, ord);
        // as in the closure proof: every dependency of `i` is listed
        assert forall|k: int| 0 <= k < g[i].prev@.len() implies st.1.contains(
            #[trigger] dep(g, i, k),
        ) by {
            let d = dep(g, i, k);
            assert(st.0.contains(d));
            if !st.1.contains(d) {
                assert(vis1.contains(d) && !ord.contains(d));
                assert(d < i);
            }
        }
        let out = st.1.push(i);
        assert forall|p: int, k: int|
            0 <= p < out.len() && 0 <= k < g[out[p]].prev@.len() implies listed_before(
            out,
            p,
            #[trigger] dep(g, out[p], k),
        ) by {
            if p < st.1.len() {
                assert(out[p] == st.1[p]);
                let d = dep(g, st.1[p], k);
                assert(listed_before(st.1, p, d));
                let q = choose|q: int| 0 <= q < p && st.1[q] == d;
                assert(out[q] == d);
            } else {
                assert(out[p] == i);
                let d = dep(g, i, k);
                assert(st.1.contains(d));
                let q = choose|q: int| 0 <= q < st.1.len() && st.1[q] == d;
                assert(out[q] == d);
            }
        }
        assert(ord_sorted(g, out));
        assert(dfs_node(g, i, vis, ord).1 == out);
    }
}

/// The dependency sweep keeps the order sorted by dependencies.
pub proof fn lemma_dfs_deps_sorted(g: Seq<ValueData>, i: int, k: int, vis: Set<int>, ord: Seq<int>)
    requires
        g_wf(g),
        0 <= i < g.len(),
        0 <= k <= g[i].prev@.len(),
        ords_ok(g, ord),
        ord_closed(g, ord),
        ord_sorted(g, ord),
        ord.no_duplicates(),
        forall|x: int| ord.contains(x) ==> vis.contains(x),
        forall|y: int| vis.contains(y) && !ord.contains(y) ==> y >= i,
    ensures
        ord_sorted(g, dfs_deps(g, i, k, vis, ord).1),
    decreases i, 0int, g[i].prev@.len() - k,
{
    if k < g[i].prev@.len() {
        assert(node_wf(g[i], i));
        let d = dep(g, i, k);
        lemma_dfs_node_nodup(g, d, vis, ord);
        lemma_dfs_node_range(g, d, vis, ord);
        lemma_dfs_node_closed(g, d, vis, ord);
        lemma_dfs_node_sorted(g, d, vis, ord);
        let st = dfs_node(g, d, vis, ord);
        assert forall|y: int| st.0.contains(y) && !st.1.contains(y) implies y >= i by {
            assert(vis.contains(y) && !ord.contains(y));
        }
        lemma_dfs_deps_sorted(g, i, k + 1, st.0, st.1);
    }
}

/// The order `backward` processes is a topological sort: every dependency
/// of a listed node appears strictly before it.
pub proof fn lemma_topo_sorted(g: Seq<ValueData>, r: int)
    requires
        g_wf(g),
        0 <= r < g.len(),
    ensures
        ord_sorted(g, spec_topo(g, r)),
{
    lemma_dfs_node_sorted(g, r, Set::empty(), Seq::empty());
}

/// The topological order lists each reachable node exactly once: a single
/// deterministic visit per node, even when many consumers share it.
pub proof fn lemma_topo_distinct(g: Seq<ValueData>, r: int)
    requires
        g_wf(g),
        0 <= r < g.len(),
    ensures
        spec_topo(g, r).no_duplicates(),
{
    lemma_dfs_node_nodup(g, r, Set::empty(), Seq::empty());
}

impl Graph {
    /// Depth-first search from slot `i`, marking visited slots in `vis`
    /// and appending finished slots to `ord`.
    #[verifier::loop_isolation(false)]
    fn dfs(&self, i: usize, vis: &mut Vec<bool>, ord: &mut Vec<usize>)
        requires
            g_wf(self@),
            i < self@.len(),
            old(vis)@.len() == self@.len(),
        ensures
            final(vis)@.len() == self@.len(),
            (vis_set(final(vis)@), ord_ints(final(ord)@)) == dfs_node(
                self@,
                i as int,
                vis_set(old(vis)@),
                ord_ints(old(ord)@),
            ),
        decreases i,
    {
        if vis[i] {
            proof {
                assert(vis_set(vis@).contains(i as int));
            }
            return ;
        }
        proof {
            assert(!vis_set(vis@).contains(i as int));
        }
        vis.set(i, true);
        let ghost v1 = vis_set(vis@);
        let ghost o1 = ord_ints(ord@);
        proof {
            assert(v1 =~= vis_set(old(vis)@).insert(i as int));
            assert(node_wf(self@[i as int], i as int));
        }
        let n = self.nodes[i].prev.len();
        let mut k: usize = 0;
        while k < n
            invariant
                k <= n,
                vis@.len() == self@.len(),
                dfs_deps(self@, i as int, k as int, vis_set(vis@), ord_ints(ord@)) == dfs_deps(
                    self@,
                    i as int,
                    0,
                    v1,
                    o1,
                ),
            decreases n - k,
        {
            let d = self.nodes[i].prev[k];
            proof {
                assert(node_wf(self@[i as int], i as int));
                assert(d.id() < i as int);
            }
            self.dfs(d.0, vis, ord);
            k = k + 1;
        }
        proof {
            assert(dfs_deps(self@, i as int, k as int, vis_set(vis@), ord_ints(ord@)) == (
                vis_set(vis@),
                ord_ints(ord@),
            ));
        }
        let ghost st = dfs_deps(self@, i as int, 0, v1, o1);
        ord.push(i);
        proof {
            assert(ord_ints(ord@) =~= st.1.push(i as int));
            assert(dfs_node(self@, i as int, vis_set(old(vis)@), ord_ints(old(ord)@)) == (
                st.0,
                st.1.push(i as int),
            ));
        }
    }

    /// The topological order of the nodes reachable from `root`:
    /// dependencies always precede their dependents, each reachable node
    /// appears exactly once, and `root` comes last.
    pub fn build_topo(&self, root: Value) -> (ord: Vec<usize>)
        requires
            g_wf(self@),
            root.id() < self@.len(),
        ensures
            ord_ints(ord@) == spec_topo(self@, root.id()),
            forall|j: int| 0 <= j < ord@.len() ==> #[trigger] ord@[j] < self@.len(),
    {
        let n = self.nodes.len();
        let mut vis: Vec<bool> = Vec::new();
        let mut t: usize = 0;
        while t < n
            invariant
                vis@.len() == t,
                t <= n,
                forall|j: int| 0 <= j < t ==> !(#[trigger] vis@[j]),
            decreases n - t,
        {
            vis.push(false);
            t = t + 1;
        }
        let mut ord: Vec<usize> = Vec::new();
        proof {
            assert(vis_set(vis@) =~= Set::<int>::empty());
            assert(ord_ints(ord@) =~= Seq::<int>::empty());
        }
        self.dfs(root.0, &mut vis, &mut ord);
        proof {
            lemma_dfs_node_range(self@, root.id(), Set::empty(), Seq::empty());
            assert(ords_ok(self@, ord_ints(ord@)));
            assert forall|j: int| 0 <= j < ord@.len() implies #[trigger] ord@[j] < self@.len() by {
                assert(ord_ints(ord@)[j] == ord@[j] as int);
            }
        }
        ord
    }

    /// Accumulate `c` into the gradient of slot `j`.
    fn add_grad(&mut self, j: usize, c: Scalar)
        requires
            g_wf(old(self)@),
            j < old(self)@.len(),
            s_wf(c),
        ensures
            final(self)@ == acc(old(self)@, j as int, c),
            g_wf(final(self)@),
            final(self)@.len() == old(self)@.len(),
    {
        proof {
            assert(node_wf(self@[j as int], j as int));
        }
        let gj = self.nodes[j].grad;
        let s = gj.add(c);
        let node = &mut self.nodes[j];
        node.grad = s;
        proof {
            assert forall|i: int| 0 <= i < self@.len() implies #[trigger] node_wf(
                self@[i],
                i,
            ) by {
                assert(node_wf(old(self)@[i], i));
            }
        }
    }

    /// Run the gradient rule of slot `i` once: accumulate its exact local
    /// derivative contributions into its dependencies' gradients.
    #[verifier::loop_isolation(false)]
    fn apply_node(&mut self, i: usize)
        requires
            g_wf(old(self)@),
            i < old(self)@.len(),
        ensures
            final(self)@ == apply_rule(old(self)@, i as int),
            g_wf(final(self)@),
            final(self)@.len() == old(self)@.len(),
    {
        proof {
            assert(node_wf(self@[i as int], i as int));
        }
        let op = self.nodes[i].op;
        let gr = self.nodes[i].grad;
        match op {
            OpKind::Leaf => {},
            OpKind::Add => {
                let a = self.nodes[i].prev[0];
                let b = self.nodes[i].prev[1];
                self.add_grad(a.0, gr);
                self.add_grad(b.0, gr);
            },
            OpKind::Sub => {
                let a = self.nodes[i].prev[0];
                let b = self.nodes[i].prev[1];
                self.add_grad(a.0, gr);
                let c = gr.neg();
                self.add_grad(b.0, c);
            },
            OpKind::Mul => {
                let a = self.nodes[i].prev[0];
                let b = self.nodes[i].prev[1];
                proof {
                    assert(node_wf(self@[a.id()], a.id()));
                    assert(node_wf(self@[b.id()], b.id()));
                }
                let da = self.nodes[a.0].data;
                let db = self.nodes[b.0].data;
                self.add_grad(a.0, gr.mul(db));
                proof {
                    assert(self@[b.id()].data == da || b.id() != a.id());
                }
                self.add_grad(b.0, gr.mul(da));
            },
            OpKind::Div => {
                let a = self.nodes[i].prev[0];
                let b = self.nodes[i].prev[1];
                proof {
                    assert(node_wf(self@[a.id()], a.id()));
                    assert(node_wf(self@[b.id()], b.id()));
                }
                let da = self.nodes[a.0].data;
                let db = self.nodes[b.0].data;
                self.add_grad(a.0, gr.div(db));
                self.add_grad(b.0, gr.mul(da).div(db.mul(db)).neg());
            },
            OpKind::Pow => {
                let a = self.nodes[i].prev[0];
                let b = self.nodes[i].prev[1];
                proof {
                    assert(node_wf(self@[a.id()], a.id()));
                    assert(node_wf(self@[b.id()], b.id()));
                }
                let da = self.nodes[a.0].data;
                let db = self.nodes[b.0].data;
                self.add_grad(a.0, gr.mul(db).mul(da.pow(db.sub(Scalar::one()))));
            },
            OpKind::Relu => {
                let a = self.nodes[i].prev[0];
                let d = self.nodes[i].data;
                if d.is_positive() {
                    self.add_grad(a.0, gr);
                }
            },
            OpKind::Tanh => {
                let a = self.nodes[i].prev[0];
                proof {
                    assert(node_wf(self@[a.id()], a.id()));
                }
                let da = self.nodes[a.0].data;
                let t = da.tanh();
                self.add_grad(a.0, gr.mul(Scalar::one().sub(t.mul(t))));
            },
            OpKind::Sum => {
                let n = self.nodes[i].prev.len();
                let mut k: usize = 0;
                while k < n
                    invariant
                        k <= n,
                        g_wf(self@),
                        self@.len() == old(self)@.len(),
                        self@[i as int].prev@ == old(self)@[i as int].prev@,
                        acc_all(self@, i as int, gr, k as int) == acc_all(
                            old(self)@,
                            i as int,
                            gr,
                            0,
                        ),
                    decreases n - k,
                {
                    let d = self.nodes[i].prev[k];
                    proof {
                        assert(node_wf(self@[i as int], i as int));
                        assert(d.id() < i as int);
                    }
                    let ghost before = self@;
                    self.add_grad(d.0, gr);
                    proof {
                        assert(self@[i as int].prev@ == before[i as int].prev@);
                        assert(dep(before, i as int, k as int) == d.id());
                    }
                    k = k + 1;
                }
            },
        }
    }

    /// Reverse-mode differentiation from `root`: compute, for every node
    /// reachable from `root`, the exact partial derivative of `root` with
    /// respect to it, accumulated into that node's gradient. Gradients are
    /// only ever added to (the root's is seeded to one first), so grads
    /// must be reset between independent passes that share leaves. Nodes
    /// unreachable from `root` are untouched; no node's data, operator or
    /// dependencies change.
    #[verifier::loop_isolation(false)]
    pub fn backward(&mut self, root: Value)
        requires
            g_wf(old(self)@),
            root.id() < old(self)@.len(),
        ensures
            final(self)@ == spec_backward(old(self)@, root.id()),
            same_shape(old(self)@, final(self)@),
            g_wf(final(self)@),
            final(self)@.len() == old(self)@.len(),
    {
        let ord = self.build_topo(root);
        proof {
            assert(node_wf(self@[root.id()], root.id()));
        }
        let one = Scalar::one();
        let node = &mut self.nodes[root.0];
        node.grad = one;
        proof {
            assert(self@ == seed(old(self)@, root.id()));
            assert forall|i: int| 0 <= i < self@.len() implies #[trigger] node_wf(
                self@[i],
                i,
            ) by {
                assert(node_wf(old(self)@[i], i));
            }
        }
        let ghost t = spec_topo(old(self)@, root.id());
        let ghost seeded = seed(old(self)@, root.id());
        let mut j = ord.len();
        proof {
            assert(t.len() == ord@.len());
        }
        while j > 0
            invariant
                j <= ord@.len(),
                g_wf(self@),
                self@.len() == old(self)@.len(),
                self@ == run_down(seeded, t, j as int),
            decreases j,
        {
            j = j - 1;
            let i = ord[j];
            proof {
                assert(t[j as int] == ord@[j as int] as int);
            }
            self.apply_node(i);
        }
        proof {
            lemma_dfs_node_range(old(self)@, root.id(), Set::empty(), Seq::empty());
            assert(same_shape(old(self)@, seeded)) by {
                assert forall|x: int|
                    0 <= x < old(self)@.len() implies ((#[trigger] seeded[x]).data == old(
                    self,
                )@[x].data && seeded[x].op == old(self)@[x].op && seeded[x].prev@ == old(
                    self,
                )@[x].prev@) by {
                    if x == root.id() {
                        assert(seeded[x] == (ValueData {
                            grad: s_one(),
                            ..old(self)@[x]
                        }));
                    }
                }
            }
            lemma_run_down_shape(seeded, t, 0);
            lemma_same_shape_trans(old(self)@, seeded, run_down(seeded, t, 0));
        }
    }
}

} // verus!
