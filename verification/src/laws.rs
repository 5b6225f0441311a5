//! Laws of the backward pass, proved once and for all over the engine's
//! model: what a backward pass does to a lone leaf, to the operands of an
//! addition, to a node used twice by the same operator (the diamond cases
//! that make gradient accumulation subtle), and to the nodes the root does
//! not reach at all.

use vstd::prelude::*;

use crate::backprop::acc;
use crate::backprop::apply_rule;
use crate::backprop::dfs_deps;
use crate::backprop::dfs_node;
use crate::backprop::run_down;
use crate::backprop::seed;
use crate::backprop::spec_backward;
use crate::backprop::spec_topo;
use crate::engine::OpKind;
use crate::engine::ValueData;
use crate::engine::dep;
use crate::engine::g_wf;
use crate::engine::node_wf;
use crate::scalar::Scalar;
use crate::scalar::s_add;
use crate::scalar::s_defined;
use crate::scalar::s_neg;
use crate::scalar::s_one;
use crate::scalar::s_sub;
use crate::scalar::s_wf;
use crate::scalar::s_zero;

verus! {

/// The reachable part of a graph seen from a leaf is the leaf alone.
proof fn lemma_topo_leaf(g: Seq<ValueData>, x: int)
    requires
        g_wf(g),
        0 <= x < g.len(),
        g[x].op == OpKind::Leaf,
    ensures
        spec_topo(g, x) == seq![x],
{
    assert(node_wf(g[x], x));
    assert(dfs_deps(g, x, 0, Set::empty().insert(x), Seq::empty()) == (
        Set::empty().insert(x),
        Seq::<int>::empty(),
    ));
    assert(spec_topo(g, x) =~= seq![x]);
}

/// The topological order from a binary node over two distinct leaves.
proof fn lemma_topo_two_leaves(g: Seq<ValueData>, a: int, b: int, c: int)
    requires
        g_wf(g),
        0 <= c < g.len(),
        g[c].prev@.len() == 2,
        dep(g, c, 0) == a,
        dep(g, c, 1) == b,
        a != b,
        g[a].op == OpKind::Leaf,
        g[b].op == OpKind::Leaf,
    ensures
        spec_topo(g, c) == seq![a, b, c],
{
    assert(node_wf(g[c], c));
    assert(node_wf(g[a], a));
    assert(node_wf(g[b], b));
    let v0 = Set::empty().insert(c);
    // first dependency: the leaf `a`
    assert(dfs_deps(g, a, 0, v0.insert(a), Seq::empty()) == (v0.insert(a), Seq::<int>::empty()));
    assert(dfs_node(g, a, v0, Seq::empty()) == (v0.insert(a), Seq::<int>::empty().push(a)));
    // second dependency: the leaf `b`
    let v1 = v0.insert(a);
    let o1 = Seq::<int>::empty().push(a);
    assert(!v1.contains(b));
    assert(dfs_deps(g, b, 0, v1.insert(b), o1) == (v1.insert(b), o1));
    assert(dfs_node(g, b, v1, o1) == (v1.insert(b), o1.push(b)));
    // the sweep over both dependencies, then the node itself
    let v2 = v1.insert(b);
    let o2 = o1.push(b);
    assert(dfs_deps(g, c, 2, v2, o2) == (v2, o2));
    assert(dfs_deps(g, c, 1, v1, o1) == (v2, o2));
    assert(dfs_deps(g, c, 0, v0, Seq::empty()) == (v2, o2));
    assert(spec_topo(g, c) == o2.push(c));
    assert(spec_topo(g, c) =~= seq![a, b, c]);
}

/// The topological order from a binary node whose two operands are the
/// same leaf: the shared leaf is visited once.
proof fn lemma_topo_dup_leaf(g: Seq<ValueData>, a: int, c: int)
    requires
        g_wf(g),
        0 <= c < g.len(),
        g[c].prev@.len() == 2,
        dep(g, c, 0) == a,
        dep(g, c, 1) == a,
        g[a].op == OpKind::Leaf,
    ensures
        spec_topo(g, c) == seq![a, c],
{
    assert(node_wf(g[c], c));
    assert(node_wf(g[a], a));
    let v0 = Set::empty().insert(c);
    assert(dfs_deps(g, a, 0, v0.insert(a), Seq::empty()) == (v0.insert(a), Seq::<int>::empty()));
    assert(dfs_node(g, a, v0, Seq::empty()) == (v0.insert(a), Seq::<int>::empty().push(a)));
    // the second sweep position finds `a` already visited
    let v1 = v0.insert(a);
    let o1 = Seq::<int>::empty().push(a);
    assert(v1.contains(a));
    assert(dfs_node(g, a, v1, o1) == (v1, o1));
    assert(dfs_deps(g, c, 2, v1, o1) == (v1, o1));
    assert(dfs_deps(g, c, 1, v1, o1) == (v1, o1));
    assert(dfs_deps(g, c, 0, v0, Seq::empty()) == (v1, o1));
    assert(spec_topo(g, c) == o1.push(c));
    assert(spec_topo(g, c) =~= seq![a, c]);
}

/// Small exact computations the law proofs lean on.
proof fn lemma_unit_sums()
    ensures
        s_add(s_zero(), s_one()) == s_one(),
        s_add(s_one(), s_one()) == (Scalar { num: 2, den: 1 }),
        s_neg(s_one()) == (Scalar { num: -1i64, den: 1 }),
        s_add(s_one(), Scalar { num: -1i64, den: 1 }) == s_zero(),
{
}

/// A backward pass from a leaf sets that leaf's gradient to one and
/// changes no other node.
#[verifier::rlimit(100)]
pub proof fn lemma_backward_leaf(g: Seq<ValueData>, x: int)
    requires
        g_wf(g),
        0 <= x < g.len(),
        g[x].op == OpKind::Leaf,
    ensures
        spec_backward(g, x)[x].grad == s_one(),
        spec_backward(g, x)[x].data == g[x].data,
        spec_backward(g, x).len() == g.len(),
        forall|i: int| 0 <= i < g.len() && i != x ==> spec_backward(g, x)[i] == g[i],
{
    lemma_topo_leaf(g, x);
    let s = seed(g, x);
    let t = seq![x];
    assert(run_down(s, t, 1) == s);
    assert(s[x].op == OpKind::Leaf);
    assert(apply_rule(s, x) == s);
    assert(run_down(s, t, 0) == s);
}

/// After a backward pass from `add(a, b)` over two distinct leaves with
/// zeroed gradients, each operand's gradient is exactly one.
#[verifier::rlimit(100)]
pub proof fn lemma_backward_add(g: Seq<ValueData>, a: int, b: int, c: int)
    requires
        g_wf(g),
        0 <= c < g.len(),
        g[c].op == OpKind::Add,
        g[c].prev@.len() == 2,
        dep(g, c, 0) == a,
        dep(g, c, 1) == b,
        a != b,
        g[a].op == OpKind::Leaf,
        g[b].op == OpKind::Leaf,
        g[a].grad == s_zero(),
        g[b].grad == s_zero(),
    ensures
        spec_backward(g, c)[a].grad == s_one(),
        spec_backward(g, c)[b].grad == s_one(),
        spec_backward(g, c)[c].grad == s_one(),
{
    lemma_unit_sums();
    assert(node_wf(g[c], c));
    assert(0 <= a < c && 0 <= b < c);
    lemma_topo_two_leaves(g, a, b, c);
    let s = seed(g, c);
    let t = seq![a, b, c];
    assert(run_down(s, t, 3) == s);
    // the root's rule: one added into each operand's gradient
    assert(run_down(s, t, 2) == apply_rule(s, c));
    let s1 = apply_rule(s, c);
    assert(s1 == acc(acc(s, a, s_one()), b, s_one()));
    assert(s_add(s_zero(), s_one()) == s_one());
    assert(s1[a].grad == s_one());
    assert(s1[b].grad == s_one());
    assert(s1[c].grad == s_one());
    // the leaves have no rule
    assert(s1[b].op == OpKind::Leaf);
    assert(run_down(s, t, 1) == s1);
    assert(s1[a].op == OpKind::Leaf);
    assert(run_down(s, t, 0) == s1);
}

/// Diamond accumulation: after a backward pass from `add(a, a)`, the twice
/// used leaf's gradient is exactly two.
#[verifier::rlimit(100)]
pub proof fn lemma_backward_add_self(g: Seq<ValueData>, a: int, c: int)
    requires
        g_wf(g),
        0 <= c < g.len(),
        g[c].op == OpKind::Add,
        g[c].prev@.len() == 2,
        dep(g, c, 0) == a,
        dep(g, c, 1) == a,
        g[a].op == OpKind::Leaf,
        g[a].grad == s_zero(),
    ensures
        spec_backward(g, c)[a].grad == (Scalar { num: 2, den: 1 }),
{
    lemma_unit_sums();
    assert(node_wf(g[c], c));
    assert(0 <= a < c);
    lemma_topo_dup_leaf(g, a, c);
    let s = seed(g, c);
    let t = seq![a, c];
    assert(run_down(s, t, 2) == s);
    assert(run_down(s, t, 1) == apply_rule(s, c));
    let s1 = apply_rule(s, c);
    assert(s1 == acc(acc(s, a, s_one()), a, s_one()));
    assert(s_add(s_zero(), s_one()) == s_one());
    assert(s_add(s_one(), s_one()) == Scalar { num: 2, den: 1 });
    assert(s1[a].grad == Scalar { num: 2, den: 1 });
    assert(s1[a].op == OpKind::Leaf);
    assert(run_down(s, t, 0) == s1);
}

/// Self-cancellation of subtraction: `v - v` is exactly zero for every
/// defined value whose negation is representable (only the smallest
/// integer numerator has none).
pub proof fn lemma_sub_self_zero(v: Scalar)
    requires
        s_wf(v),
        s_defined(v),
        v.num != -0x8000_0000_0000_0000,
    ensures
        s_sub(v, v) == s_zero(),
{
    assert(s_neg(v) == Scalar { num: (-v.num) as i64, den: v.den } || v.num == 0);
}

/// A backward pass touches nothing outside the reachable subgraph: every
/// node the topological order does not list comes out exactly as it went
/// in, gradient included.
pub proof fn lemma_backward_untouched(g: Seq<ValueData>, r: int, j: int)
    requires
        g_wf(g),
        0 <= r < g.len(),
        0 <= j < g.len(),
        !spec_topo(g, r).contains(j),
    ensures
        spec_backward(g, r)[j] == g[j],
{
    crate::backprop::lemma_topo_closed(g, r);
    crate::backprop::lemma_dfs_node_range(g, r, Set::empty(), Seq::empty());
    let t = spec_topo(g, r);
    let s = seed(g, r);
    assert(j != r);
    assert(s[j] == g[j]);
    assert forall|x: int|
        0 <= x < t.len() implies crate::engine::op_arity_ok(
        s[#[trigger] t[x]].op,
        s[t[x]].prev@.len(),
    ) by {
        assert(node_wf(g[t[x]], t[x]));
        assert(s[t[x]].op == g[t[x]].op && s[t[x]].prev@ == g[t[x]].prev@);
    }
    assert forall|p: int, k: int|
        0 <= p < t.len() && 0 <= k < s[t[p]].prev@.len() implies #[trigger] dep(
        s,
        t[p],
        k,
    ) != j by {
        assert(s[t[p]].prev@ == g[t[p]].prev@);
        assert(t.contains(dep(g, t[p], k)));
    }
    crate::backprop::lemma_run_down_untouched(s, t, 0, j);
}

/// After a backward pass from `sub(a, a)`, the shared leaf's gradient is
/// exactly zero: the two unit contributions cancel.
#[verifier::rlimit(100)]
pub proof fn lemma_backward_sub_self(g: Seq<ValueData>, a: int, c: int)
    requires
        g_wf(g),
        0 <= c < g.len(),
        g[c].op == OpKind::Sub,
        g[c].prev@.len() == 2,
        dep(g, c, 0) == a,
        dep(g, c, 1) == a,
        g[a].op == OpKind::Leaf,
        g[a].grad == s_zero(),
    ensures
        spec_backward(g, c)[a].grad == s_zero(),
{
    lemma_unit_sums();
    assert(node_wf(g[c], c));
    assert(0 <= a < c);
    lemma_topo_dup_leaf(g, a, c);
    let s = seed(g, c);
    let t = seq![a, c];
    assert(run_down(s, t, 2) == s);
    assert(run_down(s, t, 1) == apply_rule(s, c));
    let s1 = apply_rule(s, c);
    assert(s1 == acc(acc(s, a, s_one()), a, s_neg(s_one())));
    assert(s_add(s_zero(), s_one()) == s_one());
    assert(s_neg(s_one()) == Scalar { num: -1i64, den: 1 });
    assert(s_add(s_one(), Scalar { num: -1i64, den: 1 }) == s_zero());
    assert(s1[a].grad == s_zero());
    assert(s1[a].op == OpKind::Leaf);
    assert(run_down(s, t, 0) == s1);
}

} // verus!

