//! A read-only export of a computation graph for the visualization
//! collaborator: for every node reachable from a given root, its identity,
//! data, gradient, operator and ordered dependency identities — enough to
//! render the graph without touching engine state.
//!
//! The export lists nodes in the graph's own topological order, and the
//! dependency structure it carries is faithful: rebuilding a graph from the
//! export and traversing it yields the same topological order as direct
//! traversal of the original.

use vstd::prelude::*;

use crate::backprop::dfs_node;
use crate::backprop::spec_topo;
use crate::engine::Graph;
use crate::engine::OpKind;
use crate::engine::Value;
use crate::engine::ValueData;
use crate::engine::g_wf;
use crate::engine::node_wf;
use crate::engine::op_arity_ok;
use crate::scalar::Scalar;
use crate::scalar::s_wf;

verus! {

/// One exported node: its identity (the arena slot of the original graph),
/// its scalars, its operator, and the identities of its dependencies in
/// order. `OpKind::Leaf` marks a node with no operator.
#[derive(Debug)]
pub struct SnapshotNode {
    pub id: usize,
    pub data: Scalar,
    pub grad: Scalar,
    pub op: OpKind,
    pub deps: Vec<usize>,
}

/// The dependency identities of a node, as plain indices.
pub open spec fn dep_ids(n: ValueData) -> Seq<usize> {
    n.prev@.map_values(|v: Value| v.0)
}

/// An exported entry describes the node at its identity exactly.
pub open spec fn entry_matches(e: SnapshotNode, g: Seq<ValueData>) -> bool {
    &&& 0 <= e.id < g.len()
    &&& e.data == g[e.id as int].data
    &&& e.grad == g[e.id as int].grad
    &&& e.op == g[e.id as int].op
    &&& e.deps@ == dep_ids(g[e.id as int])
}

/// What `export_snapshot` promises: one entry per node reachable from the
/// root, in topological order, each entry faithful to its node.
pub open spec fn snapshot_of(snap: Seq<SnapshotNode>, g: Seq<ValueData>, r: int) -> bool {
    &&& snap.len() == spec_topo(g, r).len()
    &&& forall|j: int|
        0 <= j < snap.len() ==> (#[trigger] snap[j]).id as int == spec_topo(g, r)[j]
            && entry_matches(snap[j], g)
}

/// A snapshot that can stand on its own as a dependency structure over `n`
/// slots: identities in range, arities declared by the operator, every
/// dependency strictly below its node, and well-formed scalars.
pub open spec fn snapshot_coherent(snap: Seq<SnapshotNode>, n: int) -> bool {
    &&& forall|j: int|
        0 <= j < snap.len() ==> {
            let e = #[trigger] snap[j];
            &&& 0 <= e.id < n
            &&& op_arity_ok(e.op, e.deps@.len())
            &&& (forall|k: int| 0 <= k < e.deps@.len() ==> #[trigger] e.deps@[k] < e.id)
            &&& s_wf(e.data)
            &&& s_wf(e.grad)
        }
    &&& forall|j1: int, j2: int|
        0 <= j1 < j2 < snap.len() ==> (#[trigger] snap[j1]).id != (#[trigger] snap[j2]).id
}

impl Graph {
    /// Export every node reachable from `root`, in topological order, with
    /// its identity, scalars, operator and ordered dependency identities.
    /// The graph itself is only read.
    #[verifier::loop_isolation(false)]
    pub fn export_snapshot(&self, root: Value) -> (snap: Vec<SnapshotNode>)
        requires
            g_wf(self@),
            root.id() < self@.len(),
        ensures
            snapshot_of(snap@, self@, root.id()),
            snapshot_coherent(snap@, self@.len() as int),
    {
        let ord = self.build_topo(root);
        let mut snap: Vec<SnapshotNode> = Vec::new();
        let mut j: usize = 0;
        let ghost t = spec_topo(self@, root.id());
        while j < ord.len()
            invariant
                j <= ord@.len(),
                snap@.len() == j,
                forall|x: int|
                    0 <= x < j ==> (#[trigger] snap@[x]).id as int == t[x] && entry_matches(
                        snap@[x],
                        self@,
                    ),
            decreases ord@.len() - j,
        {
            let i = ord[j];
            proof {
                assert(crate::backprop::ord_ints(ord@)[j as int] == t[j as int]);
                assert(node_wf(self@[i as int], i as int));
            }
            let node_deps = self.deps(Value(i));
            let ids = ids_of(&node_deps);
            let e = SnapshotNode {
                id: i,
                data: self.data(Value(i)),
                grad: self.grad(Value(i)),
                op: self.op(Value(i)),
                deps: ids,
            };
            snap.push(e);
            j = j + 1;
        }
        proof {
            crate::backprop::lemma_topo_distinct(self@, root.id());
            assert forall|j1: int, j2: int|
                0 <= j1 < j2 < snap@.len() implies (#[trigger] snap@[j1]).id != (
            #[trigger] snap@[j2]).id by {
                assert(snap@[j1].id as int == t[j1]);
                assert(snap@[j2].id as int == t[j2]);
            }
            assert forall|x: int|
                0 <= x < snap@.len() implies {
                let e = #[trigger] snap@[x];
                &&& 0 <= e.id < self@.len()
                &&& op_arity_ok(e.op, e.deps@.len())
                &&& (forall|k: int| 0 <= k < e.deps@.len() ==> #[trigger] e.deps@[k] < e.id)
                &&& s_wf(e.data)
                &&& s_wf(e.grad)
            } by {
                let e = snap@[x];
                assert(entry_matches(e, self@));
                assert(node_wf(self@[e.id as int], e.id as int));
                assert forall|k: int| 0 <= k < e.deps@.len() implies #[trigger] e.deps@[k]
                    < e.id by {
                    assert(e.deps@[k] == self@[e.id as int].prev@[k].0);
                    assert(self@[e.id as int].prev@[k].id() < e.id as int);
                }
            }
        }
        snap
    }

    /// Rebuild a graph from an exported dependency structure: every listed
    /// identity gets its exported node back; unlisted slots become inert
    /// leaves. The result is a well-formed graph of `n` nodes whose listed
    /// slots carry exactly the exported structure.
    #[verifier::loop_isolation(false)]
    pub fn rebuild_structure(snap: &Vec<SnapshotNode>, n: usize) -> (g: Graph)
        requires
            snapshot_coherent(snap@, n as int),
        ensures
            g@.len() == n,
            g_wf(g@),
            forall|j: int|
                0 <= j < snap@.len() ==> entry_matches(#[trigger] snap@[j], g@),
    {
        let mut nodes: Vec<ValueData> = Vec::new();
        while nodes.len() < n
            invariant
                nodes@.len() <= n,
                forall|x: int|
                    0 <= x < nodes@.len() ==> node_wf(#[trigger] nodes@[x], x)
                        && nodes@[x].prev@.len() == 0,
            decreases n - nodes@.len(),
        {
            nodes.push(ValueData {
                data: Scalar::zero(),
                grad: Scalar::zero(),
                op: OpKind::Leaf,
                prev: Vec::new(),
            });
        }
        let mut j: usize = 0;
        while j < snap.len()
            invariant
                j <= snap@.len(),
                nodes@.len() == n,
                forall|x: int| 0 <= x < n ==> node_wf(#[trigger] nodes@[x], x),
                forall|x: int|
                    0 <= x < j ==> entry_matches(#[trigger] snap@[x], nodes@),
            decreases snap@.len() - j,
        {
            let ghost prev_nodes = nodes@;
            let e = &snap[j];
            let prev = values_of(&e.deps);
            let nd = ValueData { data: e.data, grad: e.grad, op: e.op, prev };
            let id = e.id;
            nodes.set(id, nd);
            proof {
                assert forall|x: int| 0 <= x < n implies node_wf(#[trigger] nodes@[x], x) by {
                    if x != id as int {
                        assert(nodes@[x] == prev_nodes[x]);
                    } else {
                        assert forall|k: int|
                            0 <= k < nodes@[x].prev@.len() implies #[trigger] nodes@[x].prev@[
                            k].id() < x by {
                            assert(nodes@[x].prev@[k].0 == snap@[j as int].deps@[k]);
                        }
                        assert(dep_ids(nodes@[x]) =~= snap@[j as int].deps@);
                    }
                }
                assert(dep_ids(nodes@[id as int]) =~= snap@[j as int].deps@);
                assert(entry_matches(snap@[j as int], nodes@));
                assert forall|x: int|
                    0 <= x < j + 1 implies entry_matches(#[trigger] snap@[x], nodes@) by {
                    if x < j {
                        assert(snap@[x].id != snap@[j as int].id);
                        assert(nodes@[snap@[x].id as int] == prev_nodes[snap@[x].id as int]);
                        assert(entry_matches(snap@[x], prev_nodes));
                    }
                }
            }
            j = j + 1;
        }
        Graph { nodes }
    }
}

/// Snapshot round trip: exporting a graph and rebuilding the dependency
/// structure from the export yields a graph whose topological order from
/// the same root is exactly the original's.
pub proof fn lemma_snapshot_roundtrip(
    g: Seq<ValueData>,
    snap: Seq<SnapshotNode>,
    g2: Seq<ValueData>,
    r: int,
)
    requires
        g_wf(g),
        0 <= r < g.len(),
        snapshot_of(snap, g, r),
        g_wf(g2),
        g2.len() == g.len(),
        forall|j: int| 0 <= j < snap.len() ==> entry_matches(#[trigger] snap[j], g2),
    ensures
        spec_topo(g2, r) == spec_topo(g, r),
{
    let t = spec_topo(g, r);
    assert forall|x: int|
        #[trigger] dfs_node(g, r, Set::empty(), Seq::empty()).1.contains(x) implies 0 <= x
        < g.len() && g[x].prev@ == g2[x].prev@ by {
        assert(t.contains(x));
        let j = choose|j: int| 0 <= j < t.len() && t[j] == x;
        let e = snap[j];
        assert(e.id as int == x);
        assert(entry_matches(e, g));
        assert(entry_matches(e, g2));
        assert(g[x].prev@ =~= g2[x].prev@) by {
            assert(dep_ids(g[x]) == e.deps@);
            assert(dep_ids(g2[x]) == e.deps@);
            assert(dep_ids(g[x]).len() == g[x].prev@.len());
            assert(dep_ids(g2[x]).len() == g2[x].prev@.len());
            assert(g[x].prev@.len() == g2[x].prev@.len());
            assert forall|k: int|
                0 <= k < g[x].prev@.len() implies #[trigger] g[x].prev@[k]
                == g2[x].prev@[k] by {
                assert(dep_ids(g[x])[k] == g[x].prev@[k].0);
                assert(dep_ids(g2[x])[k] == g2[x].prev@[k].0);
            }
        }
    }
    crate::backprop::lemma_dfs_node_agree(g, g2, r, Set::empty(), Seq::empty());
}

/// The plain indices behind a list of handles.
#[verifier::loop_isolation(false)]
fn ids_of(hs: &Vec<Value>) -> (r: Vec<usize>)
    ensures
        r@ == hs@.map_values(|v: Value| v.0),
{
    let mut r: Vec<usize> = Vec::new();
    let mut k: usize = 0;
    while k < hs.len()
        invariant
            k <= hs@.len(),
            r@.len() == k,
            forall|x: int| 0 <= x < k ==> #[trigger] r@[x] == hs@[x].0,
        decreases hs@.len() - k,
    {
        r.push(hs[k].0);
        k = k + 1;
    }
    proof {
        assert(r@ =~= hs@.map_values(|v: Value| v.0));
    }
    r
}

/// Handles over a list of plain indices.
#[verifier::loop_isolation(false)]
fn values_of(ids: &Vec<usize>) -> (r: Vec<Value>)
    ensures
        r@.len() == ids@.len(),
        forall|x: int| 0 <= x < ids@.len() ==> #[trigger] r@[x].0 == ids@[x],
{
    let mut r: Vec<Value> = Vec::new();
    let mut k: usize = 0;
    while k < ids.len()
        invariant
            k <= ids@.len(),
            r@.len() == k,
            forall|x: int| 0 <= x < k ==> #[trigger] r@[x].0 == ids@[x],
        decreases ids@.len() - k,
    {
        r.push(Value(ids[k]));
        k = k + 1;
    }
    r
}

} // verus!
