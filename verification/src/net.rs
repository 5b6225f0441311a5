//! Network composition: neurons, layers and a multilayer perceptron built
//! purely from engine operator calls.
//!
//! A network structure owns no nodes; it holds handles to parameter leaves
//! (weights and a bias per neuron) that live in the graph. Every `forward`
//! call builds a fresh subgraph of intermediate nodes, while the parameter
//! leaves are reused, so training steps can read gradients off the same
//! handles after each backward pass.

use vstd::prelude::*;

use crate::engine::Graph;
use crate::engine::OpKind;
use crate::engine::Value;
use crate::engine::ValueData;
use crate::engine::g_wf;
use crate::engine::same_shape;
use crate::scalar::Scalar;
use crate::scalar::s_add;
use crate::scalar::s_defined;
use crate::scalar::s_mul;
use crate::scalar::s_wf;
use crate::scalar::s_zero;

verus! {

/// Grouping metadata for the visualization collaborator: which subgraph a
/// network structure owns, and the subgraphs nested inside it. It lives
/// entirely outside the engine's data model.
#[derive(Debug)]
pub struct SubgraphTreeNode {
    pub subgraph_id: u64,
    pub children: Vec<SubgraphTreeNode>,
}

#[verifier::external_type_specification]
#[verifier::external_body]
pub struct ExStdRng(rand::rngs::StdRng);

/// Relies on rand's `SeedableRng::seed_from_u64` for `StdRng`: builds a
/// generator deterministically from the seed.
#[verifier::external_body]
fn rng_from_seed(seed: u64) -> rand::rngs::StdRng {
    <rand::rngs::StdRng as rand::SeedableRng>::seed_from_u64(seed)
}

/// Relies on rand's `RngExt::random_range` on `StdRng`: returns a sample
/// inside the given inclusive range (here a constant, non-empty one); which
/// sample comes back depends on the generator's state.
#[verifier::external_body]
fn draw_hundredths(rng: &mut rand::rngs::StdRng) -> (r: i64)
    ensures
        -100 <= r <= 100,
{
    rand::RngExt::random_range(rng, -100i64..=100i64)
}

/// The injected, seedable source used when constructing a network: it draws
/// initial parameter values and hands out the identifiers that name each
/// structure's subgraph.
pub struct ParamSource {
    pub rng: rand::rngs::StdRng,
    pub next_id: u64,
}

impl ParamSource {
    /// A deterministic source: the same seed gives the same network.
    pub fn new(seed: u64) -> (src: ParamSource)
        ensures
            src.next_id == 0,
    {
        ParamSource { rng: rng_from_seed(seed), next_id: 0 }
    }

    /// One initial parameter value: an exact rational in `[-1, 1]`, in
    /// hundredths. Whatever the generator returns, the value lies in the
    /// unit interval.
    pub fn next_weight(&mut self) -> (r: Scalar)
        ensures
            s_wf(r),
            s_defined(r),
            -(r.den as int) <= r.num as int <= r.den as int,
            final(self).next_id == old(self).next_id,
    {
        let d = draw_hundredths(&mut self.rng);
        Scalar::from_ratio(d, 100)
    }

    /// A fresh subgraph identifier: the counter advances by one per call
    /// (saturating at its maximum, far beyond any network built in one
    /// run).
    pub fn fresh_id(&mut self) -> (r: u64)
        ensures
            r == old(self).next_id,
            final(self).next_id == (if old(self).next_id < 0xffff_ffff_ffff_ffffu64 {
                (old(self).next_id + 1) as u64
            } else {
                old(self).next_id
            }),
    {
        let id = self.next_id;
        if self.next_id < 0xffff_ffff_ffff_ffffu64 {
            self.next_id = self.next_id + 1;
        }
        id
    }
}

/// `g2` holds at least the nodes of `g`, unchanged, in the same slots.
pub open spec fn extends(g: Seq<ValueData>, g2: Seq<ValueData>) -> bool {
    &&& g2.len() >= g.len()
    &&& forall|j: int| 0 <= j < g.len() ==> g2[j] == g[j]
}

/// A parameter handle: a leaf of the graph holding a defined value.
pub open spec fn is_param(g: Seq<ValueData>, h: Value) -> bool {
    &&& 0 <= h.id() < g.len()
    &&& g[h.id()].op == OpKind::Leaf
    &&& s_defined(g[h.id()].data)
}

/// A defined value inside the unit interval: `-1 <= num/den <= 1`.
pub open spec fn in_unit(s: Scalar) -> bool {
    &&& s_defined(s)
    &&& -(s.den as int) <= s.num as int <= s.den as int
}

/// A freshly initialized parameter handle: a parameter leaf whose value
/// came from the injected source (so it lies in the unit interval) and
/// whose gradient accumulator is still zero.
pub open spec fn is_fresh_param(g: Seq<ValueData>, h: Value) -> bool {
    &&& is_param(g, h)
    &&& in_unit(g[h.id()].data)
    &&& g[h.id()].grad == s_zero()
}

/// The data stored at each of a list of handles.
pub open spec fn datas_of(g: Seq<ValueData>, hs: Seq<Value>) -> Seq<Scalar> {
    hs.map_values(|h: Value| g[h.id()].data)
}

/// All handles of a list name slots below `n`.
pub open spec fn handles_ok(hs: Seq<Value>, n: int) -> bool {
    forall|k: int| 0 <= k < hs.len() ==> #[trigger] hs[k].id() < n
}

/// A weighted running total over the first `k` inputs: the engine's n-ary
/// sum of the products `w_j * x_j`, in order, starting from zero.
pub open spec fn dot_value(g: Seq<ValueData>, ws: Seq<Value>, xv: Seq<Scalar>, k: int) -> Scalar
    decreases k,
{
    if k <= 0 {
        s_zero()
    } else {
        s_add(dot_value(g, ws, xv, k - 1), s_mul(g[ws[k - 1].id()].data, xv[k - 1]))
    }
}

/// A neuron made of `nin` weight leaves and one bias leaf.
#[derive(Debug)]
pub struct Neuron {
    pub weights: Vec<Value>,
    pub bias: Value,
    pub subgraph_id: u64,
}

/// Every parameter handle of the neuron names a parameter leaf of `g`.
pub open spec fn neuron_wf(n: Neuron, g: Seq<ValueData>) -> bool {
    &&& forall|k: int| 0 <= k < n.weights@.len() ==> is_param(g, #[trigger] n.weights@[k])
    &&& is_param(g, n.bias)
}

/// Every parameter of the neuron is freshly initialized: a unit-interval
/// value and a zero gradient accumulator.
pub open spec fn neuron_fresh(n: Neuron, g: Seq<ValueData>) -> bool {
    &&& forall|k: int| 0 <= k < n.weights@.len() ==> is_fresh_param(g, #[trigger] n.weights@[k])
    &&& is_fresh_param(g, n.bias)
}

/// A neuron's freshly initialized parameters stay so when the graph grows.
pub proof fn lemma_neuron_fresh_extends(g: Seq<ValueData>, g2: Seq<ValueData>, n: Neuron)
    requires
        extends(g, g2),
        neuron_fresh(n, g),
    ensures
        neuron_fresh(n, g2),
{
    assert forall|k: int| 0 <= k < n.weights@.len() implies is_fresh_param(
        g2,
        #[trigger] n.weights@[k],
    ) by {
        assert(is_fresh_param(g, n.weights@[k]));
    }
}

/// What a neuron computes from input values `xv`: the weighted sum of the
/// inputs plus the bias.
pub open spec fn neuron_value(g: Seq<ValueData>, n: Neuron, xv: Seq<Scalar>) -> Scalar {
    s_add(dot_value(g, n.weights@, xv, n.weights@.len() as int), g[n.bias.id()].data)
}

/// A weighted sum reads only slots of the common prefix, so extending the
/// graph does not change it.
pub proof fn lemma_dot_value_extends(
    g: Seq<ValueData>,
    g2: Seq<ValueData>,
    ws: Seq<Value>,
    xv: Seq<Scalar>,
    k: int,
)
    requires
        extends(g, g2),
        handles_ok(ws, g.len() as int),
        k <= ws.len(),
    ensures
        dot_value(g2, ws, xv, k) == dot_value(g, ws, xv, k),
    decreases k,
{
    if k > 0 {
        lemma_dot_value_extends(g, g2, ws, xv, k - 1);
    }
}

/// A neuron's value reads only slots of the common prefix.
pub proof fn lemma_neuron_value_extends(
    g: Seq<ValueData>,
    g2: Seq<ValueData>,
    n: Neuron,
    xv: Seq<Scalar>,
)
    requires
        extends(g, g2),
        neuron_wf(n, g),
    ensures
        neuron_value(g2, n, xv) == neuron_value(g, n, xv),
{
    lemma_dot_value_extends(g, g2, n.weights@, xv, n.weights@.len() as int);
}

/// The engine's running total over freshly built product nodes equals the
/// weighted sum over the original weights and input values.
proof fn lemma_sum_matches_dot(
    g2: Seq<ValueData>,
    g: Seq<ValueData>,
    prods: Seq<Value>,
    ws: Seq<Value>,
    xv: Seq<Scalar>,
)
    requires
        prods.len() == ws.len(),
        prods.len() <= xv.len(),
        forall|j: int|
            0 <= j < prods.len() ==> 0 <= #[trigger] prods[j].id() < g2.len()
                && g2[prods[j].id()].data == s_mul(g[ws[j].id()].data, xv[j]),
    ensures
        crate::engine::sum_value(g2, prods) == dot_value(g, ws, xv, ws.len() as int),
    decreases prods.len(),
{
    if prods.len() > 0 {
        lemma_sum_matches_dot(g2, g, prods.drop_last(), ws.drop_last(), xv);
        assert(dot_value(g, ws.drop_last(), xv, ws.len() - 1) == dot_value(
            g,
            ws,
            xv,
            ws.len() - 1,
        )) by {
            lemma_dot_value_same_prefix(g, ws.drop_last(), ws, xv, ws.len() - 1);
        }
    }
}

/// The first `i` product nodes a forward step has built at `base`: product
/// `j` sits in slot `base + j` and multiplies weight `j` by input `j`.
pub open spec fn prods_built(
    g2: Seq<ValueData>,
    base: int,
    ws: Seq<Value>,
    inputs: Seq<Value>,
    prods: Seq<Value>,
    i: int,
) -> bool {
    forall|j: int|
        0 <= j < i ==> ((#[trigger] prods[j]) == Value((base + j) as usize) && g2[base + j].op
            == OpKind::Mul && g2[base + j].prev@ == seq![ws[j], inputs[j]])
}

/// The shape of the subgraph one neuron forward step builds, starting at
/// slot `base` (the graph's length before the call): one product node per
/// weight, their n-ary sum, and the sum plus the bias as the output node.
/// Product `k` depends on exactly weight `k` and input `k`, so a backward
/// pass from the output reaches precisely the weights, the bias and the
/// inputs.
pub open spec fn neuron_subgraph(
    g2: Seq<ValueData>,
    base: int,
    n: Neuron,
    inputs: Seq<Value>,
    out: Value,
) -> bool {
    let nin = n.weights@.len() as int;
    &&& 0 <= base
    &&& out.id() == base + nin + 1
    &&& out.id() < g2.len()
    &&& forall|k: int|
        0 <= k < nin ==> (#[trigger] g2[base + k].op) == OpKind::Mul && g2[base + k].prev@
            == seq![n.weights@[k], inputs[k]]
    &&& g2[base + nin].op == OpKind::Sum
    &&& g2[base + nin].prev@ == Seq::new(nin as nat, |k: int| Value((base + k) as usize))
    &&& g2[out.id()].op == OpKind::Add
    &&& g2[out.id()].prev@ == seq![Value((base + nin) as usize), n.bias]
}

/// A built neuron subgraph stays in place when the graph grows.
pub proof fn lemma_neuron_subgraph_extends(
    g1: Seq<ValueData>,
    g2: Seq<ValueData>,
    base: int,
    n: Neuron,
    inputs: Seq<Value>,
    out: Value,
)
    requires
        extends(g1, g2),
        neuron_subgraph(g1, base, n, inputs, out),
    ensures
        neuron_subgraph(g2, base, n, inputs, out),
{
    let nin = n.weights@.len() as int;
    assert forall|k: int|
        0 <= k < nin implies (#[trigger] g2[base + k].op) == OpKind::Mul && g2[base + k].prev@
        == seq![n.weights@[k], inputs[k]] by {
        assert(g2[base + k] == g1[base + k]);
    }
    assert(g2[base + nin] == g1[base + nin]);
    assert(g2[out.id()] == g1[out.id()]);
}

/// A weighted sum over the first `k` positions only reads those positions.
proof fn lemma_dot_value_same_prefix(
    g: Seq<ValueData>,
    ws1: Seq<Value>,
    ws2: Seq<Value>,
    xv: Seq<Scalar>,
    k: int,
)
    requires
        k <= ws1.len(),
        k <= ws2.len(),
        forall|j: int| 0 <= j < k ==> ws1[j] == ws2[j],
    ensures
        dot_value(g, ws1, xv, k) == dot_value(g, ws2, xv, k),
    decreases k,
{
    if k > 0 {
        lemma_dot_value_same_prefix(g, ws1, ws2, xv, k - 1);
    }
}

impl Neuron {
    /// A neuron with `nin` weight leaves and one bias leaf, their values
    /// drawn from the injected source: every parameter starts as a leaf
    /// with a unit-interval value and a zero gradient accumulator.
    #[verifier::loop_isolation(false)]
    pub fn new(g: &mut Graph, src: &mut ParamSource, nin: usize) -> (n: Neuron)
        requires
            g_wf(old(g)@),
        ensures
            g_wf(final(g)@),
            extends(old(g)@, final(g)@),
            final(g)@.len() == old(g)@.len() + nin + 1,
            n.weights@.len() == nin,
            neuron_wf(n, final(g)@),
            neuron_fresh(n, final(g)@),
    {
        let ghost g0 = g@;
        let mut weights: Vec<Value> = Vec::new();
        let mut i: usize = 0;
        while i < nin
            invariant
                g_wf(g@),
                extends(g0, g@),
                g@.len() == g0.len() + i,
                i <= nin,
                weights@.len() == i,
                forall|k: int| 0 <= k < i ==> is_fresh_param(g@, #[trigger] weights@[k]),
            decreases nin - i,
        {
            let ghost gprev = g@;
            let w = src.next_weight();
            let h = g.leaf(w);
            weights.push(h);
            proof {
                assert forall|k: int| 0 <= k < i + 1 implies is_fresh_param(
                    g@,
                    #[trigger] weights@[k],
                ) by {
                    if k < i {
                        assert(is_fresh_param(gprev, weights@[k]));
                    }
                }
            }
            i = i + 1;
        }
        let ghost gprev = g@;
        let b = src.next_weight();
        let bias = g.leaf(b);
        let id = src.fresh_id();
        let n = Neuron { weights, bias, subgraph_id: id };
        proof {
            assert forall|k: int| 0 <= k < n.weights@.len() implies is_fresh_param(
                g@,
                #[trigger] n.weights@[k],
            ) by {
                assert(is_fresh_param(gprev, n.weights@[k]));
            }
        }
        n
    }

    /// One forward step: build the products `w_i * x_i`, their n-ary sum,
    /// and the sum plus the bias, as fresh nodes; return the last. The
    /// result's data is exactly the neuron's weighted sum of the input
    /// values plus its bias.
    #[verifier::loop_isolation(false)]
    #[verifier::rlimit(100)]
    pub fn forward(&self, g: &mut Graph, inputs: &Vec<Value>) -> (out: Value)
        requires
            g_wf(old(g)@),
            neuron_wf(*self, old(g)@),
            handles_ok(inputs@, old(g)@.len() as int),
            inputs@.len() == self.weights@.len(),
        ensures
            g_wf(final(g)@),
            extends(old(g)@, final(g)@),
            old(g)@.len() <= out.id() < final(g)@.len(),
            final(g)@[out.id()].data == neuron_value(
                old(g)@,
                *self,
                datas_of(old(g)@, inputs@),
            ),
            final(g)@.len() == old(g)@.len() + self.weights@.len() + 2,
            neuron_subgraph(final(g)@, old(g)@.len() as int, *self, inputs@, out),
    {
        let ghost g0 = g@;
        let ghost xv = datas_of(old(g)@, inputs@);
        let mut prods: Vec<Value> = Vec::new();
        let mut i: usize = 0;
        let nin = self.weights.len();
        while i < nin
            invariant
                g_wf(g@),
                extends(g0, g@),
                g@.len() == g0.len() + i,
                i <= nin,
                nin == self.weights@.len(),
                prods@.len() == i,
                forall|j: int|
                    0 <= j < i ==> 0 <= #[trigger] prods@[j].id() < g@.len()
                        && g@[prods@[j].id()].data == s_mul(
                        g0[self.weights@[j].id()].data,
                        xv[j],
                    ),
                prods_built(g@, g0.len() as int, self.weights@, inputs@, prods@, i as int),
            decreases nin - i,
        {
            let ghost gprev = g@;
            let w = self.weights[i];
            let x = inputs[i];
            proof {
                assert(is_param(g0, self.weights@[i as int]));
                assert(xv[i as int] == g0[x.id()].data);
            }
            let ghost prodsprev = prods@;
            let p = g.mul(w, x);
            prods.push(p);
            proof {
                assert forall|j: int|
                    0 <= j < i + 1 implies 0 <= #[trigger] prods@[j].id() < g@.len()
                        && g@[prods@[j].id()].data == s_mul(
                        g0[self.weights@[j].id()].data,
                        xv[j],
                    ) by {
                    if j < i {
                        assert(0 <= prods@[j].id() < gprev.len());
                        assert(gprev[prods@[j].id()].data == s_mul(
                            g0[self.weights@[j].id()].data,
                            xv[j],
                        ));
                    }
                }
                let base = g0.len() as int;
                assert forall|j: int|
                    0 <= j < i + 1 implies ((#[trigger] prods@[j]) == Value((base + j) as usize)
                        && g@[base + j].op == OpKind::Mul && g@[base + j].prev@
                        == seq![self.weights@[j], inputs@[j]]) by {
                    if j < i {
                        assert(prods@[j] == prodsprev[j]);
                        assert(prodsprev[j] == Value((base + j) as usize));
                        assert(g@[base + j] == gprev[base + j]);
                        assert(gprev[base + j].op == OpKind::Mul && gprev[base + j].prev@
                            == seq![self.weights@[j], inputs@[j]]);
                    } else {
                        assert(prods@[j] == p);
                        assert(p.id() == gprev.len());
                        assert(p.0 as int == base + j);
                        assert(p == Value((base + j) as usize));
                        assert(g@[base + j].op == OpKind::Mul);
                        assert(g@[base + j].prev@ == seq![self.weights@[j], inputs@[j]]);
                    }
                }
                assert(prods_built(g@, base, self.weights@, inputs@, prods@, i + 1));
            }
            i = i + 1;
        }
        let ghost gprods = g@;
        let total = g.sum(&prods);
        proof {
            lemma_sum_matches_dot(gprods, g0, prods@, self.weights@, xv);
            assert(prods@ =~= Seq::new(nin as nat, |k: int| Value((g0.len() + k) as usize)));
        }
        let ghost gsum = g@;
        let out = g.add(total, self.bias);
        proof {
            assert(g@[out.id()].data == s_add(
                dot_value(g0, self.weights@, xv, self.weights@.len() as int),
                g0[self.bias.id()].data,
            ));
            // the built shape: the products, their sum, and the output node
            let base = g0.len() as int;
            assert(total == Value((base + nin) as usize));
            assert(g@[base + nin] == gsum[base + nin]);
            assert forall|k: int|
                0 <= k < nin as int implies (#[trigger] g@[base + k].op) == OpKind::Mul && g@[
                base + k].prev@ == seq![self.weights@[k], inputs@[k]] by {
                assert(prods@[k] == Value((g0.len() + k) as usize));
                assert(gprods[base + k].op == OpKind::Mul && gprods[base + k].prev@
                    == seq![self.weights@[k], inputs@[k]]);
                assert(gsum[base + k] == gprods[base + k]);
                assert(g@[base + k] == gsum[base + k]);
            }
            assert(neuron_subgraph(g@, base, *self, inputs@, out));
        }
        out
    }

    /// Shared handles to this neuron's parameters: the weights, in order,
    /// then the bias.
    pub fn parameters(&self) -> (ps: Vec<Value>)
        ensures
            ps@ == self.weights@.push(self.bias),
    {
        let mut ps = self.weights.clone();
        ps.push(self.bias);
        proof {
            assert(ps@ =~= self.weights@.push(self.bias));
        }
        ps
    }

    /// This neuron's subgraph, a tree of one node.
    pub fn get_subgraph_tree(&self) -> (t: SubgraphTreeNode)
        ensures
            t.subgraph_id == self.subgraph_id,
            t.children@.len() == 0,
    {
        SubgraphTreeNode { subgraph_id: self.subgraph_id, children: Vec::new() }
    }
}

/// The parameters of a list of neurons: each neuron's weights then bias,
/// in neuron order.
pub open spec fn neurons_params(ns: Seq<Neuron>) -> Seq<Value>
    decreases ns.len(),
{
    if ns.len() == 0 {
        Seq::empty()
    } else {
        neurons_params(ns.drop_last()) + ns.last().weights@.push(ns.last().bias)
    }
}

/// Every handle among a list of neurons' parameters is a parameter leaf.
pub proof fn lemma_neurons_params_ok(ns: Seq<Neuron>, g: Seq<ValueData>)
    requires
        forall|k: int| 0 <= k < ns.len() ==> neuron_wf(#[trigger] ns[k], g),
    ensures
        forall|j: int|
            0 <= j < neurons_params(ns).len() ==> is_param(g, #[trigger] neurons_params(ns)[j]),
    decreases ns.len(),
{
    if ns.len() > 0 {
        lemma_neurons_params_ok(ns.drop_last(), g);
        let w = ns.last().weights@;
        let tail = w.push(ns.last().bias);
        assert(neuron_wf(ns.last(), g));
        assert forall|j: int|
            0 <= j < neurons_params(ns).len() implies is_param(
            g,
            #[trigger] neurons_params(ns)[j],
        ) by {
            let front = neurons_params(ns.drop_last());
            if j < front.len() {
                assert(neurons_params(ns)[j] == front[j]);
            } else {
                assert(neurons_params(ns)[j] == tail[j - front.len()]);
                if j - front.len() < w.len() {
                    assert(is_param(g, w[j - front.len()]));
                }
            }
        }
    }
}

/// A layer: an ordered list of neurons sharing one input arity.
#[derive(Debug)]
pub struct Layer {
    pub neurons: Vec<Neuron>,
    pub subgraph_id: u64,
}

/// Every neuron of the layer holds parameter leaves of `g`.
pub open spec fn layer_wf(l: Layer, g: Seq<ValueData>) -> bool {
    forall|k: int| 0 <= k < l.neurons@.len() ==> neuron_wf(#[trigger] l.neurons@[k], g)
}

/// Every parameter of the layer is freshly initialized.
pub open spec fn layer_fresh(l: Layer, g: Seq<ValueData>) -> bool {
    forall|k: int| 0 <= k < l.neurons@.len() ==> neuron_fresh(#[trigger] l.neurons@[k], g)
}

/// A layer's freshly initialized parameters stay so when the graph grows.
pub proof fn lemma_layer_fresh_extends(g: Seq<ValueData>, g2: Seq<ValueData>, l: Layer)
    requires
        extends(g, g2),
        layer_fresh(l, g),
    ensures
        layer_fresh(l, g2),
{
    assert forall|k: int| 0 <= k < l.neurons@.len() implies neuron_fresh(
        #[trigger] l.neurons@[k],
        g2,
    ) by {
        lemma_neuron_fresh_extends(g, g2, l.neurons@[k]);
    }
}

/// Every neuron of the layer takes `nin` inputs.
pub open spec fn layer_arity_is(l: Layer, nin: int) -> bool {
    forall|k: int| 0 <= k < l.neurons@.len() ==> #[trigger] l.neurons@[k].weights@.len() == nin
}

/// What a layer computes from input values `xv`: one value per neuron, the
/// same inputs broadcast to each.
pub open spec fn layer_values(g: Seq<ValueData>, l: Layer, xv: Seq<Scalar>) -> Seq<Scalar> {
    Seq::new(l.neurons@.len() as nat, |j: int| neuron_value(g, l.neurons@[j], xv))
}

/// A layer's values read only slots of the common prefix.
pub proof fn lemma_layer_values_extends(
    g: Seq<ValueData>,
    g2: Seq<ValueData>,
    l: Layer,
    xv: Seq<Scalar>,
)
    requires
        extends(g, g2),
        layer_wf(l, g),
    ensures
        layer_values(g2, l, xv) == layer_values(g, l, xv),
{
    assert forall|j: int|
        0 <= j < l.neurons@.len() implies neuron_value(g2, #[trigger] l.neurons@[j], xv)
        == neuron_value(g, l.neurons@[j], xv) by {
        lemma_neuron_value_extends(g, g2, l.neurons@[j], xv);
    }
    assert(layer_values(g2, l, xv) =~= layer_values(g, l, xv));
}

/// Each output is the output node of one neuron's forward step on the same
/// inputs, in neuron order: the subgraph behind output `j` starts right
/// below it and multiplies neuron `j`'s weights with the inputs.
pub open spec fn layer_outputs_of(
    g2: Seq<ValueData>,
    l: Layer,
    inputs: Seq<Value>,
    outs: Seq<Value>,
) -> bool {
    &&& outs.len() == l.neurons@.len()
    &&& forall|j: int|
        0 <= j < outs.len() ==> neuron_subgraph(
            g2,
            (#[trigger] outs[j]).id() - l.neurons@[j].weights@.len() - 1,
            l.neurons@[j],
            inputs,
            outs[j],
        )
}

/// A layer's built outputs stay in place when the graph grows.
pub proof fn lemma_layer_outputs_extends(
    g1: Seq<ValueData>,
    g2: Seq<ValueData>,
    l: Layer,
    inputs: Seq<Value>,
    outs: Seq<Value>,
)
    requires
        extends(g1, g2),
        layer_outputs_of(g1, l, inputs, outs),
    ensures
        layer_outputs_of(g2, l, inputs, outs),
{
    assert forall|j: int|
        0 <= j < outs.len() implies neuron_subgraph(
        g2,
        (#[trigger] outs[j]).id() - l.neurons@[j].weights@.len() - 1,
        l.neurons@[j],
        inputs,
        outs[j],
    ) by {
        lemma_neuron_subgraph_extends(
            g1,
            g2,
            outs[j].id() - l.neurons@[j].weights@.len() - 1,
            l.neurons@[j],
            inputs,
            outs[j],
        );
    }
}

/// A neuron's parameter handles stay parameter leaves when the graph grows.
pub proof fn lemma_neuron_wf_extends(g: Seq<ValueData>, g2: Seq<ValueData>, n: Neuron)
    requires
        extends(g, g2),
        neuron_wf(n, g),
    ensures
        neuron_wf(n, g2),
{
    assert forall|k: int| 0 <= k < n.weights@.len() implies is_param(
        g2,
        #[trigger] n.weights@[k],
    ) by {
        assert(is_param(g, n.weights@[k]));
    }
}

impl Layer {
    /// A layer of `nout` neurons, each with `nin` weight leaves and one
    /// bias leaf drawn from the injected source; every parameter starts
    /// freshly initialized.
    #[verifier::loop_isolation(false)]
    pub fn new(g: &mut Graph, src: &mut ParamSource, nin: usize, nout: usize) -> (l: Layer)
        requires
            g_wf(old(g)@),
        ensures
            g_wf(final(g)@),
            extends(old(g)@, final(g)@),
            l.neurons@.len() == nout,
            layer_wf(l, final(g)@),
            layer_fresh(l, final(g)@),
            layer_arity_is(l, nin as int),
    {
        let ghost g0 = g@;
        let id = src.fresh_id();
        let mut neurons: Vec<Neuron> = Vec::new();
        let mut i: usize = 0;
        while i < nout
            invariant
                g_wf(g@),
                extends(g0, g@),
                i <= nout,
                neurons@.len() == i,
                forall|k: int|
                    0 <= k < i ==> neuron_wf(#[trigger] neurons@[k], g@)
                        && neuron_fresh(neurons@[k], g@)
                        && neurons@[k].weights@.len() == nin,
            decreases nout - i,
        {
            let ghost gprev = g@;
            let n = Neuron::new(g, src, nin);
            neurons.push(n);
            proof {
                assert forall|k: int| 0 <= k < i + 1 implies neuron_wf(
                    #[trigger] neurons@[k],
                    g@,
                ) && neuron_fresh(neurons@[k], g@) && neurons@[k].weights@.len() == nin by {
                    if k < i {
                        lemma_neuron_wf_extends(gprev, g@, neurons@[k]);
                        lemma_neuron_fresh_extends(gprev, g@, neurons@[k]);
                    }
                }
            }
            i = i + 1;
        }
        Layer { neurons, subgraph_id: id }
    }

    /// One forward step: broadcast the same inputs to every neuron, in
    /// order, and return one output handle per neuron. The outputs' data
    /// are exactly the layer's values on the inputs' data.
    #[verifier::loop_isolation(false)]
    pub fn forward(&self, g: &mut Graph, inputs: &Vec<Value>) -> (outs: Vec<Value>)
        requires
            g_wf(old(g)@),
            layer_wf(*self, old(g)@),
            layer_arity_is(*self, inputs@.len() as int),
            handles_ok(inputs@, old(g)@.len() as int),
        ensures
            g_wf(final(g)@),
            extends(old(g)@, final(g)@),
            outs@.len() == self.neurons@.len(),
            handles_ok(outs@, final(g)@.len() as int),
            forall|j: int| 0 <= j < outs@.len() ==> #[trigger] outs@[j].id() >= old(g)@.len(),
            datas_of(final(g)@, outs@) == layer_values(
                old(g)@,
                *self,
                datas_of(old(g)@, inputs@),
            ),
            layer_outputs_of(final(g)@, *self, inputs@, outs@),
    {
        let ghost g0 = g@;
        let ghost xv = datas_of(old(g)@, inputs@);
        let mut outs: Vec<Value> = Vec::new();
        let mut i: usize = 0;
        let nout = self.neurons.len();
        while i < nout
            invariant
                g_wf(g@),
                extends(g0, g@),
                i <= nout,
                outs@.len() == i,
                forall|j: int|
                    0 <= j < i ==> g0.len() <= #[trigger] outs@[j].id() < g@.len()
                        && g@[outs@[j].id()].data == neuron_value(g0, self.neurons@[j], xv),
                forall|j: int|
                    0 <= j < i ==> neuron_subgraph(
                        g@,
                        (#[trigger] outs@[j]).id() - self.neurons@[j].weights@.len() - 1,
                        self.neurons@[j],
                        inputs@,
                        outs@[j],
                    ),
            decreases nout - i,
        {
            let ghost gprev = g@;
            proof {
                assert(neuron_wf(self.neurons@[i as int], g0));
                lemma_neuron_wf_extends(g0, g@, self.neurons@[i as int]);
                assert(datas_of(g@, inputs@) =~= xv);
            }
            let out = self.neurons[i].forward(g, inputs);
            let ghost outsprev = outs@;
            outs.push(out);
            proof {
                lemma_neuron_value_extends(gprev, g@, self.neurons@[i as int], xv);
                assert(neuron_value(gprev, self.neurons@[i as int], xv) == neuron_value(
                    g0,
                    self.neurons@[i as int],
                    xv,
                )) by {
                    lemma_neuron_value_extends(g0, gprev, self.neurons@[i as int], xv);
                }
                assert forall|j: int|
                    0 <= j < i + 1 implies g0.len() <= #[trigger] outs@[j].id() < g@.len()
                        && g@[outs@[j].id()].data == neuron_value(
                        g0,
                        self.neurons@[j],
                        xv,
                    ) by {
                    if j < i {
                        assert(g0.len() <= outs@[j].id() < gprev.len());
                        assert(gprev[outs@[j].id()].data == neuron_value(
                            g0,
                            self.neurons@[j],
                            xv,
                        ));
                    }
                }
                assert forall|j: int|
                    0 <= j < i + 1 implies neuron_subgraph(
                    g@,
                    (#[trigger] outs@[j]).id() - self.neurons@[j].weights@.len() - 1,
                    self.neurons@[j],
                    inputs@,
                    outs@[j],
                ) by {
                    if j < i {
                        assert(outs@[j] == outsprev[j]);
                        assert(neuron_subgraph(
                            gprev,
                            outsprev[j].id() - self.neurons@[j].weights@.len() - 1,
                            self.neurons@[j],
                            inputs@,
                            outsprev[j],
                        ));
                        lemma_neuron_subgraph_extends(
                            gprev,
                            g@,
                            outs@[j].id() - self.neurons@[j].weights@.len() - 1,
                            self.neurons@[j],
                            inputs@,
                            outs@[j],
                        );
                    } else {
                        assert(neuron_subgraph(
                            g@,
                            gprev.len() as int,
                            self.neurons@[j],
                            inputs@,
                            out,
                        ));
                        assert(out.id() - self.neurons@[j].weights@.len() - 1
                            == gprev.len() as int);
                    }
                }
            }
            i = i + 1;
        }
        proof {
            assert(datas_of(g@, outs@) =~= layer_values(g0, *self, xv));
        }
        outs
    }

    /// Shared handles to all the layer's parameters, in neuron order.
    #[verifier::loop_isolation(false)]
    pub fn parameters(&self) -> (ps: Vec<Value>)
        ensures
            ps@ == neurons_params(self.neurons@),
    {
        let mut ps: Vec<Value> = Vec::new();
        let mut i: usize = 0;
        while i < self.neurons.len()
            invariant
                i <= self.neurons@.len(),
                ps@ == neurons_params(self.neurons@.take(i as int)),
            decreases self.neurons@.len() - i,
        {
            let mut np = self.neurons[i].parameters();
            ps.append(&mut np);
            proof {
                assert(self.neurons@.take(i + 1).drop_last() =~= self.neurons@.take(i as int));
                assert(self.neurons@.take(i + 1).last() == self.neurons@[i as int]);
            }
            i = i + 1;
        }
        proof {
            assert(self.neurons@.take(self.neurons@.len() as int) =~= self.neurons@);
        }
        ps
    }

    /// This layer's subgraph: its identifier, with one child per neuron.
    #[verifier::loop_isolation(false)]
    pub fn get_subgraph_tree(&self) -> (t: SubgraphTreeNode)
        ensures
            t.subgraph_id == self.subgraph_id,
            t.children@.len() == self.neurons@.len(),
            forall|j: int|
                0 <= j < self.neurons@.len() ==> #[trigger] t.children@[j].subgraph_id
                    == self.neurons@[j].subgraph_id,
    {
        let mut children: Vec<SubgraphTreeNode> = Vec::new();
        let mut i: usize = 0;
        while i < self.neurons.len()
            invariant
                i <= self.neurons@.len(),
                children@.len() == i,
                forall|j: int|
                    0 <= j < i ==> #[trigger] children@[j].subgraph_id
                        == self.neurons@[j].subgraph_id,
            decreases self.neurons@.len() - i,
        {
            children.push(self.neurons[i].get_subgraph_tree());
            i = i + 1;
        }
        SubgraphTreeNode { subgraph_id: self.subgraph_id, children }
    }
}

/// A multilayer perceptron: layers chained so that each layer's output
/// arity is the next layer's input arity.
#[derive(Debug)]
pub struct MLP {
    pub layers: Vec<Layer>,
    pub subgraph_id: u64,
}

/// Every layer of the perceptron holds parameter leaves of `g`.
pub open spec fn mlp_wf(m: MLP, g: Seq<ValueData>) -> bool {
    forall|k: int| 0 <= k < m.layers@.len() ==> layer_wf(#[trigger] m.layers@[k], g)
}

/// Every parameter of the perceptron is freshly initialized: unit-interval
/// values and zero gradient accumulators.
pub open spec fn mlp_fresh(m: MLP, g: Seq<ValueData>) -> bool {
    forall|k: int| 0 <= k < m.layers@.len() ==> layer_fresh(#[trigger] m.layers@[k], g)
}

/// The chained arities: the first layer takes `nin` inputs; every later
/// layer takes the previous layer's outputs.
pub open spec fn mlp_arities(m: MLP, nin: int) -> bool {
    forall|k: int|
        0 <= k < m.layers@.len() ==> layer_arity_is(
            #[trigger] m.layers@[k],
            if k == 0 {
                nin
            } else {
                m.layers@[k - 1].neurons@.len() as int
            },
        )
}

/// The values after piping `xv` through the first `i` layers, in order.
pub open spec fn pipe_values(g: Seq<ValueData>, ls: Seq<Layer>, xv: Seq<Scalar>, i: int) -> Seq<
    Scalar,
>
    decreases i,
{
    if i <= 0 {
        xv
    } else {
        layer_values(g, ls[i - 1], pipe_values(g, ls, xv, i - 1))
    }
}

/// What the perceptron computes from input values `xv`.
pub open spec fn mlp_value(g: Seq<ValueData>, m: MLP, xv: Seq<Scalar>) -> Seq<Scalar> {
    pipe_values(g, m.layers@, xv, m.layers@.len() as int)
}

/// The last stage of a perceptron forward pass, witnessed by the handles
/// `mid` that fed the final layer: their data are the values piped through
/// every earlier layer, and the outputs are the final layer's neuron
/// outputs built on them.
pub open spec fn mlp_last_stage(
    g: Seq<ValueData>,
    g2: Seq<ValueData>,
    m: MLP,
    xv: Seq<Scalar>,
    outs: Seq<Value>,
    mid: Seq<Value>,
) -> bool {
    &&& handles_ok(mid, g2.len() as int)
    &&& datas_of(g2, mid) == pipe_values(g, m.layers@, xv, m.layers@.len() - 1)
    &&& layer_outputs_of(g2, m.layers@.last(), mid, outs)
}

/// The parameters of a list of layers, flattened in layer order.
pub open spec fn layers_params(ls: Seq<Layer>) -> Seq<Value>
    decreases ls.len(),
{
    if ls.len() == 0 {
        Seq::empty()
    } else {
        layers_params(ls.drop_last()) + neurons_params(ls.last().neurons@)
    }
}

/// Every handle among a list of layers' parameters is a parameter leaf.
pub proof fn lemma_layers_params_ok(ls: Seq<Layer>, g: Seq<ValueData>)
    requires
        forall|k: int| 0 <= k < ls.len() ==> layer_wf(#[trigger] ls[k], g),
    ensures
        forall|j: int|
            0 <= j < layers_params(ls).len() ==> is_param(g, #[trigger] layers_params(ls)[j]),
    decreases ls.len(),
{
    if ls.len() > 0 {
        lemma_layers_params_ok(ls.drop_last(), g);
        assert(layer_wf(ls.last(), g));
        lemma_neurons_params_ok(ls.last().neurons@, g);
        assert forall|j: int|
            0 <= j < layers_params(ls).len() implies is_param(
            g,
            #[trigger] layers_params(ls)[j],
        ) by {
            let front = layers_params(ls.drop_last());
            if j < front.len() {
                assert(layers_params(ls)[j] == front[j]);
            } else {
                assert(layers_params(ls)[j] == neurons_params(ls.last().neurons@)[j
                    - front.len()]);
            }
        }
    }
}

/// A layer's parameter handles stay parameter leaves when the graph grows.
pub proof fn lemma_layer_wf_extends(g: Seq<ValueData>, g2: Seq<ValueData>, l: Layer)
    requires
        extends(g, g2),
        layer_wf(l, g),
    ensures
        layer_wf(l, g2),
{
    assert forall|k: int| 0 <= k < l.neurons@.len() implies neuron_wf(
        #[trigger] l.neurons@[k],
        g2,
    ) by {
        lemma_neuron_wf_extends(g, g2, l.neurons@[k]);
    }
}

/// Piped values read only slots of the common prefix.
pub proof fn lemma_pipe_values_extends(
    g: Seq<ValueData>,
    g2: Seq<ValueData>,
    ls: Seq<Layer>,
    xv: Seq<Scalar>,
    i: int,
)
    requires
        extends(g, g2),
        forall|k: int| 0 <= k < ls.len() ==> layer_wf(#[trigger] ls[k], g),
        i <= ls.len(),
    ensures
        pipe_values(g2, ls, xv, i) == pipe_values(g, ls, xv, i),
    decreases i,
{
    if i > 0 {
        lemma_pipe_values_extends(g, g2, ls, xv, i - 1);
        lemma_layer_values_extends(g, g2, ls[i - 1], pipe_values(g, ls, xv, i - 1));
    }
}

impl MLP {
    /// A perceptron with input arity `nin` and one layer per entry of
    /// `nouts`, chained in order; every parameter starts freshly
    /// initialized.
    #[verifier::loop_isolation(false)]
    pub fn new(g: &mut Graph, src: &mut ParamSource, nin: usize, nouts: &Vec<usize>) -> (m: MLP)
        requires
            g_wf(old(g)@),
        ensures
            g_wf(final(g)@),
            extends(old(g)@, final(g)@),
            m.layers@.len() == nouts@.len(),
            forall|k: int|
                0 <= k < nouts@.len() ==> #[trigger] m.layers@[k].neurons@.len() == nouts@[k],
            mlp_wf(m, final(g)@),
            mlp_fresh(m, final(g)@),
            mlp_arities(m, nin as int),
    {
        let ghost g0 = g@;
        let id = src.fresh_id();
        let mut layers: Vec<Layer> = Vec::new();
        let mut prev: usize = nin;
        let mut i: usize = 0;
        while i < nouts.len()
            invariant
                g_wf(g@),
                extends(g0, g@),
                i <= nouts@.len(),
                layers@.len() == i,
                prev == (if i == 0 { nin as int } else { nouts@[i - 1] as int }),
                forall|k: int| 0 <= k < i ==> #[trigger] layers@[k].neurons@.len() == nouts@[k],
                forall|k: int|
                    0 <= k < i ==> layer_wf(#[trigger] layers@[k], g@) && layer_fresh(
                        layers@[k],
                        g@,
                    ),
                forall|k: int|
                    0 <= k < i ==> layer_arity_is(
                        #[trigger] layers@[k],
                        if k == 0 {
                            nin as int
                        } else {
                            layers@[k - 1].neurons@.len() as int
                        },
                    ),
            decreases nouts@.len() - i,
        {
            let ghost gprev = g@;
            let nout = nouts[i];
            let l = Layer::new(g, src, prev, nout);
            layers.push(l);
            proof {
                assert forall|k: int| 0 <= k < i + 1 implies layer_wf(
                    #[trigger] layers@[k],
                    g@,
                ) && layer_fresh(layers@[k], g@) by {
                    if k < i {
                        lemma_layer_wf_extends(gprev, g@, layers@[k]);
                        lemma_layer_fresh_extends(gprev, g@, layers@[k]);
                    }
                }
            }
            prev = nout;
            i = i + 1;
        }
        MLP { layers, subgraph_id: id }
    }

    /// One forward step: pipe the inputs through the layers in order and
    /// return the last layer's outputs (the inputs themselves if there are
    /// no layers). The outputs' data are exactly the perceptron's values on
    /// the inputs' data, and the outputs are the final layer's neuron
    /// outputs, built on intermediate handles carrying the piped values.
    #[verifier::loop_isolation(false)]
    #[verifier::rlimit(50)]
    pub fn forward(&self, g: &mut Graph, inputs: &Vec<Value>) -> (outs: Vec<Value>)
        requires
            g_wf(old(g)@),
            mlp_wf(*self, old(g)@),
            mlp_arities(*self, inputs@.len() as int),
            handles_ok(inputs@, old(g)@.len() as int),
        ensures
            g_wf(final(g)@),
            extends(old(g)@, final(g)@),
            outs@.len() == (if self.layers@.len() == 0 {
                inputs@.len() as int
            } else {
                self.layers@[self.layers@.len() - 1].neurons@.len() as int
            }),
            handles_ok(outs@, final(g)@.len() as int),
            datas_of(final(g)@, outs@) == mlp_value(old(g)@, *self, datas_of(old(g)@, inputs@)),
            self.layers@.len() > 0 ==> exists|mid: Seq<Value>|
                mlp_last_stage(
                    old(g)@,
                    final(g)@,
                    *self,
                    datas_of(old(g)@, inputs@),
                    outs@,
                    mid,
                ),
    {
        let ghost g0 = g@;
        let ghost xv = datas_of(old(g)@, inputs@);
        let ghost mut mid: Seq<Value> = Seq::empty();
        let mut cur: Vec<Value> = inputs.clone();
        let mut i: usize = 0;
        proof {
            assert(datas_of(g@, cur@) =~= pipe_values(g0, self.layers@, xv, 0));
        }
        while i < self.layers.len()
            invariant
                g_wf(g@),
                extends(g0, g@),
                i <= self.layers@.len(),
                handles_ok(cur@, g@.len() as int),
                cur@.len() == (if i == 0 {
                    inputs@.len() as int
                } else {
                    self.layers@[i - 1].neurons@.len() as int
                }),
                datas_of(g@, cur@) == pipe_values(g0, self.layers@, xv, i as int),
                i > 0 ==> handles_ok(mid, g@.len() as int) && datas_of(g@, mid)
                    == pipe_values(g0, self.layers@, xv, i - 1) && layer_outputs_of(
                    g@,
                    self.layers@[i - 1],
                    mid,
                    cur@,
                ),
            decreases self.layers@.len() - i,
        {
            let ghost gprev = g@;
            let ghost curprev = cur@;
            proof {
                assert(layer_wf(self.layers@[i as int], g0));
                lemma_layer_wf_extends(g0, g@, self.layers@[i as int]);
            }
            let next = self.layers[i].forward(g, &cur);
            proof {
                let pv = pipe_values(g0, self.layers@, xv, i as int);
                assert(layer_values(gprev, self.layers@[i as int], pv) == layer_values(
                    g0,
                    self.layers@[i as int],
                    pv,
                )) by {
                    lemma_layer_values_extends(g0, gprev, self.layers@[i as int], pv);
                }
                mid = curprev;
                assert(datas_of(g@, mid) =~= datas_of(gprev, mid)) by {
                    assert forall|k: int|
                        0 <= k < mid.len() implies #[trigger] datas_of(g@, mid)[k] == datas_of(
                        gprev,
                        mid,
                    )[k] by {
                        assert(mid[k].id() < gprev.len());
                        assert(g@[mid[k].id()] == gprev[mid[k].id()]);
                    }
                }
            }
            cur = next;
            i = i + 1;
        }
        proof {
            if self.layers@.len() > 0 {
                assert(self.layers@.last() == self.layers@[self.layers@.len() - 1]);
                assert(mlp_last_stage(g0, g@, *self, xv, cur@, mid));
            }
        }
        cur
    }

    /// Shared handles to every parameter of the perceptron, flattened in
    /// layer-then-neuron order.
    #[verifier::loop_isolation(false)]
    pub fn parameters(&self) -> (ps: Vec<Value>)
        ensures
            ps@ == layers_params(self.layers@),
    {
        let mut ps: Vec<Value> = Vec::new();
        let mut i: usize = 0;
        while i < self.layers.len()
            invariant
                i <= self.layers@.len(),
                ps@ == layers_params(self.layers@.take(i as int)),
            decreases self.layers@.len() - i,
        {
            let mut lp = self.layers[i].parameters();
            ps.append(&mut lp);
            proof {
                assert(self.layers@.take(i + 1).drop_last() =~= self.layers@.take(i as int));
                assert(self.layers@.take(i + 1).last() == self.layers@[i as int]);
            }
            i = i + 1;
        }
        proof {
            assert(self.layers@.take(self.layers@.len() as int) =~= self.layers@);
        }
        ps
    }

    /// Reset every parameter's gradient accumulator to zero. This must run
    /// before each training iteration's backward pass: gradients only ever
    /// accumulate, so stale ones would compound. No data, operator or
    /// dependency list changes, and no other node's gradient changes.
    #[verifier::loop_isolation(false)]
    pub fn zero_grad(&self, g: &mut Graph)
        requires
            g_wf(old(g)@),
            mlp_wf(*self, old(g)@),
        ensures
            g_wf(final(g)@),
            same_shape(old(g)@, final(g)@),
            forall|k: int|
                0 <= k < layers_params(self.layers@).len()
                    ==> #[trigger] final(g)@[layers_params(self.layers@)[k].id()].grad
                    == s_zero(),
            forall|j: int|
                0 <= j < old(g)@.len() && (forall|k: int|
                    0 <= k < layers_params(self.layers@).len() ==> #[trigger] layers_params(
                        self.layers@,
                    )[k].id() != j) ==> final(g)@[j].grad == old(g)@[j].grad,
    {
        let ghost g0 = g@;
        let ghost pars = layers_params(self.layers@);
        let ps = self.parameters();
        proof {
            lemma_layers_params_ok(self.layers@, g0);
        }
        let mut i: usize = 0;
        while i < ps.len()
            invariant
                g_wf(g@),
                i <= ps@.len(),
                same_shape(g0, g@),
                forall|k: int| 0 <= k < i ==> #[trigger] g@[pars[k].id()].grad == s_zero(),
                forall|j: int|
                    0 <= j < g0.len() && (forall|k: int|
                        0 <= k < i ==> #[trigger] pars[k].id() != j) ==> g@[j].grad
                        == g0[j].grad,
            decreases ps@.len() - i,
        {
            let p = ps[i];
            proof {
                assert(is_param(g0, pars[i as int]));
            }
            let ghost gprev = g@;
            g.reset_grad(p);
            proof {
                assert(0 <= p.id() < gprev.len());
                assert(g@.len() == gprev.len());
                assert(gprev.len() == g0.len());
                assert forall|j: int|
                    0 <= j < g0.len() implies ((#[trigger] g@[j]).data == g0[j].data
                        && g@[j].op == g0[j].op && g@[j].prev@ == g0[j].prev@) by {
                    assert(same_shape(g0, gprev));
                    assert(gprev[j].data == g0[j].data && gprev[j].op == g0[j].op
                        && gprev[j].prev@ == g0[j].prev@);
                    if j != p.id() {
                        assert(g@[j] == gprev[j]);
                    } else {
                        assert(g@[j] == (ValueData { grad: s_zero(), ..gprev[j] }));
                    }
                }
                assert(same_shape(g0, g@));
                assert forall|j: int|
                    0 <= j < g0.len() && (forall|k: int|
                        0 <= k < i + 1 ==> #[trigger] pars[k].id() != j) implies g@[j].grad
                        == g0[j].grad by {
                    assert(pars[i as int].id() != j);
                    assert(g@[j] == gprev[j]);
                }
            }
            i = i + 1;
        }
    }

    /// This perceptron's subgraph: its identifier, with one child per
    /// layer and one grandchild per neuron.
    #[verifier::loop_isolation(false)]
    pub fn get_subgraph_tree(&self) -> (t: SubgraphTreeNode)
        ensures
            t.subgraph_id == self.subgraph_id,
            t.children@.len() == self.layers@.len(),
            forall|j: int|
                0 <= j < self.layers@.len() ==> #[trigger] t.children@[j].subgraph_id
                    == self.layers@[j].subgraph_id && t.children@[j].children@.len()
                    == self.layers@[j].neurons@.len(),
    {
        let mut children: Vec<SubgraphTreeNode> = Vec::new();
        let mut i: usize = 0;
        while i < self.layers.len()
            invariant
                i <= self.layers@.len(),
                children@.len() == i,
                forall|j: int|
                    0 <= j < i ==> #[trigger] children@[j].subgraph_id
                        == self.layers@[j].subgraph_id && children@[j].children@.len()
                        == self.layers@[j].neurons@.len(),
            decreases self.layers@.len() - i,
        {
            children.push(self.layers[i].get_subgraph_tree());
            i = i + 1;
        }
        SubgraphTreeNode { subgraph_id: self.subgraph_id, children }
    }
}

} // verus!
