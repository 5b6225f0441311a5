//! The node store and the operator library.
//!
//! A `Graph` owns every node of a computation. A node is created either as
//! a leaf or by applying an operator to existing nodes; its dependency
//! handles always name earlier arena slots, so the graph is acyclic by
//! construction and a node is never edited after creation, apart from
//! gradient accumulation during a backward pass.

use vstd::prelude::*;

use crate::scalar::Scalar;
use crate::scalar::s_add;
use crate::scalar::s_div;
use crate::scalar::s_mul;
use crate::scalar::s_pow;
use crate::scalar::s_relu;
use crate::scalar::s_sub;
use crate::scalar::s_tanh;
use crate::scalar::s_wf;
use crate::scalar::s_zero;

verus! {

/// A handle naming one node: the index of its arena slot. Slot indices are
/// stable and totally ordered, which makes them the node's identity.
#[derive(Clone, Copy, Debug, PartialEq, Eq, Structural)]
pub struct Value(pub usize);

impl Value {
    /// The arena slot this handle names.
    pub open spec fn id(self) -> int {
        self.0 as int
    }
}

/// The operator that produced a node; leaves carry no operator.
#[derive(Clone, Copy, Debug, PartialEq, Eq, Structural)]
pub enum OpKind {
    Leaf,
    Add,
    Sub,
    Mul,
    Div,
    Pow,
    Relu,
    Tanh,
    Sum,
}

/// One node: a scalar result, its gradient accumulator, the operator that
/// produced it, and the handles of the nodes it was computed from.
#[derive(Debug)]
pub struct ValueData {
    pub data: Scalar,
    pub grad: Scalar,
    pub op: OpKind,
    pub prev: Vec<Value>,
}

/// The arena that owns all nodes of one computation graph.
#[derive(Debug)]
pub struct Graph {
    pub nodes: Vec<ValueData>,
}

impl View for Graph {
    type V = Seq<ValueData>;

    open spec fn view(&self) -> Seq<ValueData> {
        self.nodes@
    }
}

/// How many dependencies each operator takes.
pub open spec fn op_arity_ok(op: OpKind, n: nat) -> bool {
    match op {
        OpKind::Leaf => n == 0,
        OpKind::Add => n == 2,
        OpKind::Sub => n == 2,
        OpKind::Mul => n == 2,
        OpKind::Div => n == 2,
        OpKind::Pow => n == 2,
        OpKind::Relu => n == 1,
        OpKind::Tanh => n == 1,
        OpKind::Sum => true,
    }
}

/// A well-formed node at slot `i`: well-formed scalars, the declared
/// operator arity, and dependencies that only name earlier slots.
pub open spec fn node_wf(n: ValueData, i: int) -> bool {
    &&& s_wf(n.data)
    &&& s_wf(n.grad)
    &&& op_arity_ok(n.op, n.prev@.len())
    &&& forall|k: int| 0 <= k < n.prev@.len() ==> #[trigger] n.prev@[k].id() < i
}

/// A well-formed graph: every node is well-formed at its slot, so every
/// dependency edge points strictly downward and the graph is acyclic.
pub open spec fn g_wf(g: Seq<ValueData>) -> bool {
    forall|i: int| 0 <= i < g.len() ==> #[trigger] node_wf(g[i], i)
}

/// The slot named by dependency `k` of node `i`.
pub open spec fn dep(g: Seq<ValueData>, i: int, k: int) -> int {
    g[i].prev@[k].id()
}

/// `g2` has the same nodes as `g` up to gradients: only gradient
/// accumulators may differ.
pub open spec fn same_shape(g: Seq<ValueData>, g2: Seq<ValueData>) -> bool {
    &&& g2.len() == g.len()
    &&& forall|j: int|
        0 <= j < g.len() ==> ((#[trigger] g2[j]).data == g[j].data && g2[j].op == g[j].op
            && g2[j].prev@ == g[j].prev@)
}

/// `g2` is `g` with exactly one node appended.
pub open spec fn appended(g: Seq<ValueData>, g2: Seq<ValueData>) -> bool {
    &&& g2.len() == g.len() + 1
    &&& forall|j: int| 0 <= j < g.len() ==> g2[j] == g[j]
}

/// The node at slot `i` of `g2` holds exactly these fields, with a zeroed
/// gradient accumulator.
pub open spec fn new_node_is(
    g2: Seq<ValueData>,
    i: int,
    data: Scalar,
    op: OpKind,
    deps: Seq<Value>,
) -> bool {
    &&& g2[i].data == data
    &&& g2[i].grad == s_zero()
    &&& g2[i].op == op
    &&& g2[i].prev@ == deps
}

/// The forward value of an n-ary sum: a running total over the operands,
/// in order, starting from zero.
pub open spec fn sum_value(g: Seq<ValueData>, deps: Seq<Value>) -> Scalar
    decreases deps.len(),
{
    if deps.len() == 0 {
        s_zero()
    } else {
        s_add(sum_value(g, deps.drop_last()), g[deps.last().id()].data)
    }
}

impl Graph {
    /// An empty node store.
    pub fn new() -> (g: Graph)
        ensures
            g@.len() == 0,
            g_wf(g@),
    {
        Graph { nodes: Vec::new() }
    }

    /// How many nodes the store owns.
    pub fn len(&self) -> (n: usize)
        ensures
            n == self@.len(),
    {
        self.nodes.len()
    }

    /// The scalar result stored at `h`.
    pub fn data(&self, h: Value) -> (v: Scalar)
        requires
            h.id() < self@.len(),
        ensures
            v == self@[h.id()].data,
    {
        self.nodes[h.0].data
    }

    /// The gradient accumulated at `h`.
    pub fn grad(&self, h: Value) -> (v: Scalar)
        requires
            h.id() < self@.len(),
        ensures
            v == self@[h.id()].grad,
    {
        self.nodes[h.0].grad
    }

    /// The operator that produced `h`.
    pub fn op(&self, h: Value) -> (o: OpKind)
        requires
            h.id() < self@.len(),
        ensures
            o == self@[h.id()].op,
    {
        self.nodes[h.0].op
    }

    /// The dependency handles of `h`, in order.
    pub fn deps(&self, h: Value) -> (d: Vec<Value>)
        requires
            h.id() < self@.len(),
        ensures
            d@ == self@[h.id()].prev@,
    {
        self.nodes[h.0].prev.clone()
    }

    /// Overwrite the scalar stored at `h` (an optimization step updating a
    /// parameter leaf between passes).
    pub fn set_data(&mut self, h: Value, v: Scalar)
        requires
            g_wf(old(self)@),
            h.id() < old(self)@.len(),
            s_wf(v),
        ensures
            final(self)@ == old(self)@.update(
                h.id(),
                ValueData { data: v, ..old(self)@[h.id()] },
            ),
            g_wf(final(self)@),
    {
        let node = &mut self.nodes[h.0];
        node.data = v;
        proof {
            assert forall|i: int| 0 <= i < self@.len() implies #[trigger] node_wf(
                self@[i],
                i,
            ) by {
                assert(node_wf(old(self)@[i], i));
            }
        }
    }

    /// Reset the gradient accumulator at `h` to zero.
    pub fn reset_grad(&mut self, h: Value)
        requires
            g_wf(old(self)@),
            h.id() < old(self)@.len(),
        ensures
            final(self)@ == old(self)@.update(
                h.id(),
                ValueData { grad: s_zero(), ..old(self)@[h.id()] },
            ),
            g_wf(final(self)@),
    {
        let node = &mut self.nodes[h.0];
        node.grad = Scalar::zero();
        proof {
            assert forall|i: int| 0 <= i < self@.len() implies #[trigger] node_wf(
                self@[i],
                i,
            ) by {
                assert(node_wf(old(self)@[i], i));
            }
        }
    }

    /// Create a leaf node holding `v`, with no dependencies and no
    /// operator.
    pub fn leaf(&mut self, v: Scalar) -> (h: Value)
        requires
            g_wf(old(self)@),
            s_wf(v),
        ensures
            appended(old(self)@, final(self)@),
            new_node_is(final(self)@, old(self)@.len() as int, v, OpKind::Leaf, Seq::<Value>::empty()),
            h.id() == old(self)@.len(),
            g_wf(final(self)@),
    {
        let h = Value(self.nodes.len());
        self.nodes.push(ValueData {
            data: v,
            grad: Scalar::zero(),
            op: OpKind::Leaf,
            prev: Vec::new(),
        });
        proof {
            self.lemma_push_wf();
        }
        h
    }

    /// A pushed node that is well-formed at the last slot keeps the whole
    /// graph well-formed.
    proof fn lemma_push_wf(&self)
        requires
            self@.len() > 0,
            g_wf(self@.drop_last()),
            node_wf(self@.last(), self@.len() - 1),
        ensures
            g_wf(self@),
    {
        assert forall|i: int| 0 <= i < self@.len() implies #[trigger] node_wf(self@[i], i) by {
            if i < self@.len() - 1 {
                assert(node_wf(self@.drop_last()[i], i));
            }
        }
    }

    /// Append one binary node.
    fn push_binary(&mut self, a: Value, b: Value, data: Scalar, op: OpKind) -> (h: Value)
        requires
            g_wf(old(self)@),
            a.id() < old(self)@.len(),
            b.id() < old(self)@.len(),
            s_wf(data),
            op_arity_ok(op, 2),
        ensures
            appended(old(self)@, final(self)@),
            new_node_is(final(self)@, old(self)@.len() as int, data, op, seq![a, b]),
            h.id() == old(self)@.len(),
            g_wf(final(self)@),
    {
        let h = Value(self.nodes.len());
        let mut prev: Vec<Value> = Vec::new();
        prev.push(a);
        prev.push(b);
        self.nodes.push(ValueData { data, grad: Scalar::zero(), op, prev });
        proof {
            assert(self@.last().prev@ =~= seq![a, b]);
            self.lemma_push_wf();
        }
        h
    }

    /// Append one unary node.
    fn push_unary(&mut self, a: Value, data: Scalar, op: OpKind) -> (h: Value)
        requires
            g_wf(old(self)@),
            a.id() < old(self)@.len(),
            s_wf(data),
            op_arity_ok(op, 1),
        ensures
            appended(old(self)@, final(self)@),
            new_node_is(final(self)@, old(self)@.len() as int, data, op, seq![a]),
            h.id() == old(self)@.len(),
            g_wf(final(self)@),
    {
        let h = Value(self.nodes.len());
        let mut prev: Vec<Value> = Vec::new();
        prev.push(a);
        self.nodes.push(ValueData { data, grad: Scalar::zero(), op, prev });
        proof {
            assert(self@.last().prev@ =~= seq![a]);
            self.lemma_push_wf();
        }
        h
    }

    /// `a + b` as a new node.
    pub fn add(&mut self, a: Value, b: Value) -> (c: Value)
        requires
            g_wf(old(self)@),
            a.id() < old(self)@.len(),
            b.id() < old(self)@.len(),
        ensures
            appended(old(self)@, final(self)@),
            new_node_is(
                final(self)@,
                old(self)@.len() as int,
                s_add(old(self)@[a.id()].data, old(self)@[b.id()].data),
                OpKind::Add,
                seq![a, b],
            ),
            c.id() == old(self)@.len(),
            g_wf(final(self)@),
    {
        proof {
            assert(node_wf(self@[a.id()], a.id()));
            assert(node_wf(self@[b.id()], b.id()));
        }
        let d = self.nodes[a.0].data.add(self.nodes[b.0].data);
        self.push_binary(a, b, d, OpKind::Add)
    }

    /// `a - b` as a new node.
    pub fn sub(&mut self, a: Value, b: Value) -> (c: Value)
        requires
            g_wf(old(self)@),
            a.id() < old(self)@.len(),
            b.id() < old(self)@.len(),
        ensures
            appended(old(self)@, final(self)@),
            new_node_is(
                final(self)@,
                old(self)@.len() as int,
                s_sub(old(self)@[a.id()].data, old(self)@[b.id()].data),
                OpKind::Sub,
                seq![a, b],
            ),
            c.id() == old(self)@.len(),
            g_wf(final(self)@),
    {
        proof {
            assert(node_wf(self@[a.id()], a.id()));
            assert(node_wf(self@[b.id()], b.id()));
        }
        let d = self.nodes[a.0].data.sub(self.nodes[b.0].data);
        self.push_binary(a, b, d, OpKind::Sub)
    }

    /// `a * b` as a new node.
    pub fn mul(&mut self, a: Value, b: Value) -> (c: Value)
        requires
            g_wf(old(self)@),
            a.id() < old(self)@.len(),
            b.id() < old(self)@.len(),
        ensures
            appended(old(self)@, final(self)@),
            new_node_is(
                final(self)@,
                old(self)@.len() as int,
                s_mul(old(self)@[a.id()].data, old(self)@[b.id()].data),
                OpKind::Mul,
                seq![a, b],
            ),
            c.id() == old(self)@.len(),
            g_wf(final(self)@),
    {
        proof {
            assert(node_wf(self@[a.id()], a.id()));
            assert(node_wf(self@[b.id()], b.id()));
        }
        let d = self.nodes[a.0].data.mul(self.nodes[b.0].data);
        self.push_binary(a, b, d, OpKind::Mul)
    }

    /// `a / b` as a new node; division by zero stores the undefined scalar.
    pub fn div(&mut self, a: Value, b: Value) -> (c: Value)
        requires
            g_wf(old(self)@),
            a.id() < old(self)@.len(),
            b.id() < old(self)@.len(),
        ensures
            appended(old(self)@, final(self)@),
            new_node_is(
                final(self)@,
                old(self)@.len() as int,
                s_div(old(self)@[a.id()].data, old(self)@[b.id()].data),
                OpKind::Div,
                seq![a, b],
            ),
            c.id() == old(self)@.len(),
            g_wf(final(self)@),
    {
        proof {
            assert(node_wf(self@[a.id()], a.id()));
            assert(node_wf(self@[b.id()], b.id()));
        }
        let d = self.nodes[a.0].data.div(self.nodes[b.0].data);
        self.push_binary(a, b, d, OpKind::Div)
    }

    /// `base ^ exp` as a new node. The exponent is a full node, but the
    /// backward pass never propagates gradient to it (exponents are
    /// treated as constants).
    pub fn pow(&mut self, base: Value, exp: Value) -> (c: Value)
        requires
            g_wf(old(self)@),
            base.id() < old(self)@.len(),
            exp.id() < old(self)@.len(),
        ensures
            appended(old(self)@, final(self)@),
            new_node_is(
                final(self)@,
                old(self)@.len() as int,
                s_pow(old(self)@[base.id()].data, old(self)@[exp.id()].data),
                OpKind::Pow,
                seq![base, exp],
            ),
            c.id() == old(self)@.len(),
            g_wf(final(self)@),
    {
        proof {
            assert(node_wf(self@[base.id()], base.id()));
            assert(node_wf(self@[exp.id()], exp.id()));
        }
        let d = self.nodes[base.0].data.pow(self.nodes[exp.0].data);
        self.push_binary(base, exp, d, OpKind::Pow)
    }

    /// `max(a, 0)` as a new node.
    pub fn relu(&mut self, a: Value) -> (c: Value)
        requires
            g_wf(old(self)@),
            a.id() < old(self)@.len(),
        ensures
            appended(old(self)@, final(self)@),
            new_node_is(
                final(self)@,
                old(self)@.len() as int,
                s_relu(old(self)@[a.id()].data),
                OpKind::Relu,
                seq![a],
            ),
            c.id() == old(self)@.len(),
            g_wf(final(self)@),
    {
        proof {
            assert(node_wf(self@[a.id()], a.id()));
        }
        let d = self.nodes[a.0].data.relu();
        self.push_unary(a, d, OpKind::Relu)
    }

    /// The hyperbolic tangent of `a` as a new node.
    pub fn tanh(&mut self, a: Value) -> (c: Value)
        requires
            g_wf(old(self)@),
            a.id() < old(self)@.len(),
        ensures
            appended(old(self)@, final(self)@),
            new_node_is(
                final(self)@,
                old(self)@.len() as int,
                s_tanh(old(self)@[a.id()].data),
                OpKind::Tanh,
                seq![a],
            ),
            c.id() == old(self)@.len(),
            g_wf(final(self)@),
    {
        proof {
            assert(node_wf(self@[a.id()], a.id()));
        }
        let d = self.nodes[a.0].data.tanh();
        self.push_unary(a, d, OpKind::Tanh)
    }

    /// The n-ary sum of `items` as a new node: a running total over the
    /// operands in order. An operand listed twice contributes twice.
    pub fn sum(&mut self, items: &Vec<Value>) -> (c: Value)
        requires
            g_wf(old(self)@),
            forall|k: int| 0 <= k < items@.len() ==> #[trigger] items@[k].id() < old(self)@.len(),
        ensures
            appended(old(self)@, final(self)@),
            new_node_is(
                final(self)@,
                old(self)@.len() as int,
                sum_value(old(self)@, items@),
                OpKind::Sum,
                items@,
            ),
            c.id() == old(self)@.len(),
            g_wf(final(self)@),
    {
        let h = Value(self.nodes.len());
        let mut total = Scalar::zero();
        let mut k: usize = 0;
        while k < items.len()
            invariant
                g_wf(self@),
                k <= items@.len(),
                forall|j: int| 0 <= j < items@.len() ==> #[trigger] items@[j].id() < self@.len(),
                total == sum_value(self@, items@.take(k as int)),
                s_wf(total),
            decreases items@.len() - k,
        {
            let it = items[k];
            proof {
                assert(node_wf(self@[it.id()], it.id()));
                assert(items@.take(k as int + 1).drop_last() =~= items@.take(k as int));
                assert(items@.take(k as int + 1).last() == items@[k as int]);
            }
            total = total.add(self.nodes[it.0].data);
            k = k + 1;
        }
        proof {
            assert(items@.take(items@.len() as int) =~= items@);
        }
        let prev = items.clone();
        self.nodes.push(ValueData { data: total, grad: Scalar::zero(), op: OpKind::Sum, prev });
        proof {
            self.lemma_push_wf();
        }
        h
    }
}

} // verus!
