//! The computation-graph engine: an append-only arena of nodes, the operations
//! that build the graph, and the reverse-mode backward pass.

use vstd::prelude::*;

verus! {

/// The arithmetic that a node's value must offer. The engine combines values
/// only through these operations; each spec function names what the matching
/// method returns, so that contracts can speak of the values computed. The spec
/// functions have bodies only so that an impl outside verified code (such as one
/// for `f64`) need not write them: for a value type in general they stand for
/// the method's result and nothing more.
pub trait Numeric: Sized + Copy {
    /// The additive identity.
    closed spec fn spec_zero() -> Self {
        arbitrary()
    }

    /// The multiplicative identity.
    closed spec fn spec_one() -> Self {
        arbitrary()
    }

    /// The value `-1`.
    closed spec fn spec_neg_one() -> Self {
        arbitrary()
    }

    /// `self + other`.
    closed spec fn spec_plus(self, other: Self) -> Self {
        arbitrary()
    }

    /// `self * other`.
    closed spec fn spec_times(self, other: Self) -> Self {
        arbitrary()
    }

    /// `self` raised to the real power `exponent`.
    closed spec fn spec_power(self, exponent: Self) -> Self {
        arbitrary()
    }

    /// `self > 0`.
    closed spec fn spec_positive(self) -> bool {
        arbitrary()
    }

    /// `-self`.
    closed spec fn spec_negate(self) -> Self {
        arbitrary()
    }

    /// `num / den`.
    closed spec fn spec_ratio(num: usize, den: usize) -> Self {
        arbitrary()
    }

    fn zero() -> (r: Self)
        ensures
            r == Self::spec_zero(),
    ;

    fn one() -> (r: Self)
        ensures
            r == Self::spec_one(),
    ;

    fn neg_one() -> (r: Self)
        ensures
            r == Self::spec_neg_one(),
    ;

    fn plus(&self, other: &Self) -> (r: Self)
        ensures
            r == self.spec_plus(*other),
    ;

    fn times(&self, other: &Self) -> (r: Self)
        ensures
            r == self.spec_times(*other),
    ;

    fn power(&self, exponent: &Self) -> (r: Self)
        ensures
            r == self.spec_power(*exponent),
    ;

    fn is_positive(&self) -> (r: bool)
        ensures
            r == self.spec_positive(),
    ;

    fn negate(&self) -> (r: Self)
        ensures
            r == self.spec_negate(),
    ;

    /// The quotient of two counts.
    fn ratio(num: usize, den: usize) -> (r: Self)
        ensures
            r == Self::spec_ratio(num, den),
    ;
}

/// The operation that produced a node.
#[derive(Debug, Clone, Copy)]
pub enum Op<V> {
    Scalar,
    Add,
    Mul,
    /// Raising to a constant exponent, which the backward pass needs.
    Pow(V),
    ReLU,
}

/// One node of the graph.
#[derive(Debug)]
pub struct Value<V> {
    pub data: V,
    pub grad: V,
    pub children: Vec<usize>,
    pub op: Op<V>,
}

/// `max(0, x)`: `x` where it is positive, else zero.
pub open spec fn relu_of<V: Numeric>(x: V) -> V {
    if x.spec_positive() {
        x
    } else {
        V::spec_zero()
    }
}

/// Node `k` holds what its operation computes from its operands' data.
pub open spec fn computed<V: Numeric>(nodes: Seq<Value<V>>, k: int) -> bool {
    let node = nodes[k];
    let c0 = node.children@[0] as int;
    let c1 = node.children@[1] as int;
    match node.op {
        Op::Scalar => true,
        Op::Add => node.data == nodes[c0].data.spec_plus(nodes[c1].data),
        Op::Mul => node.data == nodes[c0].data.spec_times(nodes[c1].data),
        Op::Pow(n) => node.data == nodes[c0].data.spec_power(n),
        Op::ReLU => node.data == relu_of(nodes[c0].data),
    }
}

/// Every node in `lo..nodes.len()` holds what its operation computes.
pub open spec fn computed_from<V: Numeric>(nodes: Seq<Value<V>>, lo: int) -> bool {
    forall|k: int| lo <= k < nodes.len() ==> #[trigger] computed(nodes, k)
}

/// `nodes` with `amount` added to the gradient of node `c`.
pub open spec fn add_grad<V: Numeric>(nodes: Seq<Value<V>>, c: int, amount: V) -> Seq<Value<V>> {
    nodes.update(c, Value { grad: nodes[c].grad.spec_plus(amount), ..nodes[c] })
}

/// `nodes` after node `i` hands its gradient `g` on to its operands, by the rule
/// of its operation:
/// a sum adds `g` to each operand; a product adds `g` times the other operand's
/// data; a power `n` adds `g * n * a^(n - 1)`; ReLU adds `g` times one where its
/// operand is positive, else times zero; a leaf adds nothing.
pub open spec fn step<V: Numeric>(nodes: Seq<Value<V>>, i: int) -> Seq<Value<V>> {
    let node = nodes[i];
    let g = node.grad;
    let c0 = node.children@[0] as int;
    let c1 = node.children@[1] as int;
    match node.op {
        Op::Add => add_grad(add_grad(nodes, c0, g), c1, g),
        Op::Mul => add_grad(
            add_grad(nodes, c0, g.spec_times(nodes[c1].data)),
            c1,
            g.spec_times(nodes[c0].data),
        ),
        Op::Pow(n) => add_grad(
            nodes,
            c0,
            g.spec_times(n).spec_times(nodes[c0].data.spec_power(n.spec_plus(V::spec_neg_one()))),
        ),
        Op::ReLU => add_grad(
            nodes,
            c0,
            g.spec_times(if nodes[c0].data.spec_positive() { V::spec_one() } else { V::spec_zero() }),
        ),
        Op::Scalar => nodes,
    }
}

/// `nodes` after the nodes `hi - 1` down to 0 each take their `step`, in that
/// order.
pub open spec fn sweep<V: Numeric>(nodes: Seq<Value<V>>, hi: int) -> Seq<Value<V>>
    decreases hi,
{
    if hi <= 0 {
        nodes
    } else {
        sweep(step(nodes, hi - 1), hi - 1)
    }
}

/// `nodes` with the gradient of `root` set to one.
pub open spec fn seeded<V: Numeric>(nodes: Seq<Value<V>>, root: int) -> Seq<Value<V>> {
    nodes.update(root, Value { grad: V::spec_one(), ..nodes[root] })
}

/// What `backward(root)` leaves: the root seeded, then every node from `root`
/// down to 0 stepped in turn.
pub open spec fn backprop<V: Numeric>(nodes: Seq<Value<V>>, root: int) -> Seq<Value<V>> {
    sweep(seeded(nodes, root), root + 1)
}

/// How many operands a node produced by `op` has.
pub open spec fn arity<V>(op: Op<V>) -> nat {
    match op {
        Op::Scalar => 0,
        Op::Add | Op::Mul => 2,
        Op::Pow(_) | Op::ReLU => 1,
    }
}

impl<V> Value<V> {
    /// Node `k` is one of this node's operands.
    pub open spec fn has_operand(&self, k: int) -> bool {
        exists|j: int| 0 <= j < self.children@.len() && self.children@[j] == k
    }

    /// The node, standing at position `id`, has as many operands as its operation
    /// takes, and each of them was created before it.
    pub open spec fn linked_at(&self, id: int) -> bool {
        &&& self.children@.len() == arity(self.op)
        &&& forall|j: int| 0 <= j < self.children@.len() ==> self.children@[j] < id
    }
}

/// The graph: nodes in order of creation, a node's identifier being its position.
/// It keeps the zero and one of its value type, with which it resets and seeds
/// gradients.
pub struct Arena<V> {
    nodes: Vec<Value<V>>,
    zero: V,
    one: V,
}

impl<V> View for Arena<V> {
    type V = Seq<Value<V>>;

    closed spec fn view(&self) -> Seq<Value<V>> {
        self.nodes@
    }
}

impl<V> Arena<V> {
    /// The value that new nodes and `zero_grad` give to a gradient.
    pub closed spec fn zero(&self) -> V {
        self.zero
    }

    /// The value that `backward` gives to the gradient of its root.
    pub closed spec fn one(&self) -> V {
        self.one
    }
}

/// Some node in `lo..=hi` has node `k` among its operands.
pub open spec fn used_within<V>(nodes: Seq<Value<V>>, k: int, lo: int, hi: int) -> bool {
    exists|p: int| lo <= p <= hi && #[trigger] nodes[p].has_operand(k)
}

/// `after` differs from `before` at most in gradients.
pub open spec fn same_but_grads<V>(before: Seq<Value<V>>, after: Seq<Value<V>>) -> bool {
    &&& after.len() == before.len()
    &&& forall|k: int|
        0 <= k < before.len() ==> {
            &&& (#[trigger] after[k]).data == before[k].data
            &&& after[k].children == before[k].children
            &&& after[k].op == before[k].op
        }
}

/// `after` is `before` with one node appended at its end: one that records `op`
/// over the operands `children` and has a zero gradient.
pub open spec fn appends<V>(before: Arena<V>, after: Arena<V>, children: Seq<usize>, op: Op<V>) -> bool {
    &&& after@.len() == before@.len() + 1
    &&& after@.subrange(0, before@.len() as int) == before@
    &&& after@.last().children@ == children
    &&& after@.last().op == op
    &&& after@.last().grad == before.zero()
    &&& after.zero() == before.zero()
    &&& after.one() == before.one()
}

/// The nodes that stay when every node from identifier `n` on is discarded.
pub open spec fn truncated<V>(nodes: Seq<Value<V>>, n: int) -> Seq<Value<V>> {
    if n <= nodes.len() {
        nodes.subrange(0, n)
    } else {
        nodes
    }
}

/// `after` keeps every node of `before` and the same zero and one, and may have
/// more nodes.
pub open spec fn extends<V>(before: Arena<V>, after: Arena<V>) -> bool {
    &&& before@.len() <= after@.len()
    &&& after@.subrange(0, before@.len() as int) == before@
    &&& after.zero() == before.zero()
    &&& after.one() == before.one()
}

/// `after` extends `before` by leaves alone, each with a zero gradient.
pub open spec fn adds_leaves<V>(before: Arena<V>, after: Arena<V>) -> bool {
    &&& extends(before, after)
    &&& forall|k: int|
        before@.len() <= k < after@.len() ==> {
            &&& (#[trigger] after@[k]).op == Op::<V>::Scalar
            &&& after@[k].children@.len() == 0
            &&& after@[k].grad == before.zero()
        }
}

/// Every node refers only to operands created before it.
pub open spec fn well_formed<V>(nodes: Seq<Value<V>>) -> bool {
    forall|i: int| 0 <= i < nodes.len() ==> #[trigger] nodes[i].linked_at(i)
}

impl<V: Numeric> Arena<V> {
    pub open spec fn wf(&self) -> bool {
        &&& well_formed(self@)
        &&& self.zero() == V::spec_zero()
        &&& self.one() == V::spec_one()
    }

    /// An empty graph.
    pub fn new() -> (r: Self)
        ensures
            r@ == Seq::<Value<V>>::empty(),
            r.wf(),
    {
        Arena { nodes: Vec::new(), zero: V::zero(), one: V::one() }
    }

    /// The node `id`.
    pub fn get_value(&self, id: usize) -> (r: &Value<V>)
        requires
            id < self@.len(),
        ensures
            *r == self@[id as int],
    {
        &self.nodes[id]
    }

    /// Appends a node with a zero gradient and returns its identifier.
    fn push_node(&mut self, data: V, children: Vec<usize>, op: Op<V>) -> (r: usize)
        requires
            old(self).wf(),
            old(self)@.len() < usize::MAX,
            (Value { data, grad: data, children, op }).linked_at(old(self)@.len() as int),
        ensures
            final(self).wf(),
            r == old(self)@.len(),
            appends(*old(self), *final(self), children@, op),
            final(self)@[r as int].data == data,
    {
        let new_id = self.nodes.len();
        let node = Value { data, grad: self.zero, children, op };
        self.nodes.push(node);
        assert(self@.subrange(0, new_id as int) =~= old(self)@);
        new_id
    }
}

impl<V: Numeric> Arena<V> {
    /// Appends a leaf holding `val`.
    pub fn scalar(&mut self, val: V) -> (r: usize)
        requires
            old(self).wf(),
            old(self)@.len() < usize::MAX,
        ensures
            final(self).wf(),
            r == old(self)@.len(),
            appends(*old(self), *final(self), seq![], Op::Scalar),
            final(self)@[r as int].data == val,
    {
        self.push_node(val, Vec::new(), Op::Scalar)
    }

    /// Appends the sum of nodes `a` and `b`.
    pub fn add(&mut self, a: usize, b: usize) -> (r: usize)
        requires
            old(self).wf(),
            old(self)@.len() < usize::MAX,
            a < old(self)@.len(),
            b < old(self)@.len(),
        ensures
            final(self).wf(),
            r == old(self)@.len(),
            appends(*old(self), *final(self), seq![a, b], Op::Add),
            computed(final(self)@, r as int),
            final(self)@[r as int].data == old(self)@[a as int].data.spec_plus(old(self)@[b as int].data),
    {
        let data = self.nodes[a].data.plus(&self.nodes[b].data);
        self.push_node(data, vec![a, b], Op::Add)
    }

    /// Appends the product of nodes `a` and `b`.
    pub fn mul(&mut self, a: usize, b: usize) -> (r: usize)
        requires
            old(self).wf(),
            old(self)@.len() < usize::MAX,
            a < old(self)@.len(),
            b < old(self)@.len(),
        ensures
            final(self).wf(),
            r == old(self)@.len(),
            appends(*old(self), *final(self), seq![a, b], Op::Mul),
            computed(final(self)@, r as int),
            final(self)@[r as int].data == old(self)@[a as int].data.spec_times(old(self)@[b as int].data),
    {
        let data = self.nodes[a].data.times(&self.nodes[b].data);
        self.push_node(data, vec![a, b], Op::Mul)
    }

    /// Appends node `a` raised to the constant power `n`.
    pub fn pow(&mut self, a: usize, n: V) -> (r: usize)
        requires
            old(self).wf(),
            old(self)@.len() < usize::MAX,
            a < old(self)@.len(),
        ensures
            final(self).wf(),
            r == old(self)@.len(),
            appends(*old(self), *final(self), seq![a], Op::Pow(n)),
            computed(final(self)@, r as int),
            final(self)@[r as int].data == old(self)@[a as int].data.spec_power(n),
    {
        let data = self.nodes[a].data.power(&n);
        let children = vec![a];
        assert(children@ =~= seq![a]);
        self.push_node(data, children, Op::Pow(n))
    }

    /// Appends `a - b`, written as `a + b * (-1)`: a leaf, a product and a sum.
    pub fn sub(&mut self, a: usize, b: usize) -> (r: usize)
        requires
            old(self).wf(),
            old(self)@.len() < usize::MAX - 2,
            a < old(self)@.len(),
            b < old(self)@.len(),
        ensures
            final(self).wf(),
            r == old(self)@.len() + 2,
            final(self)@.len() == old(self)@.len() + 3,
            final(self)@.subrange(0, old(self)@.len() as int) == old(self)@,
            final(self)@[r - 2].op == Op::<V>::Scalar,
            final(self)@[r - 1].op == Op::<V>::Mul,
            final(self)@[r - 1].children@ == seq![b, (r - 2) as usize],
            final(self)@[r as int].op == Op::<V>::Add,
            final(self)@[r as int].children@ == seq![a, (r - 1) as usize],
            final(self)@[r as int].data == old(self)@[a as int].data.spec_plus(
                old(self)@[b as int].data.spec_times(V::spec_neg_one()),
            ),
            final(self).zero() == old(self).zero(),
            final(self).one() == old(self).one(),
    {
        let neg_one = self.scalar(V::neg_one());
        let neg_b = self.mul(b, neg_one);
        let r = self.add(a, neg_b);
        assert(self@.subrange(0, old(self)@.len() as int) =~= old(self)@);
        r
    }

    /// Appends `a / b`, written as `a * b^(-1)`: a power and a product.
    pub fn div(&mut self, a: usize, b: usize) -> (r: usize)
        requires
            old(self).wf(),
            old(self)@.len() < usize::MAX - 1,
            a < old(self)@.len(),
            b < old(self)@.len(),
        ensures
            final(self).wf(),
            r == old(self)@.len() + 1,
            final(self)@.len() == old(self)@.len() + 2,
            final(self)@.subrange(0, old(self)@.len() as int) == old(self)@,
            final(self)@[r - 1].op == Op::Pow(V::spec_neg_one()),
            final(self)@[r - 1].children@ == seq![b],
            final(self)@[r as int].op == Op::<V>::Mul,
            final(self)@[r as int].children@ == seq![a, (r - 1) as usize],
            final(self)@[r as int].data == old(self)@[a as int].data.spec_times(
                old(self)@[b as int].data.spec_power(V::spec_neg_one()),
            ),
            computed_from(final(self)@, old(self)@.len() as int),
            final(self).zero() == old(self).zero(),
            final(self).one() == old(self).one(),
    {
        let ghost s0 = *self;
        let b_inv = self.pow(b, V::neg_one());
        let ghost s1 = *self;
        let r = self.mul(a, b_inv);
        assert(self@.subrange(0, old(self)@.len() as int) =~= old(self)@);
        proof {
            lemma_computed_one(s0, s1, seq![b], Op::Pow(V::spec_neg_one()));
            lemma_appends_extends(s0, s1, seq![b], Op::Pow(V::spec_neg_one()));
            lemma_computed_one(s1, *self, seq![a, b_inv], Op::Mul);
            lemma_appends_extends(s1, *self, seq![a, b_inv], Op::Mul);
            lemma_computed_grows(s1, *self, s0@.len() as int);
        }
        r
    }

    /// Appends `max(0, a)`: the value of node `a` where it is positive, else zero.
    pub fn relu(&mut self, a: usize) -> (r: usize)
        requires
            old(self).wf(),
            old(self)@.len() < usize::MAX,
            a < old(self)@.len(),
        ensures
            final(self).wf(),
            r == old(self)@.len(),
            appends(*old(self), *final(self), seq![a], Op::ReLU),
            computed(final(self)@, r as int),
            final(self)@[r as int].data == relu_of(old(self)@[a as int].data),
    {
        let x = self.nodes[a].data;
        let data = if x.is_positive() { x } else { self.zero };
        let children = vec![a];
        assert(children@ =~= seq![a]);
        self.push_node(data, children, Op::ReLU)
    }
}

impl<V: Numeric> Arena<V> {
    /// The node `id`, to be changed in place (an optimizer overwrites `data`).
    pub fn get_value_mut(&mut self, id: usize) -> (r: &mut Value<V>)
        requires
            id < old(self)@.len(),
        ensures
            *r == old(self)@[id as int],
            final(self)@ == old(self)@.update(id as int, *final(r)),
            final(self).zero() == old(self).zero(),
            final(self).one() == old(self).one(),
    {
        &mut self.nodes[id]
    }

    /// Overwrites the data of node `id` (an optimizer's update of a parameter),
    /// leaving everything else as it was.
    pub fn set_data(&mut self, id: usize, data: V)
        requires
            old(self).wf(),
            id < old(self)@.len(),
        ensures
            final(self).wf(),
            final(self)@ == old(self)@.update(id as int, Value { data, ..old(self)@[id as int] }),
    {
        self.nodes[id].data = data;
        assert(self@ =~= old(self)@.update(id as int, Value { data, ..old(self)@[id as int] }));
        assert forall|k: int| 0 <= k < self@.len() implies #[trigger] self@[k].linked_at(k) by {
            assert(old(self)@[k].linked_at(k));
        }
    }

    /// The zero that this arena gives new gradients.
    pub fn zero_value(&self) -> (r: V)
        ensures
            r == self.zero(),
    {
        self.zero
    }

    /// The one with which `backward` seeds its root.
    pub fn one_value(&self) -> (r: V)
        ensures
            r == self.one(),
    {
        self.one
    }

    /// The number of live nodes.
    pub fn len(&self) -> (r: usize)
        ensures
            r == self@.len(),
    {
        self.nodes.len()
    }

    /// Discards every node whose identifier is `size` or more.
    pub fn reset_to_size(&mut self, size: usize)
        requires
            old(self).wf(),
        ensures
            final(self).wf(),
            final(self)@ == truncated(old(self)@, size as int),
            final(self).zero() == old(self).zero(),
            final(self).one() == old(self).one(),
    {
        self.nodes.truncate(size);
    }

    /// Sets every gradient to zero.
    pub fn zero_grad(&mut self)
        requires
            old(self).wf(),
        ensures
            final(self).wf(),
            same_but_grads(old(self)@, final(self)@),
            forall|k: int| 0 <= k < final(self)@.len() ==> (#[trigger] final(self)@[k]).grad == old(self).zero(),
            final(self).zero() == old(self).zero(),
            final(self).one() == old(self).one(),
    {
        let n = self.nodes.len();
        let mut i: usize = 0;
        while i < n
            invariant
                n == old(self)@.len(),
                same_but_grads(old(self)@, self@),
                self.zero == old(self).zero(),
                self.one == old(self).one(),
                0 <= i <= n,
                forall|k: int| 0 <= k < i ==> (#[trigger] self@[k]).grad == self.zero,
            decreases n - i,
        {
            self.nodes[i].grad = self.zero;
            i += 1;
        }
        assert(well_formed(self@)) by {
            assert forall|k: int| 0 <= k < self@.len() implies #[trigger] self@[k].linked_at(k) by {
                assert(old(self)@[k].linked_at(k));
            }
        }
    }

    /// Adds `amount` to the gradient of node `id`.
    fn accumulate_grad(&mut self, id: usize, amount: V)
        requires
            id < old(self)@.len(),
        ensures
            same_but_grads(old(self)@, final(self)@),
            forall|k: int| 0 <= k < old(self)@.len() && k != id ==> #[trigger] final(self)@[k] == old(self)@[k],
            final(self)@ == add_grad(old(self)@, id as int, amount),
            final(self).zero() == old(self).zero(),
            final(self).one() == old(self).one(),
    {
        let g = self.nodes[id].grad.plus(&amount);
        self.nodes[id].grad = g;
        assert(self@ =~= add_grad(old(self)@, id as int, amount));
    }
}

impl<V: Numeric> Arena<V> {
    /// Propagates into the operands of node `i` their share of its gradient, by
    /// the rule of its operation.
    fn propagate(&mut self, i: usize)
        requires
            old(self).wf(),
            i < old(self)@.len(),
        ensures
            same_but_grads(old(self)@, final(self)@),
            forall|k: int|
                0 <= k < old(self)@.len() && !old(self)@[i as int].has_operand(k)
                    ==> #[trigger] final(self)@[k] == old(self)@[k],
            final(self)@ == step(old(self)@, i as int),
            final(self).zero() == old(self).zero(),
            final(self).one() == old(self).one(),
    {
        assert(self@[i as int].linked_at(i as int));
        let node_grad = self.nodes[i].grad;
        let op = self.nodes[i].op;
        match op {
            Op::Add => {
                let c0 = self.nodes[i].children[0];
                let c1 = self.nodes[i].children[1];
                self.accumulate_grad(c0, node_grad);
                self.accumulate_grad(c1, node_grad);
            },
            Op::Mul => {
                let c0 = self.nodes[i].children[0];
                let c1 = self.nodes[i].children[1];
                let a = self.nodes[c0].data;
                let b = self.nodes[c1].data;
                self.accumulate_grad(c0, node_grad.times(&b));
                self.accumulate_grad(c1, node_grad.times(&a));
            },
            Op::Pow(n) => {
                let c0 = self.nodes[i].children[0];
                let a = self.nodes[c0].data;
                let local = a.power(&n.plus(&V::neg_one()));
                self.accumulate_grad(c0, node_grad.times(&n).times(&local));
            },
            Op::ReLU => {
                let c0 = self.nodes[i].children[0];
                let local = if self.nodes[c0].data.is_positive() { V::one() } else { V::zero() };
                self.accumulate_grad(c0, node_grad.times(&local));
            },
            Op::Scalar => {},
        }
    }

    /// Reverse-mode differentiation from node `root`: seeds its gradient with one,
    /// then visits the identifiers from `root` down to 0 and adds into each
    /// operand's gradient its share of the visited node's gradient. Gradients are
    /// added to, never overwritten, so `zero_grad` is called first for a fresh
    /// result. Nodes created after `root` are left alone; so is every node below
    /// `root` that no node up to `root` takes as an operand.
    pub fn backward(&mut self, root: usize)
        requires
            old(self).wf(),
            root < old(self)@.len(),
        ensures
            final(self).wf(),
            final(self)@ == backprop(old(self)@, root as int),
            same_but_grads(old(self)@, final(self)@),
            final(self)@[root as int].grad == old(self).one(),
            forall|k: int| root < k < old(self)@.len() ==> #[trigger] final(self)@[k] == old(self)@[k],
            forall|k: int|
                0 <= k < root && !used_within(old(self)@, k, 0, root as int)
                    ==> #[trigger] final(self)@[k] == old(self)@[k],
            final(self).zero() == old(self).zero(),
            final(self).one() == old(self).one(),
    {
        let ghost s0 = self@;
        self.nodes[root].grad = self.one;
        assert(self@ =~= seeded(s0, root as int));
        assert(well_formed(self@)) by {
            assert forall|k: int| 0 <= k < self@.len() implies #[trigger] self@[k].linked_at(k) by {
                assert(s0[k].linked_at(k));
            }
        }
        self.propagate(root);
        proof {
            lemma_operands_below(s0, root as int, root as int);
            assert forall|k: int| 0 <= k < self@.len() implies #[trigger] self@[k].linked_at(k) by {
                assert(s0[k].linked_at(k));
            }
            assert forall|k: int| root <= k < s0.len() implies #[trigger] self@[k] == s0[k]
                || k == root by {
                lemma_operands_below(s0, root as int, k);
            }
            assert forall|k: int|
                0 <= k < root && !used_within(s0, k, root as int, root as int)
                    implies #[trigger] self@[k] == s0[k] by {
                if s0[root as int].has_operand(k) {
                    assert(used_within(s0, k, root as int, root as int));
                }
            }
        }
        let mut i: usize = root;
        while i > 0
            invariant
                0 <= i <= root,
                root < s0.len(),
                well_formed(s0),
                same_but_grads(s0, self@),
                self.wf(),
                self.zero == old(self).zero(),
                self.one == old(self).one(),
                self@[root as int].grad == self.one,
                forall|k: int| root < k < s0.len() ==> #[trigger] self@[k] == s0[k],
                forall|k: int|
                    0 <= k < root && !used_within(s0, k, i as int, root as int)
                        ==> #[trigger] self@[k] == s0[k],
                sweep(self@, i as int) == backprop(s0, root as int),
            decreases i,
        {
            i -= 1;
            let ghost before = self@;
            self.propagate(i);
            assert forall|k: int|
                0 <= k < root && !used_within(s0, k, i as int, root as int)
                    implies #[trigger] self@[k] == s0[k] by {
                if s0[i as int].has_operand(k) {
                    assert(used_within(s0, k, i as int, root as int));
                }
                assert(!used_within(s0, k, i + 1, root as int)) by {
                    if used_within(s0, k, i + 1, root as int) {
                        let p = choose|p: int| i + 1 <= p <= root && #[trigger] s0[p].has_operand(k);
                        assert(used_within(s0, k, i as int, root as int));
                    }
                }
            }
            assert forall|k: int| 0 <= k < self@.len() implies #[trigger] self@[k].linked_at(k) by {
                assert(s0[k].linked_at(k));
            }
            assert forall|k: int| root <= k < s0.len() implies #[trigger] self@[k] == before[k] by {
                lemma_operands_below(s0, i as int, k);
            }
        }
    }
}

/// Cutting an arena back to `n` of its nodes leaves exactly `n` nodes, the first
/// `n` unchanged, and the next node created after that gets the identifier `n`.
pub proof fn lemma_reset_then_create<V>(
    before: Arena<V>,
    reset: Arena<V>,
    created: Arena<V>,
    n: usize,
    children: Seq<usize>,
    op: Op<V>,
)
    requires
        n <= before@.len(),
        reset@ == truncated(before@, n as int),
        appends(reset, created, children, op),
    ensures
        reset@.len() == n,
        created@.len() == n + 1,
        created@.subrange(0, n as int) == before@.subrange(0, n as int),
        created@[n as int] == created@.last(),
        created@[n as int].children@ == children,
        created@[n as int].op == op,
{
}

/// Appending a node extends the arena.
pub(crate) proof fn lemma_appends_extends<V>(a: Arena<V>, b: Arena<V>, children: Seq<usize>, op: Op<V>)
    requires
        appends(a, b, children, op),
    ensures
        extends(a, b),
{
}

/// An extension keeps every node of the arena it extends.
pub(crate) proof fn lemma_extends_keeps<V>(a: Arena<V>, b: Arena<V>)
    requires
        extends(a, b),
    ensures
        forall|k: int| 0 <= k < a@.len() ==> #[trigger] b@[k] == a@[k],
{
    assert forall|k: int| 0 <= k < a@.len() implies #[trigger] b@[k] == a@[k] by {
        assert(b@.subrange(0, a@.len() as int)[k] == a@[k]);
    }
}

/// Any arena extends itself by no leaves.
pub(crate) proof fn lemma_adds_nothing<V>(a: Arena<V>)
    ensures
        adds_leaves(a, a),
        extends(a, a),
{
    assert(a@.subrange(0, a@.len() as int) =~= a@);
}

/// Appending a leaf adds leaves.
pub(crate) proof fn lemma_append_leaf<V>(a: Arena<V>, b: Arena<V>)
    requires
        appends(a, b, seq![], Op::Scalar),
    ensures
        adds_leaves(a, b),
{
}

/// Extending twice extends.
pub(crate) proof fn lemma_extends_trans<V>(a: Arena<V>, b: Arena<V>, c: Arena<V>)
    requires
        extends(a, b),
        extends(b, c),
    ensures
        extends(a, c),
        forall|k: int| 0 <= k < a@.len() ==> #[trigger] c@[k] == a@[k],
{
    assert forall|k: int| 0 <= k < a@.len() implies #[trigger] c@[k] == a@[k] by {
        assert(c@.subrange(0, b@.len() as int)[k] == b@[k]);
        assert(b@.subrange(0, a@.len() as int)[k] == a@[k]);
    }
    assert(c@.subrange(0, a@.len() as int) =~= a@);
}

/// Adding leaves twice adds leaves.
pub(crate) proof fn lemma_adds_leaves_trans<V>(a: Arena<V>, b: Arena<V>, c: Arena<V>)
    requires
        adds_leaves(a, b),
        adds_leaves(b, c),
    ensures
        adds_leaves(a, c),
{
    lemma_extends_trans(a, b, c);
    assert forall|k: int| a@.len() <= k < c@.len() implies {
        &&& (#[trigger] c@[k]).op == Op::<V>::Scalar
        &&& c@[k].children@.len() == 0
        &&& c@[k].grad == a.zero()
    } by {
        if k < b@.len() {
            assert(c@.subrange(0, b@.len() as int)[k] == b@[k]);
        }
    }
}

/// The ReLU rule: stepping a ReLU node adds to its operand's gradient the
/// node's gradient times one where the operand is positive, and times zero
/// where it is zero or less.
pub proof fn lemma_relu_local_derivative<V: Numeric>(nodes: Seq<Value<V>>, i: int)
    requires
        well_formed(nodes),
        0 <= i < nodes.len(),
        nodes[i].op == Op::<V>::ReLU,
    ensures
        ({
            let c = nodes[i].children@[0] as int;
            let local = if nodes[c].data.spec_positive() { V::spec_one() } else { V::spec_zero() };
            step(nodes, i)[c].grad == nodes[c].grad.spec_plus(nodes[i].grad.spec_times(local))
        }),
{
    assert(nodes[i].linked_at(i));
}

/// A sweep over leaves alone changes nothing.
proof fn lemma_sweep_leaves<V: Numeric>(nodes: Seq<Value<V>>, hi: int)
    requires
        0 <= hi <= nodes.len(),
        forall|k: int| 0 <= k < hi ==> (#[trigger] nodes[k]).op == Op::<V>::Scalar,
    ensures
        sweep(nodes, hi) == nodes,
    decreases hi,
{
    if hi > 0 {
        lemma_sweep_leaves(nodes, hi - 1);
    }
}

/// What node `i`, with gradient one, hands to its operand `k`, the operands
/// being distinct.
pub open spec fn share<V: Numeric>(nodes: Seq<Value<V>>, i: int, k: int) -> V {
    let node = nodes[i];
    let g = V::spec_one();
    let c0 = node.children@[0] as int;
    let c1 = node.children@[1] as int;
    match node.op {
        Op::Add => g,
        Op::Mul => if k == c0 { g.spec_times(nodes[c1].data) } else { g.spec_times(nodes[c0].data) },
        Op::Pow(n) => g.spec_times(n).spec_times(nodes[c0].data.spec_power(n.spec_plus(V::spec_neg_one()))),
        Op::ReLU => g.spec_times(if nodes[c0].data.spec_positive() { V::spec_one() } else { V::spec_zero() }),
        Op::Scalar => g,
    }
}

/// Gradients accumulate: where every node below `root` is a leaf and the root's
/// operands are distinct, each pass of `backward` adds the same share to each
/// operand's gradient, so a second pass without `zero_grad` adds it twice; the
/// root's own gradient is set to one, not added to.
pub proof fn lemma_backward_twice<V: Numeric>(nodes: Seq<Value<V>>, root: int)
    requires
        well_formed(nodes),
        0 <= root < nodes.len(),
        forall|k: int| 0 <= k < root ==> (#[trigger] nodes[k]).op == Op::<V>::Scalar,
        nodes[root].children@.len() == 2 ==> nodes[root].children@[0] != nodes[root].children@[1],
    ensures
        ({
            let once = backprop(nodes, root);
            let twice = backprop(once, root);
            &&& once[root].grad == V::spec_one()
            &&& twice[root].grad == V::spec_one()
            &&& forall|k: int|
                0 <= k < root && #[trigger] nodes[root].has_operand(k) ==> {
                    &&& once[k].grad == nodes[k].grad.spec_plus(share(nodes, root, k))
                    &&& twice[k].grad == once[k].grad.spec_plus(share(nodes, root, k))
                }
        }),
{
    assert(nodes[root].linked_at(root));
    let s1 = seeded(nodes, root);
    let once = step(s1, root);
    lemma_sweep_leaves(once, root);
    let s2 = seeded(once, root);
    let twice = step(s2, root);
    lemma_sweep_leaves(twice, root);
    lemma_operands_below(nodes, root, root);
}

/// Appending a node that holds what it computes keeps every node from `lo` on
/// computed, and so does growing the arena by such nodes.
pub(crate) proof fn lemma_computed_grows<V: Numeric>(a: Arena<V>, b: Arena<V>, lo: int)
    requires
        a.wf(),
        0 <= lo,
        extends(a, b),
        computed_from(a@, lo),
        computed_from(b@, a@.len() as int),
    ensures
        computed_from(b@, lo),
{
    lemma_extends_keeps(a, b);
    assert forall|k: int| lo <= k < b@.len() implies #[trigger] computed(b@, k) by {
        if k < a@.len() {
            assert(computed(a@, k));
            assert(a@[k].linked_at(k));
            let ch = a@[k].children@;
            if ch.len() > 0 {
                assert(b@[ch[0] as int] == a@[ch[0] as int]);
            }
            if ch.len() > 1 {
                assert(b@[ch[1] as int] == a@[ch[1] as int]);
            }
        }
    }
}

/// One appended node that holds what it computes leaves the new part computed.
pub(crate) proof fn lemma_computed_one<V: Numeric>(a: Arena<V>, b: Arena<V>, children: Seq<usize>, op: Op<V>)
    requires
        appends(a, b, children, op),
        computed(b@, a@.len() as int),
    ensures
        computed_from(b@, a@.len() as int),
{
}

/// A node's operands all stand below it.
proof fn lemma_operands_below<V>(s: Seq<Value<V>>, i: int, k: int)
    requires
        well_formed(s),
        0 <= i < s.len(),
        i <= k,
    ensures
        !s[i].has_operand(k),
{
    assert(s[i].linked_at(i));
}

} // verus!
