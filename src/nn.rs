//! A small feed-forward classifier whose parameters are leaves of an [`Arena`].

use vstd::prelude::*;
use crate::engine::{relu_of, 
    Arena, Numeric, Op, adds_leaves, extends, lemma_adds_leaves_trans, lemma_adds_nothing,
    lemma_append_leaf, lemma_appends_extends, computed_from, lemma_computed_grows, lemma_computed_one, lemma_extends_keeps, lemma_extends_trans, Value,
};

verus! {

/// One unit: a weighted sum of its inputs plus a bias, passed through ReLU.
/// The weights and the bias are identifiers of leaves in an arena.
#[derive(Debug)]
pub struct Neuron {
    pub weights: Vec<usize>,
    pub bias: usize,
}

/// A row of neurons that all read the same inputs.
#[derive(Debug)]
pub struct Layer {
    pub neurons: Vec<Neuron>,
}

/// Layers applied one after another.
#[derive(Debug)]
pub struct MLP {
    pub layers: Vec<Layer>,
}

/// Where the initial weights of new neurons come from, such as a random number
/// generator.
pub trait WeightSource<V> {
    /// The next initial weight.
    fn next_weight(&mut self) -> V;
}

impl Neuron {
    /// The neuron has `nin` weights, the leaves `start .. start + nin`, and its
    /// bias is the leaf `start + nin`.
    pub open spec fn laid_out(&self, start: int, nin: int) -> bool {
        &&& self.weights@.len() == nin
        &&& forall|j: int| 0 <= j < nin ==> self.weights@[j] == start + j
        &&& self.bias == start + nin
    }

    /// The parameters of the neuron: its weights, then its bias.
    pub open spec fn params(&self) -> Seq<usize> {
        self.weights@.push(self.bias)
    }
}

/// The parameters of the neurons `ns`, in order.
pub open spec fn neuron_params(ns: Seq<Neuron>) -> Seq<usize>
    decreases ns.len(),
{
    if ns.len() == 0 {
        Seq::empty()
    } else {
        neuron_params(ns.drop_last()) + ns.last().params()
    }
}

impl Layer {
    /// The parameters of the layer: those of each neuron in turn.
    pub open spec fn params(&self) -> Seq<usize> {
        neuron_params(self.neurons@)
    }
}

/// The parameters of the layers `ls`, in order.
pub open spec fn layer_params(ls: Seq<Layer>) -> Seq<usize>
    decreases ls.len(),
{
    if ls.len() == 0 {
        Seq::empty()
    } else {
        layer_params(ls.drop_last()) + ls.last().params()
    }
}

impl MLP {
    /// The parameters of the model: those of each layer in turn.
    pub open spec fn params(&self) -> Seq<usize> {
        layer_params(self.layers@)
    }
}

impl Neuron {
    /// The weights, then the bias.
    pub fn parameters(&self) -> (r: Vec<usize>)
        ensures
            r@ == self.params(),
    {
        let mut parameters: Vec<usize> = Vec::new();
        let mut i: usize = 0;
        while i < self.weights.len()
            invariant
                0 <= i <= self.weights@.len(),
                parameters@ == self.weights@.subrange(0, i as int),
            decreases self.weights@.len() - i,
        {
            parameters.push(self.weights[i]);
            i += 1;
            assert(parameters@ =~= self.weights@.subrange(0, i as int));
        }
        assert(parameters@ =~= self.weights@);
        parameters.push(self.bias);
        parameters
    }
}

impl Layer {
    /// The parameters of each neuron in turn.
    pub fn parameters(&self) -> (r: Vec<usize>)
        ensures
            r@ == self.params(),
    {
        let mut parameters: Vec<usize> = Vec::new();
        let mut i: usize = 0;
        while i < self.neurons.len()
            invariant
                0 <= i <= self.neurons@.len(),
                parameters@ == neuron_params(self.neurons@.subrange(0, i as int)),
            decreases self.neurons@.len() - i,
        {
            let mut p = self.neurons[i].parameters();
            parameters.append(&mut p);
            assert(self.neurons@.subrange(0, i + 1).drop_last() =~= self.neurons@.subrange(0, i as int));
            i += 1;
        }
        assert(self.neurons@.subrange(0, i as int) =~= self.neurons@);
        parameters
    }
}

impl MLP {
    /// The parameters of each layer in turn.
    pub fn parameters(&self) -> (r: Vec<usize>)
        ensures
            r@ == self.params(),
    {
        let mut parameters: Vec<usize> = Vec::new();
        let mut i: usize = 0;
        while i < self.layers.len()
            invariant
                0 <= i <= self.layers@.len(),
                parameters@ == layer_params(self.layers@.subrange(0, i as int)),
            decreases self.layers@.len() - i,
        {
            let mut p = self.layers[i].parameters();
            parameters.append(&mut p);
            assert(self.layers@.subrange(0, i + 1).drop_last() =~= self.layers@.subrange(0, i as int));
            i += 1;
        }
        assert(self.layers@.subrange(0, i as int) =~= self.layers@);
        parameters
    }
}

/// The number of leaves that a model with `nin` inputs and layers of `nouts`
/// neurons holds.
pub open spec fn model_size(nin: int, nouts: Seq<usize>) -> int
    decreases nouts.len(),
{
    if nouts.len() == 0 {
        0
    } else {
        model_size(nin, nouts.drop_last()) + nouts.last() * (inputs_of(nin, nouts, nouts.len() - 1) + 1)
    }
}

/// The number of inputs of layer `l` of a model with `nin` inputs and layers of
/// `nouts` neurons.
pub open spec fn inputs_of(nin: int, nouts: Seq<usize>, l: int) -> int {
    if l == 0 {
        nin
    } else {
        nouts[l - 1] as int
    }
}

impl Neuron {
    /// A neuron with `nin` weights drawn from `source` and a zero bias, all new
    /// leaves of `arena`.
    pub fn new<V: Numeric, S: WeightSource<V>>(arena: &mut Arena<V>, nin: usize, source: &mut S) -> (r: Self)
        requires
            old(arena).wf(),
            old(arena)@.len() + nin + 1 <= usize::MAX,
        ensures
            final(arena).wf(),
            adds_leaves(*old(arena), *final(arena)),
            final(arena)@.len() == old(arena)@.len() + nin + 1,
            r.laid_out(old(arena)@.len() as int, nin as int),
            final(arena)@[r.bias as int].data == old(arena).zero(),
    {
        let ghost a0 = *arena;
        proof {
            lemma_adds_nothing(a0);
        }
        let mut weights: Vec<usize> = Vec::new();
        let mut i: usize = 0;
        while i < nin
            invariant
                0 <= i <= nin,
                arena.wf(),
                adds_leaves(a0, *arena),
                a0@.len() + nin + 1 <= usize::MAX,
                arena@.len() == a0@.len() + i,
                weights@.len() == i,
                forall|j: int| 0 <= j < i ==> weights@[j] == a0@.len() + j,
            decreases nin - i,
        {
            let val = source.next_weight();
            let ghost before = *arena;
            let id = arena.scalar(val);
            proof {
                lemma_append_leaf(before, *arena);
                lemma_adds_leaves_trans(a0, before, *arena);
            }
            weights.push(id);
            i += 1;
        }
        let ghost before = *arena;
        let bias = arena.scalar(arena.zero_value());
        proof {
            lemma_append_leaf(before, *arena);
            lemma_adds_leaves_trans(a0, before, *arena);
        }
        Neuron { weights, bias }
    }
}

impl Layer {
    /// The layer's `nout` neurons each have `nin` weights; neuron `k` has the
    /// leaves from `start + k * (nin + 1)` on.
    pub open spec fn laid_out(&self, start: int, nin: int, nout: int) -> bool {
        &&& self.neurons@.len() == nout
        &&& forall|k: int| 0 <= k < nout ==> (#[trigger] self.neurons@[k]).laid_out(start + k * (nin + 1), nin)
    }

    /// A layer of `nout` neurons with `nin` inputs each.
    pub fn new<V: Numeric, S: WeightSource<V>>(arena: &mut Arena<V>, nin: usize, nout: usize, source: &mut S) -> (r: Self)
        requires
            old(arena).wf(),
            old(arena)@.len() + nout * (nin + 1) <= usize::MAX,
        ensures
            final(arena).wf(),
            adds_leaves(*old(arena), *final(arena)),
            final(arena)@.len() == old(arena)@.len() + nout * (nin + 1),
            r.laid_out(old(arena)@.len() as int, nin as int, nout as int),
    {
        let ghost a0 = *arena;
        proof {
            lemma_adds_nothing(a0);
        }
        let mut neurons: Vec<Neuron> = Vec::new();
        let mut k: usize = 0;
        while k < nout
            invariant
                0 <= k <= nout,
                arena.wf(),
                adds_leaves(a0, *arena),
                a0@.len() + nout * (nin + 1) <= usize::MAX,
                arena@.len() == a0@.len() + k * (nin + 1),
                neurons@.len() == k,
                forall|j: int| 0 <= j < k ==> (#[trigger] neurons@[j]).laid_out(a0@.len() + j * (nin + 1), nin as int),
            decreases nout - k,
        {
            assert(k * (nin + 1) + (nin + 1) <= nout * (nin + 1)) by (nonlinear_arith)
                requires k < nout;
            assert((k + 1) * (nin + 1) == k * (nin + 1) + (nin + 1)) by (nonlinear_arith);
            let ghost before = *arena;
            let n = Neuron::new(arena, nin, source);
            proof {
                lemma_adds_leaves_trans(a0, before, *arena);
            }
            neurons.push(n);
            k += 1;
        }
        Layer { neurons }
    }
}

/// One more layer adds its neurons' leaves to the size of a model.
proof fn lemma_model_size_step(nin: int, nouts: Seq<usize>, l: int)
    requires
        0 <= l < nouts.len(),
        0 <= nin,
    ensures
        model_size(nin, nouts.subrange(0, l + 1)) == model_size(nin, nouts.subrange(0, l))
            + nouts[l] * (inputs_of(nin, nouts, l) + 1),
        model_size(nin, nouts.subrange(0, l)) <= model_size(nin, nouts.subrange(0, l + 1)),
{
    let next = nouts.subrange(0, l + 1);
    assert(next.drop_last() =~= nouts.subrange(0, l));
    assert(inputs_of(nin, next, l) == inputs_of(nin, nouts, l));
    let a = nouts[l] as int;
    let b = inputs_of(nin, nouts, l) + 1;
    assert(a * b >= 0) by (nonlinear_arith)
        requires a >= 0, b >= 0;
}

/// The leaves of the first `l` layers are no more than those of the model.
proof fn lemma_model_size_prefix(nin: int, nouts: Seq<usize>, l: int)
    requires
        0 <= l <= nouts.len(),
        0 <= nin,
    ensures
        model_size(nin, nouts.subrange(0, l)) <= model_size(nin, nouts),
    decreases nouts.len() - l,
{
    if l == nouts.len() {
        assert(nouts.subrange(0, l) =~= nouts);
    } else {
        lemma_model_size_step(nin, nouts, l);
        lemma_model_size_prefix(nin, nouts, l + 1);
    }
}

impl MLP {
    /// Layer `l` has `nouts[l]` neurons with `inputs_of(nin, nouts, l)` inputs
    /// each, laid out from `start` plus the size of the layers before it.
    pub open spec fn laid_out(&self, start: int, nin: int, nouts: Seq<usize>) -> bool {
        &&& self.layers@.len() == nouts.len()
        &&& forall|l: int|
            0 <= l < nouts.len() ==> (#[trigger] self.layers@[l]).laid_out(
                start + model_size(nin, nouts.subrange(0, l)),
                inputs_of(nin, nouts, l),
                nouts[l] as int,
            )
    }

    /// A model with `nin` inputs and a layer of `nouts[l]` neurons for each `l`,
    /// each layer reading the outputs of the one before it.
    pub fn new<V: Numeric, S: WeightSource<V>>(arena: &mut Arena<V>, nin: usize, nouts: Vec<usize>, source: &mut S) -> (r: Self)
        requires
            old(arena).wf(),
            old(arena)@.len() + model_size(nin as int, nouts@) <= usize::MAX,
        ensures
            final(arena).wf(),
            adds_leaves(*old(arena), *final(arena)),
            final(arena)@.len() == old(arena)@.len() + model_size(nin as int, nouts@),
            r.laid_out(old(arena)@.len() as int, nin as int, nouts@),
    {
        let ghost a0 = *arena;
        proof {
            lemma_adds_nothing(a0);
            assert(nouts@.subrange(0, 0) =~= Seq::<usize>::empty());
        }
        let mut current_in = nin;
        let mut layers: Vec<Layer> = Vec::new();
        let mut l: usize = 0;
        while l < nouts.len()
            invariant
                0 <= l <= nouts@.len(),
                arena.wf(),
                adds_leaves(a0, *arena),
                a0@.len() + model_size(nin as int, nouts@) <= usize::MAX,
                arena@.len() == a0@.len() + model_size(nin as int, nouts@.subrange(0, l as int)),
                current_in == inputs_of(nin as int, nouts@, l as int),
                layers@.len() == l,
                forall|j: int|
                    0 <= j < l ==> (#[trigger] layers@[j]).laid_out(
                        a0@.len() + model_size(nin as int, nouts@.subrange(0, j)),
                        inputs_of(nin as int, nouts@, j),
                        nouts@[j] as int,
                    ),
            decreases nouts@.len() - l,
        {
            let nout = nouts[l];
            proof {
                lemma_model_size_step(nin as int, nouts@, l as int);
                lemma_model_size_prefix(nin as int, nouts@, l + 1);
            }
            let ghost before = *arena;
            let layer = Layer::new(arena, current_in, nout, source);
            proof {
                lemma_adds_leaves_trans(a0, before, *arena);
            }
            layers.push(layer);
            current_in = nout;
            l += 1;
        }
        proof {
            assert(nouts@.subrange(0, l as int) =~= nouts@);
        }
        MLP { layers }
    }
}

impl Neuron {
    /// Every weight and the bias address one of the first `n` nodes.
    pub open spec fn valid_in(&self, n: int) -> bool {
        &&& forall|j: int| 0 <= j < self.weights@.len() ==> self.weights@[j] < n
        &&& self.bias < n
    }

    /// The number of weighted terms for `nx` inputs: weights and inputs are
    /// paired up to the shorter of the two.
    pub open spec fn terms(&self, nx: int) -> int {
        if self.weights@.len() <= nx {
            self.weights@.len() as int
        } else {
            nx
        }
    }

    /// The number of nodes that `forward` appends for `nx` inputs.
    pub open spec fn forward_size(&self, nx: int) -> int {
        2 * self.terms(nx) + 1
    }

    /// The node that holds the sum of the bias and the first `j` terms, in a
    /// graph built from `start`.
    pub open spec fn sum_id(&self, start: int, j: int) -> int {
        if j == 0 {
            self.bias as int
        } else {
            start + 2 * j - 1
        }
    }

    /// Term `j` of a graph built from `start`: the product of weight `j` and input
    /// `j` (both older than `start`) at `start + 2j`, and at `start + 2j + 1` its
    /// sum with what came before; each node holding the value it computes.
    pub open spec fn term_built<V: Numeric>(&self, x: Seq<usize>, nodes: Seq<Value<V>>, start: int, j: int) -> bool {
        &&& self.weights@[j] < start
        &&& x[j] < start
        &&& nodes[start + 2 * j].op == Op::<V>::Mul
        &&& nodes[start + 2 * j].data == nodes[self.weights@[j] as int].data.spec_times(nodes[x[j] as int].data)
        &&& nodes[start + 2 * j + 1].data == nodes[self.sum_id(start, j)].data.spec_plus(nodes[start + 2 * j].data)
        &&& nodes[start + 2 * j].children@ == seq![self.weights@[j], x[j]]
        &&& nodes[start + 2 * j + 1].op == Op::<V>::Add
        &&& nodes[start + 2 * j + 1].children@ == seq![self.sum_id(start, j) as usize, (start + 2 * j) as usize]
    }

    /// The nodes from `start` on are those that `forward` appends for the inputs
    /// `x`: each term, then the ReLU of the whole sum, which holds `relu_of` the
    /// sum's value.
    pub open spec fn built<V: Numeric>(&self, x: Seq<usize>, nodes: Seq<Value<V>>, start: int) -> bool {
        let m = self.terms(x.len() as int);
        &&& self.bias < start
        &&& nodes[start + 2 * m].data == relu_of(nodes[self.sum_id(start, m)].data)
        &&& start + 2 * m + 1 <= nodes.len()
        &&& forall|j: int| 0 <= j < m ==> #[trigger] self.term_built(x, nodes, start, j)
        &&& nodes[start + 2 * m].op == Op::<V>::ReLU
        &&& nodes[start + 2 * m].children@ == seq![self.sum_id(start, m) as usize]
    }

    /// Appends the graph of `relu(bias + sum of weight[j] * x[j])` and returns the
    /// identifier of its output.
    pub fn forward<V: Numeric>(&self, arena: &mut Arena<V>, x: Vec<usize>) -> (r: usize)
        requires
            old(arena).wf(),
            self.valid_in(old(arena)@.len() as int),
            forall|j: int| 0 <= j < x@.len() ==> x@[j] < old(arena)@.len(),
            old(arena)@.len() + self.forward_size(x@.len() as int) <= usize::MAX,
        ensures
            final(arena).wf(),
            extends(*old(arena), *final(arena)),
            final(arena)@.len() == old(arena)@.len() + self.forward_size(x@.len() as int),
            self.built(x@, final(arena)@, old(arena)@.len() as int),
            r == final(arena)@.len() - 1,
            computed_from(final(arena)@, old(arena)@.len() as int),
    {
        let ghost a0 = *arena;
        let ghost start = a0@.len() as int;
        proof {
            lemma_adds_nothing(a0);
        }
        let m = if self.weights.len() <= x.len() { self.weights.len() } else { x.len() };
        let mut sum = self.bias;
        let mut j: usize = 0;
        while j < m
            invariant
                m == self.terms(x@.len() as int),
                0 <= j <= m,
                arena.wf(),
                extends(a0, *arena),
                self.valid_in(start),
                start == a0@.len(),
                forall|i: int| 0 <= i < x@.len() ==> x@[i] < start,
                start + 2 * m + 1 <= usize::MAX,
                arena@.len() == start + 2 * j,
                sum as int == self.sum_id(start, j as int),
                sum < arena@.len(),
                forall|i: int| 0 <= i < j ==> #[trigger] self.term_built(x@, arena@, start, i),
                computed_from(arena@, start),
            decreases m - j,
        {
            let ghost before = *arena;
            let product = arena.mul(self.weights[j], x[j]);
            let ghost mid = *arena;
            let ghost prev = sum;
            sum = arena.add(sum, product);
            proof {
                lemma_appends_extends(before, mid, seq![self.weights@[j as int], x@[j as int]], Op::Mul);
                lemma_appends_extends(mid, *arena, seq![prev, product], Op::Add);
                lemma_computed_one(before, mid, seq![self.weights@[j as int], x@[j as int]], Op::Mul);
                lemma_computed_grows(before, mid, start);
                lemma_computed_one(mid, *arena, seq![prev, product], Op::Add);
                lemma_computed_grows(mid, *arena, start);
                lemma_extends_trans(before, mid, *arena);
                lemma_extends_trans(a0, before, *arena);
                assert(arena@[start + 2 * j] == mid@[start + 2 * j]);
                assert forall|i: int| 0 <= i < j + 1 implies #[trigger] self.term_built(x@, arena@, start, i) by {
                    if i < j {
                        assert(self.term_built(x@, before@, start, i));
                    }
                }
            }
            j += 1;
        }
        let ghost before = *arena;
        let r = arena.relu(sum);
        proof {
            lemma_appends_extends(before, *arena, seq![sum], Op::ReLU);
            lemma_computed_one(before, *arena, seq![sum], Op::ReLU);
            lemma_computed_grows(before, *arena, start);
            lemma_extends_trans(a0, before, *arena);
            assert forall|i: int| 0 <= i < m implies #[trigger] self.term_built(x@, arena@, start, i) by {
                assert(self.term_built(x@, before@, start, i));
            }
        }
        r
    }
}

/// What a neuron built stays as it is when the arena grows.
proof fn lemma_built_stays<V: Numeric>(n: Neuron, x: Seq<usize>, a: Arena<V>, b: Arena<V>, start: int)
    requires
        n.built(x, a@, start),
        0 <= start,
        extends(a, b),
    ensures
        n.built(x, b@, start),
{
    lemma_extends_keeps(a, b);
    let m = n.terms(x.len() as int);
    assert forall|j: int| 0 <= j < m implies #[trigger] n.term_built(x, b@, start, j) by {
        assert(n.term_built(x, a@, start, j));
    }
}

/// The number of nodes that `forward` appends for the neurons `ns` and `nx`
/// inputs.
pub open spec fn neurons_forward_size(ns: Seq<Neuron>, nx: int) -> int
    decreases ns.len(),
{
    if ns.len() == 0 {
        0
    } else {
        neurons_forward_size(ns.drop_last(), nx) + ns.last().forward_size(nx)
    }
}

/// One more neuron adds its nodes; the count never shrinks.
proof fn lemma_neurons_size_step(ns: Seq<Neuron>, nx: int, k: int)
    requires
        0 <= k < ns.len(),
        0 <= nx,
    ensures
        neurons_forward_size(ns.subrange(0, k + 1), nx)
            == neurons_forward_size(ns.subrange(0, k), nx) + ns[k].forward_size(nx),
        ns[k].forward_size(nx) >= 1,
{
    assert(ns.subrange(0, k + 1).drop_last() =~= ns.subrange(0, k));
}

/// The nodes of the first `k` neurons are no more than those of all.
proof fn lemma_neurons_size_prefix(ns: Seq<Neuron>, nx: int, k: int)
    requires
        0 <= k <= ns.len(),
        0 <= nx,
    ensures
        neurons_forward_size(ns.subrange(0, k), nx) <= neurons_forward_size(ns, nx),
    decreases ns.len() - k,
{
    if k == ns.len() {
        assert(ns.subrange(0, k) =~= ns);
    } else {
        lemma_neurons_size_step(ns, nx, k);
        lemma_neurons_size_prefix(ns, nx, k + 1);
    }
}

/// A count of nodes is never negative.
proof fn lemma_neurons_size_nonneg(ns: Seq<Neuron>, nx: int, k: int)
    requires
        0 <= k <= ns.len(),
        0 <= nx,
    ensures
        0 <= neurons_forward_size(ns.subrange(0, k), nx),
    decreases k,
{
    if k == 0 {
        assert(ns.subrange(0, k) =~= Seq::<Neuron>::empty());
    } else {
        lemma_neurons_size_step(ns, nx, k - 1);
        lemma_neurons_size_nonneg(ns, nx, k - 1);
    }
}

impl Layer {
    /// Every parameter addresses one of the first `n` nodes.
    pub open spec fn valid_in(&self, n: int) -> bool {
        forall|k: int| 0 <= k < self.neurons@.len() ==> (#[trigger] self.neurons@[k]).valid_in(n)
    }

    /// The number of nodes that `forward` appends for `nx` inputs.
    pub open spec fn forward_size(&self, nx: int) -> int {
        neurons_forward_size(self.neurons@, nx)
    }

    /// Where the graph of neuron `k` begins, when the layer's graph begins at
    /// `start` and it has `nx` inputs.
    pub open spec fn start_of(&self, start: int, nx: int, k: int) -> int {
        start + neurons_forward_size(self.neurons@.subrange(0, k), nx)
    }

    /// The outputs that `forward` returns when the layer's graph begins at
    /// `start` and it has `nx` inputs: the last node of each neuron's graph.
    pub open spec fn outputs(&self, start: int, nx: int) -> Seq<usize> {
        Seq::new(
            self.neurons@.len(),
            |k: int| (self.start_of(start, nx, k) + self.neurons@[k].forward_size(nx) - 1) as usize,
        )
    }

    /// Neuron `k` has built its graph for the inputs `x` where it belongs, when
    /// the layer's graph begins at `start`, and `out` is that graph's output.
    pub open spec fn output_built<V: Numeric>(&self, x: Seq<usize>, nodes: Seq<Value<V>>, start: int, k: int, out: int) -> bool {
        let s = self.start_of(start, x.len() as int, k);
        &&& self.neurons@[k].built(x, nodes, s)
        &&& out == s + self.neurons@[k].forward_size(x.len() as int) - 1
    }

    /// Appends the graph of each neuron in turn, on the same inputs, and returns
    /// their outputs.
    pub fn forward<V: Numeric>(&self, arena: &mut Arena<V>, x: Vec<usize>) -> (r: Vec<usize>)
        requires
            old(arena).wf(),
            self.valid_in(old(arena)@.len() as int),
            forall|j: int| 0 <= j < x@.len() ==> x@[j] < old(arena)@.len(),
            old(arena)@.len() + self.forward_size(x@.len() as int) <= usize::MAX,
        ensures
            final(arena).wf(),
            extends(*old(arena), *final(arena)),
            final(arena)@.len() == old(arena)@.len() + self.forward_size(x@.len() as int),
            r@.len() == self.neurons@.len(),
            r@ == self.outputs(old(arena)@.len() as int, x@.len() as int),
            forall|k: int|
                0 <= k < self.neurons@.len() ==> #[trigger] self.output_built(
                    x@,
                    final(arena)@,
                    old(arena)@.len() as int,
                    k,
                    r@[k] as int,
                ),
            forall|k: int| 0 <= k < r@.len() ==> #[trigger] r@[k] < final(arena)@.len(),
            forall|k: int| 0 <= k < r@.len() ==> (#[trigger] final(arena)@[r@[k] as int]).op == Op::<V>::ReLU,
            computed_from(final(arena)@, old(arena)@.len() as int),
    {
        let ghost a0 = *arena;
        let ghost start = a0@.len() as int;
        let ghost nx = x@.len() as int;
        proof {
            lemma_adds_nothing(a0);
            assert(self.neurons@.subrange(0, 0) =~= Seq::<Neuron>::empty());
        }
        let mut outputs: Vec<usize> = Vec::new();
        let mut k: usize = 0;
        while k < self.neurons.len()
            invariant
                0 <= k <= self.neurons@.len(),
                arena.wf(),
                extends(a0, *arena),
                start == a0@.len(),
                nx == x@.len(),
                self.valid_in(start),
                forall|j: int| 0 <= j < x@.len() ==> x@[j] < start,
                start + self.forward_size(nx) <= usize::MAX,
                arena@.len() == self.start_of(start, nx, k as int),
                outputs@.len() == k,
                forall|i: int| 0 <= i < k ==> #[trigger] self.output_built(x@, arena@, start, i, outputs@[i] as int),
                computed_from(arena@, start),
            decreases self.neurons@.len() - k,
        {
            proof {
                lemma_neurons_size_step(self.neurons@, nx, k as int);
                lemma_neurons_size_prefix(self.neurons@, nx, k + 1);
                lemma_neurons_size_nonneg(self.neurons@, nx, k as int);
                assert(self.neurons@[k as int].valid_in(start));
            }
            let ghost before = *arena;
            let out = self.neurons[k].forward(arena, x.clone());
            proof {
                lemma_extends_trans(a0, before, *arena);
                lemma_computed_grows(before, *arena, start);
            }
            outputs.push(out);
            proof {
                assert forall|i: int| 0 <= i < k + 1 implies #[trigger] self.output_built(x@, arena@, start, i, outputs@[i] as int) by {
                    if i < k {
                        assert(self.output_built(x@, before@, start, i, outputs@[i] as int));
                        lemma_neurons_size_nonneg(self.neurons@, nx, i);
                        lemma_built_stays(self.neurons@[i], x@, before, *arena, self.start_of(start, nx, i));
                    }
                }
            }
            k += 1;
        }
        proof {
            assert(self.neurons@.subrange(0, k as int) =~= self.neurons@);
            assert forall|i: int| 0 <= i < outputs@.len() implies #[trigger] outputs@[i] < arena@.len()
                && arena@[outputs@[i] as int].op == Op::<V>::ReLU by {
                assert(self.output_built(x@, arena@, start, i, outputs@[i] as int));
            }
            assert forall|i: int| 0 <= i < outputs@.len() implies outputs@[i] == #[trigger] self.outputs(start, nx)[i] by {
                assert(self.output_built(x@, arena@, start, i, outputs@[i] as int));
            }
            assert(outputs@ =~= self.outputs(start, nx));
        }
        outputs
    }
}

/// How many values the layers `ls` hand on, given `nx` inputs.
pub open spec fn width_after(ls: Seq<Layer>, nx: int) -> int {
    if ls.len() == 0 {
        nx
    } else {
        ls.last().neurons@.len() as int
    }
}

/// The number of nodes that `forward` appends for the layers `ls` and `nx`
/// inputs.
pub open spec fn layers_forward_size(ls: Seq<Layer>, nx: int) -> int
    decreases ls.len(),
{
    if ls.len() == 0 {
        0
    } else {
        layers_forward_size(ls.drop_last(), nx) + ls.last().forward_size(width_after(ls.drop_last(), nx))
    }
}

/// One more layer adds its nodes; the count never shrinks.
proof fn lemma_layers_size_step(ls: Seq<Layer>, nx: int, l: int)
    requires
        0 <= l < ls.len(),
        0 <= nx,
    ensures
        layers_forward_size(ls.subrange(0, l + 1), nx) == layers_forward_size(ls.subrange(0, l), nx)
            + ls[l].forward_size(width_after(ls.subrange(0, l), nx)),
        ls[l].forward_size(width_after(ls.subrange(0, l), nx)) >= 0,
        width_after(ls.subrange(0, l + 1), nx) == ls[l].neurons@.len(),
{
    let next = ls.subrange(0, l + 1);
    assert(next.drop_last() =~= ls.subrange(0, l));
    let ns = ls[l].neurons@;
    lemma_neurons_size_nonneg(ns, width_after(ls.subrange(0, l), nx), ns.len() as int);
    assert(ns.subrange(0, ns.len() as int) =~= ns);
}

/// The nodes of the first `l` layers are no more than those of all.
proof fn lemma_layers_size_prefix(ls: Seq<Layer>, nx: int, l: int)
    requires
        0 <= l <= ls.len(),
        0 <= nx,
    ensures
        layers_forward_size(ls.subrange(0, l), nx) <= layers_forward_size(ls, nx),
    decreases ls.len() - l,
{
    if l == ls.len() {
        assert(ls.subrange(0, l) =~= ls);
    } else {
        lemma_layers_size_step(ls, nx, l);
        lemma_layers_size_prefix(ls, nx, l + 1);
    }
}

/// What a layer of a model built stays as it is when the arena grows.
proof fn lemma_layer_built_stays<V: Numeric>(model: MLP, x: Seq<usize>, a: Arena<V>, b: Arena<V>, start: int, l: int)
    requires
        model.layer_built(x, a@, start, l),
        0 <= l < model.layers@.len(),
        0 <= start,
        extends(a, b),
    ensures
        model.layer_built(x, b@, start, l),
{
    let (inputs, begin) = model.stage(x, start, l);
    let outputs = model.stage(x, start, l + 1).0;
    let layer = model.layers@[l];
    lemma_stage_begins_after(model, x, start, l);
    assert forall|k: int| 0 <= k < layer.neurons@.len() implies #[trigger] layer.output_built(
        inputs,
        b@,
        begin,
        k,
        outputs[k] as int,
    ) by {
        assert(layer.output_built(inputs, a@, begin, k, outputs[k] as int));
        lemma_neurons_size_nonneg(layer.neurons@, inputs.len() as int, k);
        lemma_built_stays(layer.neurons@[k], inputs, a, b, layer.start_of(begin, inputs.len() as int, k));
    }
}

/// The graph of each layer begins no earlier than the model's.
proof fn lemma_stage_begins_after(model: MLP, x: Seq<usize>, start: int, l: int)
    requires
        0 <= l <= model.layers@.len(),
    ensures
        model.stage(x, start, l).1 >= start,
    decreases l,
{
    if l > 0 {
        lemma_stage_begins_after(model, x, start, l - 1);
        let (inputs, begin) = model.stage(x, start, l - 1);
        let ns = model.layers@[l - 1].neurons@;
        lemma_neurons_size_nonneg(ns, inputs.len() as int, ns.len() as int);
        assert(ns.subrange(0, ns.len() as int) =~= ns);
    }
}

/// A model appends no negative number of nodes.
pub(crate) proof fn lemma_forward_size_nonneg(model: MLP, nx: int)
    requires
        0 <= nx,
    ensures
        model.forward_size(nx) >= 0,
{
    lemma_layers_size_prefix(model.layers@, nx, 0);
    assert(model.layers@.subrange(0, 0) =~= Seq::<Layer>::empty());
}

/// The parameters of valid neurons address live nodes.
proof fn lemma_neuron_params_valid(ns: Seq<Neuron>, n: int)
    requires
        forall|k: int| 0 <= k < ns.len() ==> (#[trigger] ns[k]).valid_in(n),
    ensures
        forall|k: int| 0 <= k < neuron_params(ns).len() ==> #[trigger] neuron_params(ns)[k] < n,
    decreases ns.len(),
{
    if ns.len() > 0 {
        let init = ns.drop_last();
        assert forall|k: int| 0 <= k < init.len() implies (#[trigger] init[k]).valid_in(n) by {
            assert(init[k] == ns[k]);
        }
        lemma_neuron_params_valid(init, n);
        assert(ns.last().valid_in(n));
        let a = neuron_params(init);
        let b = ns.last().params();
        assert(neuron_params(ns) == a + b);
        assert forall|k: int| 0 <= k < (a + b).len() implies #[trigger] (a + b)[k] < n by {
            if k < a.len() {
                assert((a + b)[k] == a[k]);
            } else {
                assert((a + b)[k] == b[k - a.len()]);
            }
        }
    }
}

/// The parameters of valid layers address live nodes.
proof fn lemma_layer_params_valid(ls: Seq<Layer>, n: int)
    requires
        forall|l: int| 0 <= l < ls.len() ==> (#[trigger] ls[l]).valid_in(n),
    ensures
        forall|k: int| 0 <= k < layer_params(ls).len() ==> #[trigger] layer_params(ls)[k] < n,
    decreases ls.len(),
{
    if ls.len() > 0 {
        let init = ls.drop_last();
        assert forall|l: int| 0 <= l < init.len() implies (#[trigger] init[l]).valid_in(n) by {
            assert(init[l] == ls[l]);
        }
        lemma_layer_params_valid(init, n);
        assert(ls.last().valid_in(n));
        lemma_neuron_params_valid(ls.last().neurons@, n);
        let a = layer_params(init);
        let b = ls.last().params();
        assert(layer_params(ls) == a + b);
        assert forall|k: int| 0 <= k < (a + b).len() implies #[trigger] (a + b)[k] < n by {
            if k < a.len() {
                assert((a + b)[k] == a[k]);
            } else {
                assert((a + b)[k] == b[k - a.len()]);
            }
        }
    }
}

/// The parameters of a valid model address live nodes.
pub(crate) proof fn lemma_params_valid(model: MLP, n: int)
    requires
        model.valid_in(n),
    ensures
        forall|k: int| 0 <= k < model.params().len() ==> #[trigger] model.params()[k] < n,
{
    lemma_layer_params_valid(model.layers@, n);
}

impl MLP {
    /// Every parameter addresses one of the first `n` nodes.
    pub open spec fn valid_in(&self, n: int) -> bool {
        forall|l: int| 0 <= l < self.layers@.len() ==> (#[trigger] self.layers@[l]).valid_in(n)
    }

    /// The number of nodes that `forward` appends for `nx` inputs.
    pub open spec fn forward_size(&self, nx: int) -> int {
        layers_forward_size(self.layers@, nx)
    }

    /// The inputs of layer `l`, and where its graph begins, when the model's
    /// graph begins at `start` on the inputs `x`: layer 0 reads `x`, and each
    /// later layer the outputs of the one before it, whose graph it follows.
    pub open spec fn stage(&self, x: Seq<usize>, start: int, l: int) -> (Seq<usize>, int)
        decreases l,
    {
        if l <= 0 {
            (x, start)
        } else {
            let (inputs, begin) = self.stage(x, start, l - 1);
            let layer = self.layers@[l - 1];
            (layer.outputs(begin, inputs.len() as int), begin + layer.forward_size(inputs.len() as int))
        }
    }

    /// Layer `l` has built the graph of each of its neurons on its inputs, where
    /// `stage` places it.
    pub open spec fn layer_built<V: Numeric>(&self, x: Seq<usize>, nodes: Seq<Value<V>>, start: int, l: int) -> bool {
        let (inputs, begin) = self.stage(x, start, l);
        let outputs = self.stage(x, start, l + 1).0;
        forall|k: int|
            0 <= k < self.layers@[l].neurons@.len() ==> #[trigger] self.layers@[l].output_built(
                inputs,
                nodes,
                begin,
                k,
                outputs[k] as int,
            )
    }

    /// Appends the graph of each layer in turn, each on the outputs of the one
    /// before, and returns the outputs of the last.
    pub fn forward<V: Numeric>(&self, arena: &mut Arena<V>, x: Vec<usize>) -> (r: Vec<usize>)
        requires
            old(arena).wf(),
            self.valid_in(old(arena)@.len() as int),
            forall|j: int| 0 <= j < x@.len() ==> x@[j] < old(arena)@.len(),
            old(arena)@.len() + self.forward_size(x@.len() as int) <= usize::MAX,
        ensures
            final(arena).wf(),
            extends(*old(arena), *final(arena)),
            final(arena)@.len() == old(arena)@.len() + self.forward_size(x@.len() as int),
            r@.len() == width_after(self.layers@, x@.len() as int),
            forall|k: int| 0 <= k < r@.len() ==> #[trigger] r@[k] < final(arena)@.len(),
            self.layers@.len() == 0 ==> r@ == x@,
            self.layers@.len() > 0 ==> forall|k: int|
                0 <= k < r@.len() ==> (#[trigger] final(arena)@[r@[k] as int]).op == Op::<V>::ReLU,
            r@ == self.stage(x@, old(arena)@.len() as int, self.layers@.len() as int).0,
            forall|l: int|
                0 <= l < self.layers@.len() ==> #[trigger] self.layer_built(
                    x@,
                    final(arena)@,
                    old(arena)@.len() as int,
                    l,
                ),
            computed_from(final(arena)@, old(arena)@.len() as int),
    {
        let ghost a0 = *arena;
        let ghost start = a0@.len() as int;
        let ghost nx = x@.len() as int;
        proof {
            lemma_adds_nothing(a0);
            assert(self.layers@.subrange(0, 0) =~= Seq::<Layer>::empty());
        }
        let mut current = x;
        let mut l: usize = 0;
        while l < self.layers.len()
            invariant
                0 <= l <= self.layers@.len(),
                arena.wf(),
                extends(a0, *arena),
                start == a0@.len(),
                nx == x@.len(),
                self.valid_in(start),
                start + self.forward_size(nx) <= usize::MAX,
                arena@.len() == start + layers_forward_size(self.layers@.subrange(0, l as int), nx),
                current@.len() == width_after(self.layers@.subrange(0, l as int), nx),
                forall|j: int| 0 <= j < current@.len() ==> #[trigger] current@[j] < arena@.len(),
                l == 0 ==> current@ == x@,
                current@ == self.stage(x@, start, l as int).0,
                arena@.len() == self.stage(x@, start, l as int).1,
                forall|j: int| 0 <= j < l ==> #[trigger] self.layer_built(x@, arena@, start, j),
                computed_from(arena@, start),
                l > 0 ==> forall|k: int|
                    0 <= k < current@.len() ==> (#[trigger] arena@[current@[k] as int]).op == Op::<V>::ReLU,
            decreases self.layers@.len() - l,
        {
            proof {
                lemma_layers_size_step(self.layers@, nx, l as int);
                lemma_layers_size_prefix(self.layers@, nx, l + 1);
                assert(self.layers@[l as int].valid_in(start));
                assert forall|k: int| 0 <= k < self.layers@[l as int].neurons@.len()
                    implies #[trigger] self.layers@[l as int].neurons@[k].valid_in(arena@.len() as int) by {
                    assert(self.layers@[l as int].neurons@[k].valid_in(start));
                }
            }
            let ghost before = *arena;
            let ghost inputs = current@;
            current = self.layers[l].forward(arena, current);
            proof {
                lemma_extends_trans(a0, before, *arena);
                lemma_computed_grows(before, *arena, start);
                let layer = self.layers@[l as int];
                assert forall|k: int| 0 <= k < layer.neurons@.len() implies #[trigger] layer.output_built(
                    inputs,
                    arena@,
                    before@.len() as int,
                    k,
                    self.stage(x@, start, l + 1).0[k] as int,
                ) by {
                    assert(layer.output_built(inputs, arena@, before@.len() as int, k, current@[k] as int));
                }
                assert(self.layer_built(x@, arena@, start, l as int));
                assert forall|j: int| 0 <= j < l implies #[trigger] self.layer_built(x@, arena@, start, j) by {
                    lemma_layer_built_stays(*self, x@, before, *arena, start, j);
                }
            }
            l += 1;
        }
        proof {
            assert(self.layers@.subrange(0, l as int) =~= self.layers@);
        }
        current
    }
}

} // verus!
