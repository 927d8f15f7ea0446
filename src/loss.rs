//! The training objective: a max-margin loss over a batch, plus L2 regularisation.

use vstd::prelude::*;
use crate::engine::{
    Value, Arena, Numeric, Op, computed_from, extends, lemma_adds_nothing, lemma_appends_extends, lemma_computed_grows,
    lemma_computed_one, lemma_extends_keeps, lemma_extends_trans,
};
use crate::nn::{MLP, lemma_forward_size_nonneg, lemma_params_valid, width_after};

verus! {

/// The number of nodes that scoring the rows `rows` with `model` appends: a
/// leaf per input value and the model's graph, for each row.
pub open spec fn scoring_size<V>(model: MLP, rows: Seq<Vec<V>>) -> int
    decreases rows.len(),
{
    if rows.len() == 0 {
        0
    } else {
        scoring_size(model, rows.drop_last()) + rows.last()@.len() + model.forward_size(rows.last()@.len() as int)
    }
}

/// One more row adds its leaves and its graph.
proof fn lemma_scoring_size_step<V>(model: MLP, rows: Seq<Vec<V>>, i: int)
    requires
        0 <= i < rows.len(),
    ensures
        scoring_size(model, rows.subrange(0, i + 1)) == scoring_size(model, rows.subrange(0, i))
            + rows[i]@.len() + model.forward_size(rows[i]@.len() as int),
{
    assert(rows.subrange(0, i + 1).drop_last() =~= rows.subrange(0, i));
}

/// The nodes for the first `i` rows are no more than those for all.
proof fn lemma_scoring_size_prefix<V>(model: MLP, rows: Seq<Vec<V>>, i: int)
    requires
        0 <= i <= rows.len(),
    ensures
        scoring_size(model, rows.subrange(0, i)) <= scoring_size(model, rows),
    decreases rows.len() - i,
{
    if i == rows.len() {
        assert(rows.subrange(0, i) =~= rows);
    } else {
        lemma_scoring_size_step(model, rows, i);
        lemma_forward_size_nonneg(model, rows[i]@.len() as int);
        lemma_scoring_size_prefix(model, rows, i + 1);
    }
}

/// Where the leaves of row `k` begin, when scoring begins at `start`.
pub open spec fn row_start<V>(model: MLP, x: Seq<Vec<V>>, start: int, k: int) -> int {
    start + scoring_size(model, x.subrange(0, k))
}

/// The leaves that hold row `k`.
pub open spec fn row_inputs<V>(model: MLP, x: Seq<Vec<V>>, start: int, k: int) -> Seq<usize> {
    Seq::new(x[k]@.len(), |j: int| (row_start(model, x, start, k) + j) as usize)
}

/// The node that holds the score of row `k`: the first output of the model's
/// graph on the row's leaves, which follows them.
pub open spec fn score_id<V>(model: MLP, x: Seq<Vec<V>>, start: int, k: int) -> usize {
    let inputs = row_inputs(model, x, start, k);
    model.stage(inputs, row_start(model, x, start, k) + x[k]@.len(), model.layers@.len() as int).0[0]
}

/// The sizes of the first `k` rows' nodes grow with `k`.
proof fn lemma_row_start_mono<V>(model: MLP, x: Seq<Vec<V>>, k: int, i: int)
    requires
        0 <= k < i <= x.len(),
    ensures
        scoring_size(model, x.subrange(0, k)) + x[k]@.len() <= scoring_size(model, x.subrange(0, i)),
{
    let xi = x.subrange(0, i);
    lemma_scoring_size_step(model, xi, k);
    lemma_forward_size_nonneg(model, x[k]@.len() as int);
    lemma_scoring_size_prefix(model, xi, k + 1);
    assert(xi.subrange(0, k + 1) =~= x.subrange(0, k + 1));
    assert(xi.subrange(0, k) =~= x.subrange(0, k));
}

/// Scores each row: puts its values in leaves, runs the model on them and keeps
/// the first output.
fn score_rows<V: Numeric>(arena: &mut Arena<V>, model: &MLP, x: &Vec<Vec<V>>) -> (r: Vec<usize>)
    requires
        old(arena).wf(),
        model.valid_in(old(arena)@.len() as int),
        forall|k: int| 0 <= k < x@.len() ==> width_after(model.layers@, #[trigger] x@[k]@.len() as int) >= 1,
        old(arena)@.len() + scoring_size(*model, x@) <= usize::MAX,
    ensures
        final(arena).wf(),
        extends(*old(arena), *final(arena)),
        final(arena)@.len() == old(arena)@.len() + scoring_size(*model, x@),
        r@.len() == x@.len(),
        forall|k: int| 0 <= k < r@.len() ==> #[trigger] r@[k] < final(arena)@.len(),
        forall|k: int| 0 <= k < r@.len() ==> #[trigger] r@[k] == score_id(*model, x@, old(arena)@.len() as int, k),
        forall|k: int, j: int|
            0 <= k < x@.len() && 0 <= j < x@[k]@.len() ==> final(arena)@[row_start(*model, x@, old(arena)@.len() as int, k) + j].data
                == #[trigger] x@[k]@[j],
        computed_from(final(arena)@, old(arena)@.len() as int),
{
    let ghost a0 = *arena;
    proof {
        lemma_adds_nothing(a0);
        assert(x@.subrange(0, 0) =~= Seq::<Vec<V>>::empty());
    }
    let mut scores: Vec<usize> = Vec::new();
    let mut i: usize = 0;
    while i < x.len()
        invariant
            0 <= i <= x@.len(),
            arena.wf(),
            extends(a0, *arena),
            model.valid_in(a0@.len() as int),
            forall|k: int| 0 <= k < x@.len() ==> width_after(model.layers@, #[trigger] x@[k]@.len() as int) >= 1,
            a0@.len() + scoring_size(*model, x@) <= usize::MAX,
            arena@.len() == a0@.len() + scoring_size(*model, x@.subrange(0, i as int)),
            scores@.len() == i,
            forall|k: int| 0 <= k < i ==> #[trigger] scores@[k] < arena@.len(),
            forall|k: int| 0 <= k < i ==> #[trigger] scores@[k] == score_id(*model, x@, a0@.len() as int, k),
            forall|k: int, j: int|
                0 <= k < i && 0 <= j < x@[k]@.len() ==> arena@[row_start(*model, x@, a0@.len() as int, k) + j].data
                    == #[trigger] x@[k]@[j],
            computed_from(arena@, a0@.len() as int),
        decreases x@.len() - i,
    {
        proof {
            lemma_scoring_size_step(*model, x@, i as int);
            lemma_scoring_size_prefix(*model, x@, i + 1);
            lemma_forward_size_nonneg(*model, x@[i as int]@.len() as int);
        }
        let row = &x[i];
        let ghost before_row = *arena;
        let ghost a1 = *arena;
        proof {
            lemma_adds_nothing(a1);
        }
        let mut input_ids: Vec<usize> = Vec::new();
        let mut j: usize = 0;
        while j < row.len()
            invariant
                0 <= j <= row@.len(),
                arena.wf(),
                extends(a1, *arena),
                arena@.len() == a1@.len() + j,
                a1@.len() + row@.len() <= usize::MAX,
                input_ids@.len() == j,
                forall|k: int| 0 <= k < j ==> #[trigger] input_ids@[k] < arena@.len(),
                forall|k: int| 0 <= k < j ==> #[trigger] input_ids@[k] == a1@.len() + k,
                forall|k: int| 0 <= k < j ==> #[trigger] arena@[a1@.len() + k].data == row@[k],
                computed_from(arena@, a1@.len() as int),
            decreases row@.len() - j,
        {
            let ghost before = *arena;
            let id = arena.scalar(row[j]);
            proof {
                lemma_appends_extends(before, *arena, seq![], Op::Scalar);
                lemma_extends_trans(a1, before, *arena);
                lemma_computed_one(before, *arena, seq![], Op::Scalar);
                lemma_computed_grows(before, *arena, a1@.len() as int);
                lemma_extends_keeps(before, *arena);
            }
            input_ids.push(id);
            j += 1;
        }
        proof {
            lemma_extends_trans(a0, a1, *arena);
            assert forall|l: int| 0 <= l < model.layers@.len()
                implies #[trigger] model.layers@[l].valid_in(arena@.len() as int) by {
                assert(model.layers@[l].valid_in(a0@.len() as int));
                assert forall|k: int| 0 <= k < model.layers@[l].neurons@.len()
                    implies #[trigger] model.layers@[l].neurons@[k].valid_in(arena@.len() as int) by {
                    assert(model.layers@[l].neurons@[k].valid_in(a0@.len() as int));
                }
            }
        }
        let ghost a2 = *arena;
        proof {
            assert(input_ids@ =~= row_inputs(*model, x@, a0@.len() as int, i as int));
        }
        let outputs = model.forward(arena, input_ids);
        let ghost prev = *arena;
        proof {
            lemma_extends_trans(a0, a2, *arena);
            lemma_extends_trans(a1, a2, *arena);
            lemma_extends_keeps(a2, *arena);
            lemma_extends_keeps(before_row, a1);
            lemma_computed_grows(a1, a2, a0@.len() as int);
            lemma_computed_grows(a2, *arena, a0@.len() as int);
        }
        scores.push(outputs[0]);
        proof {
            lemma_extends_keeps(before_row, *arena);
            assert forall|k: int, j: int|
                0 <= k < i + 1 && 0 <= j < x@[k]@.len() implies arena@[row_start(*model, x@, a0@.len() as int, k) + j].data
                    == #[trigger] x@[k]@[j] by {
                let idx = row_start(*model, x@, a0@.len() as int, k) + j;
                if k < i {
                    lemma_row_start_mono(*model, x@, k, i as int);
                    lemma_scoring_size_prefix(*model, x@.subrange(0, k), 0);
                    assert(x@.subrange(0, k).subrange(0, 0) =~= Seq::<Vec<V>>::empty());
                    assert(before_row@.len() == a0@.len() + scoring_size(*model, x@.subrange(0, i as int)));
                    assert(before_row@[idx].data == x@[k]@[j]);
                    assert(arena@[idx] == before_row@[idx]);
                } else {
                    assert(idx == a1@.len() + j);
                    assert(a2@[a1@.len() + j].data == row@[j]);
                    assert(arena@[a1@.len() + j] == a2@[a1@.len() + j]);
                }
            }
        }
        i += 1;
    }
    proof {
        assert(x@.subrange(0, i as int) =~= x@);
    }
    scores
}

/// The number of samples that the loss counts: rows paired with labels, up to
/// the shorter of the two.
pub open spec fn samples<V>(x: Seq<Vec<V>>, y: Seq<V>) -> int {
    if x.len() <= y.len() {
        x.len() as int
    } else {
        y.len() as int
    }
}

/// The scores of the first `n` rows, as the nodes hold them.
pub open spec fn score_values<V: Numeric>(model: MLP, x: Seq<Vec<V>>, nodes: Seq<Value<V>>, start: int, n: int) -> Seq<V> {
    Seq::new(n as nat, |k: int| nodes[score_id(model, x, start, k) as int].data)
}

/// How many of the first `n` samples have a score of the label's sign: both
/// positive, or both not.
pub open spec fn agreeing<V: Numeric>(y: Seq<V>, scores: Seq<V>, n: int) -> nat
    decreases n,
{
    if n <= 0 {
        0
    } else {
        agreeing(y, scores, n - 1) + if y[n - 1].spec_positive() == scores[n - 1].spec_positive() {
            1nat
        } else {
            0nat
        }
    }
}

/// The five nodes of one sample's margin, from `base`: the leaf `-y`, the leaf
/// one, their product `-y * score`, the sum with one, and its ReLU.
pub open spec fn sample_built<V: Numeric>(nodes: Seq<Value<V>>, base: int, yi: V, score: usize) -> bool {
    &&& nodes[base].op == Op::<V>::Scalar
    &&& nodes[base].data == yi.spec_negate()
    &&& nodes[base + 1].op == Op::<V>::Scalar
    &&& nodes[base + 1].data == V::spec_one()
    &&& nodes[base + 2].op == Op::<V>::Mul
    &&& nodes[base + 2].children@ == seq![base as usize, score]
    &&& nodes[base + 3].op == Op::<V>::Add
    &&& nodes[base + 3].children@ == seq![(base + 2) as usize, (base + 1) as usize]
    &&& nodes[base + 4].op == Op::<V>::ReLU
    &&& nodes[base + 4].children@ == seq![(base + 3) as usize]
}

/// Step `k` of the sum of the margins, the sum having begun with a zero leaf at
/// `c` and the margins standing every five nodes from `base`.
pub open spec fn sum_step<V: Numeric>(nodes: Seq<Value<V>>, c: int, base: int, k: int) -> bool {
    &&& nodes[c + 1 + k].op == Op::<V>::Add
    &&& nodes[c + 1 + k].children@ == seq![(c + k) as usize, (base + 5 * k + 4) as usize]
}

/// Step `j` of the sum of the squared parameters, which begins at `e`: the
/// square of parameter `j`, then its sum with what came before.
pub open spec fn square_step<V: Numeric>(nodes: Seq<Value<V>>, e: int, params: Seq<usize>, j: int) -> bool {
    &&& nodes[e + 2 * j].op == Op::Pow(V::spec_ratio(2, 1))
    &&& nodes[e + 2 * j].children@ == seq![params[j]]
    &&& nodes[e + 2 * j + 1].op == Op::<V>::Add
    &&& nodes[e + 2 * j + 1].children@ == seq![(e + 2 * j - 1) as usize, (e + 2 * j) as usize]
}

/// The nodes from `c` on that turn `n` margins (every five nodes from `base`)
/// and the parameters `params` into the objective: the sum of the margins
/// divided by `n`, plus `1e-4` times the sum of the squared parameters.
pub open spec fn reduction_built<V: Numeric>(nodes: Seq<Value<V>>, c: int, n: int, base: int, params: Seq<usize>) -> bool {
    let e = c + n + 6;
    let m = params.len() as int;
    &&& nodes[c].op == Op::<V>::Scalar
    &&& nodes[c].data == V::spec_zero()
    &&& forall|k: int| 0 <= k < n ==> #[trigger] sum_step(nodes, c, base, k)
    &&& nodes[c + n + 1].op == Op::<V>::Scalar
    &&& nodes[c + n + 1].data == V::spec_ratio(n as usize, 1)
    &&& nodes[c + n + 2].op == Op::Pow(V::spec_neg_one())
    &&& nodes[c + n + 2].children@ == seq![(c + n + 1) as usize]
    &&& nodes[c + n + 3].op == Op::<V>::Mul
    &&& nodes[c + n + 3].children@ == seq![(c + n) as usize, (c + n + 2) as usize]
    &&& nodes[c + n + 4].op == Op::<V>::Scalar
    &&& nodes[c + n + 4].data == V::spec_ratio(1, 10000)
    &&& nodes[c + n + 5].op == Op::<V>::Scalar
    &&& nodes[c + n + 5].data == V::spec_zero()
    &&& forall|j: int| 0 <= j < m ==> #[trigger] square_step(nodes, e, params, j)
    &&& nodes[e + 2 * m].op == Op::<V>::Mul
    &&& nodes[e + 2 * m].children@ == seq![(c + n + 4) as usize, (e + 2 * m - 1) as usize]
    &&& nodes[e + 2 * m + 1].op == Op::<V>::Add
    &&& nodes[e + 2 * m + 1].children@ == seq![(c + n + 3) as usize, (e + 2 * m) as usize]
}

/// The number of nodes that `loss` appends.
pub open spec fn loss_size<V>(model: MLP, x: Seq<Vec<V>>, y: Seq<V>) -> int {
    scoring_size(model, x) + 6 * samples(x, y) + 2 * model.params().len() + 8
}

/// Builds the training objective of `model` on the rows `x` with labels `y`
/// (`+1` or `-1`): the mean over the samples of `relu(1 - y * score)`, where a
/// row's score is the model's first output, plus `1e-4` times the sum of the
/// squared parameters. Returns the identifier of the objective's node and the
/// number of samples whose score has the sign of their label.
#[verifier::rlimit(60)]
pub fn loss<V: Numeric>(arena: &mut Arena<V>, model: &MLP, x: &Vec<Vec<V>>, y: &Vec<V>) -> (r: (usize, usize))
    requires
        old(arena).wf(),
        model.valid_in(old(arena)@.len() as int),
        forall|k: int| 0 <= k < x@.len() ==> width_after(model.layers@, #[trigger] x@[k]@.len() as int) >= 1,
        old(arena)@.len() + loss_size(*model, x@, y@) <= usize::MAX,
    ensures
        final(arena).wf(),
        extends(*old(arena), *final(arena)),
        final(arena)@.len() == old(arena)@.len() + loss_size(*model, x@, y@),
        r.0 == final(arena)@.len() - 1,
        final(arena)@[r.0 as int].op == Op::<V>::Add,
        r.1 <= samples(x@, y@),
        r.1 == agreeing(
            y@,
            score_values(*model, x@, final(arena)@, old(arena)@.len() as int, samples(x@, y@)),
            samples(x@, y@),
        ),
        forall|k: int|
            0 <= k < samples(x@, y@) ==> #[trigger] sample_built(
                final(arena)@,
                old(arena)@.len() + scoring_size(*model, x@) + 5 * k,
                y@[k],
                score_id(*model, x@, old(arena)@.len() as int, k),
            ),
        computed_from(final(arena)@, old(arena)@.len() as int),
        reduction_built(
            final(arena)@,
            old(arena)@.len() + scoring_size(*model, x@) + 5 * samples(x@, y@),
            samples(x@, y@),
            old(arena)@.len() + scoring_size(*model, x@),
            model.params(),
        ),
{
    let ghost a0 = *arena;
    proof {
        lemma_forward_size_nonneg(*model, 0);
    }
    let scores = score_rows(arena, model, x);
    let ghost a1 = *arena;
    proof {
        lemma_adds_nothing(a1);
        lemma_forward_size_nonneg(*model, 0);
    }
    let n = if y.len() <= scores.len() { y.len() } else { scores.len() };
    let mut losses: Vec<usize> = Vec::new();
    let mut correct_count: usize = 0;
    let mut i: usize = 0;
    while i < n
        invariant
            n == samples(x@, y@),
            scores@.len() == x@.len(),
            n <= y@.len(),
            0 <= i <= n,
            arena.wf(),
            extends(a1, *arena),
            extends(a0, a1),
            a1@.len() + 6 * n + 2 * model.params().len() + 8 <= usize::MAX,
            forall|k: int| 0 <= k < scores@.len() ==> #[trigger] scores@[k] < a1@.len(),
            arena@.len() == a1@.len() + 5 * i,
            losses@.len() == i,
            forall|k: int| 0 <= k < i ==> #[trigger] losses@[k] < arena@.len(),
            correct_count <= i,
            a1@.len() == a0@.len() + scoring_size(*model, x@),
            forall|k: int| 0 <= k < scores@.len() ==> #[trigger] scores@[k] == score_id(*model, x@, a0@.len() as int, k),
            correct_count == agreeing(y@, score_values(*model, x@, a1@, a0@.len() as int, n as int), i as int),
            forall|k: int| 0 <= k < i ==> #[trigger] sample_built(arena@, a1@.len() + 5 * k, y@[k], scores@[k]),
            forall|k: int| 0 <= k < i ==> #[trigger] losses@[k] == a1@.len() + 5 * k + 4,
            computed_from(arena@, a0@.len() as int),
        decreases n - i,
    {
        let yi = y[i];
        let score = scores[i];
        let ghost b0 = *arena;
        let neg_yi = arena.scalar(yi.negate());
        let ghost b1 = *arena;
        let one = arena.scalar(arena.one_value());
        let ghost b2 = *arena;
        let weighted_score = arena.mul(neg_yi, score);
        let ghost b3 = *arena;
        let margin = arena.add(weighted_score, one);
        let ghost b4 = *arena;
        let sample_loss = arena.relu(margin);
        proof {
            lemma_appends_extends(b0, b1, seq![], Op::Scalar);
            lemma_appends_extends(b1, b2, seq![], Op::Scalar);
            lemma_appends_extends(b2, b3, seq![neg_yi, score], Op::Mul);
            lemma_appends_extends(b3, b4, seq![weighted_score, one], Op::Add);
            lemma_appends_extends(b4, *arena, seq![margin], Op::ReLU);
            lemma_extends_trans(b0, b1, b2);
            lemma_extends_trans(b0, b2, b3);
            lemma_extends_trans(b0, b3, b4);
            lemma_extends_trans(b0, b4, *arena);
            lemma_extends_trans(a1, b0, *arena);
            lemma_computed_one(b0, b1, seq![], Op::Scalar);
            lemma_computed_grows(b0, b1, a0@.len() as int);
            lemma_computed_one(b1, b2, seq![], Op::Scalar);
            lemma_computed_grows(b1, b2, a0@.len() as int);
            lemma_computed_one(b2, b3, seq![neg_yi, score], Op::Mul);
            lemma_computed_grows(b2, b3, a0@.len() as int);
            lemma_computed_one(b3, b4, seq![weighted_score, one], Op::Add);
            lemma_computed_grows(b3, b4, a0@.len() as int);
            lemma_computed_one(b4, *arena, seq![margin], Op::ReLU);
            lemma_computed_grows(b4, *arena, a0@.len() as int);
            lemma_extends_keeps(b0, *arena);
            lemma_extends_trans(b1, b2, b3);
            lemma_extends_trans(b1, b3, b4);
            lemma_extends_trans(b1, b4, *arena);
            lemma_extends_trans(b2, b3, b4);
            lemma_extends_trans(b2, b4, *arena);
            lemma_extends_trans(b3, b4, *arena);
            lemma_extends_keeps(b1, *arena);
            lemma_extends_keeps(b2, *arena);
            lemma_extends_keeps(b3, *arena);
            lemma_extends_keeps(a1, *arena);
            assert forall|k: int| 0 <= k < i + 1 implies #[trigger] sample_built(arena@, a1@.len() + 5 * k, y@[k], scores@[k]) by {
                if k < i {
                    assert(sample_built(b0@, a1@.len() + 5 * k, y@[k], scores@[k]));
                    lemma_extends_keeps(b0, *arena);
                }
            }
        }
        losses.push(sample_loss);
        let score_val = arena.get_value(score).data;
        proof {
            assert(score_val == score_values(*model, x@, a1@, a0@.len() as int, n as int)[i as int]);
        }
        if yi.is_positive() == score_val.is_positive() {
            correct_count += 1;
        }
        i += 1;
    }
    let ghost c0 = *arena;
    let ghost end_of_samples = *arena;
    let mut data_loss_sum = arena.scalar(arena.zero_value());
    proof {
        lemma_appends_extends(c0, *arena, seq![], Op::Scalar);
        lemma_computed_one(c0, *arena, seq![], Op::Scalar);
        lemma_computed_grows(c0, *arena, a0@.len() as int);
    }
    let mut k: usize = 0;
    while k < losses.len()
        invariant
            losses@.len() == n,
            0 <= k <= n,
            arena.wf(),
            extends(c0, *arena),
            c0@.len() + n + 2 * model.params().len() + 8 <= usize::MAX,
            forall|j: int| 0 <= j < n ==> #[trigger] losses@[j] < c0@.len(),
            arena@.len() == c0@.len() + 1 + k,
            data_loss_sum < arena@.len(),
            computed_from(arena@, a0@.len() as int),
            data_loss_sum == c0@.len() + k,
            c0@.len() == a1@.len() + 5 * n,
            forall|j: int| 0 <= j < n ==> #[trigger] losses@[j] == a1@.len() + 5 * j + 4,
            forall|j: int| 0 <= j < k ==> #[trigger] sum_step(arena@, c0@.len() as int, a1@.len() as int, j),
            arena@[c0@.len() as int].op == Op::<V>::Scalar,
            arena@[c0@.len() as int].data == V::spec_zero(),
        decreases n - k,
    {
        let ghost before = *arena;
        let ghost prev_sum = data_loss_sum;
        data_loss_sum = arena.add(data_loss_sum, losses[k]);
        proof {
            lemma_extends_keeps(before, *arena);
            assert forall|j: int| 0 <= j < k + 1 implies #[trigger] sum_step(arena@, c0@.len() as int, a1@.len() as int, j) by {
                if j < k {
                    assert(sum_step(before@, c0@.len() as int, a1@.len() as int, j));
                } else {
                    assert(arena@.last().children@ == seq![prev_sum, losses@[k as int]]);
                }
            }
            lemma_appends_extends(before, *arena, arena@.last().children@, Op::Add);
            lemma_extends_trans(c0, before, *arena);
            lemma_computed_one(before, *arena, arena@.last().children@, Op::Add);
            lemma_computed_grows(before, *arena, a0@.len() as int);
        }
        k += 1;
    }
    let ghost d0 = *arena;
    let len_losses = arena.scalar(V::ratio(losses.len(), 1));
    let ghost d1 = *arena;
    let data_loss = arena.div(data_loss_sum, len_losses);
    let ghost d2 = *arena;
    let alpha = arena.scalar(V::ratio(1, 10000));
    let ghost d3 = *arena;
    let parameters = model.parameters();
    let mut reg_sum = arena.scalar(arena.zero_value());
    proof {
        lemma_appends_extends(d0, d1, seq![], Op::Scalar);
        lemma_computed_one(d0, d1, seq![], Op::Scalar);
        lemma_computed_grows(d0, d1, a0@.len() as int);
        assert(d2@.subrange(0, d1@.len() as int) =~= d1@);
        lemma_computed_grows(d1, d2, a0@.len() as int);
        lemma_appends_extends(d2, d3, seq![], Op::Scalar);
        lemma_computed_one(d2, d3, seq![], Op::Scalar);
        lemma_computed_grows(d2, d3, a0@.len() as int);
        lemma_appends_extends(d3, *arena, seq![], Op::Scalar);
        lemma_extends_trans(d2, d3, *arena);
        lemma_extends_trans(d1, d2, *arena);
        lemma_extends_trans(d0, d1, *arena);
        lemma_computed_one(d3, *arena, seq![], Op::Scalar);
        lemma_computed_grows(d3, *arena, a0@.len() as int);
        lemma_params_valid(*model, a0@.len() as int);
        assert(arena@.subrange(0, d0@.len() as int) =~= d0@);
        lemma_extends_trans(c0, d0, *arena);
        lemma_extends_trans(a0, a1, c0);
    }
    let ghost e0 = *arena;
    proof {
        lemma_adds_nothing(e0);
    }
    let mut j: usize = 0;
    while j < parameters.len()
        invariant
            parameters@ == model.params(),
            0 <= j <= parameters@.len(),
            arena.wf(),
            extends(e0, *arena),
            e0@.len() + 2 * parameters@.len() + 2 <= usize::MAX,
            a0@.len() <= e0@.len(),
            forall|k: int| 0 <= k < model.params().len() ==> #[trigger] model.params()[k] < a0@.len(),
            arena@.len() == e0@.len() + 2 * j,
            reg_sum < arena@.len(),
            data_loss < e0@.len(),
            alpha < e0@.len(),
            computed_from(arena@, a0@.len() as int),
            reg_sum == e0@.len() + 2 * j - 1,
            forall|i: int| 0 <= i < j ==> #[trigger] square_step(arena@, e0@.len() as int, model.params(), i),
        decreases parameters@.len() - j,
    {
        let ghost before = *arena;
        let ghost prev_sum = reg_sum;
        let p_sq = arena.pow(parameters[j], V::ratio(2, 1));
        let ghost mid = *arena;
        reg_sum = arena.add(reg_sum, p_sq);
        proof {
            lemma_extends_keeps(mid, *arena);
            lemma_appends_extends(before, mid, seq![parameters@[j as int]], Op::Pow(V::spec_ratio(2, 1)));
            lemma_extends_trans(before, mid, *arena);
            lemma_extends_keeps(before, *arena);
            assert forall|i: int| 0 <= i < j + 1 implies #[trigger] square_step(arena@, e0@.len() as int, model.params(), i) by {
                if i < j {
                    assert(square_step(before@, e0@.len() as int, model.params(), i));
                } else {
                    assert(arena@.last().children@ == seq![prev_sum, p_sq]);
                }
            }
            lemma_appends_extends(before, mid, mid@.last().children@, mid@.last().op);
            lemma_appends_extends(mid, *arena, arena@.last().children@, Op::Add);
            lemma_extends_trans(before, mid, *arena);
            lemma_extends_trans(e0, before, *arena);
            lemma_computed_one(before, mid, mid@.last().children@, mid@.last().op);
            lemma_computed_grows(before, mid, a0@.len() as int);
            lemma_computed_one(mid, *arena, arena@.last().children@, Op::Add);
            lemma_computed_grows(mid, *arena, a0@.len() as int);
        }
        j += 1;
    }
    let ghost f0 = *arena;
    let reg_loss = arena.mul(alpha, reg_sum);
    let ghost f1 = *arena;
    let total_loss = arena.add(data_loss, reg_loss);
    proof {
        lemma_appends_extends(f0, f1, seq![alpha, reg_sum], Op::Mul);
        lemma_computed_one(f0, f1, seq![alpha, reg_sum], Op::Mul);
        lemma_computed_grows(f0, f1, a0@.len() as int);
        lemma_appends_extends(f1, *arena, seq![data_loss, reg_loss], Op::Add);
        lemma_extends_trans(f0, f1, *arena);
        lemma_extends_keeps(f0, *arena);
        lemma_extends_keeps(f1, *arena);
        lemma_computed_one(f1, *arena, seq![data_loss, reg_loss], Op::Add);
        lemma_computed_grows(f1, *arena, a0@.len() as int);
        assert(arena@.subrange(0, f0@.len() as int) =~= f0@);
        lemma_extends_trans(e0, f0, *arena);
        lemma_extends_trans(c0, e0, *arena);
        lemma_extends_trans(a1, c0, *arena);
        lemma_extends_trans(a0, a1, *arena);
    }
    proof {
        lemma_extends_trans(d0, e0, *arena);
        lemma_extends_trans(d1, e0, *arena);
        lemma_extends_trans(d2, e0, *arena);
        lemma_extends_trans(d3, e0, *arena);
        lemma_extends_keeps(e0, *arena);
        lemma_extends_keeps(d0, *arena);
        lemma_extends_keeps(d1, *arena);
        lemma_extends_keeps(d2, *arena);
        lemma_extends_keeps(d3, *arena);
        let c = c0@.len() as int;
        assert forall|k: int| 0 <= k < n implies #[trigger] sum_step(arena@, c, a1@.len() as int, k) by {
            assert(sum_step(d0@, c, a1@.len() as int, k));
        }
        assert forall|i: int| 0 <= i < model.params().len() implies #[trigger] square_step(
            arena@,
            e0@.len() as int,
            model.params(),
            i,
        ) by {
            assert(square_step(f0@, e0@.len() as int, model.params(), i));
        }
        lemma_extends_keeps(end_of_samples, *arena);
        lemma_extends_keeps(a1, *arena);
        assert forall|k: int| 0 <= k < n implies #[trigger] sample_built(
            arena@,
            a0@.len() + scoring_size(*model, x@) + 5 * k,
            y@[k],
            score_id(*model, x@, a0@.len() as int, k),
        ) by {
            assert(sample_built(end_of_samples@, a1@.len() + 5 * k, y@[k], scores@[k]));
        }
        assert forall|k: int| 0 <= k < n implies #[trigger] score_id(*model, x@, a0@.len() as int, k) < a1@.len() by {
            assert(scores@[k] == score_id(*model, x@, a0@.len() as int, k));
        }
        assert(score_values(*model, x@, arena@, a0@.len() as int, n as int) =~= score_values(
            *model,
            x@,
            a1@,
            a0@.len() as int,
            n as int,
        ));
    }
    (total_loss, correct_count)
}

} // verus!
