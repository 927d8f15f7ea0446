use micrograd::engine::{Arena, Numeric, Op};
use micrograd::loss::loss;
use micrograd::nn::{Layer, Neuron, WeightSource, MLP};

#[derive(Debug, Clone, Copy, PartialEq)]
struct F(f64);

impl Numeric for F {
    fn zero() -> Self {
        F(0.0)
    }
    fn one() -> Self {
        F(1.0)
    }
    fn neg_one() -> Self {
        F(-1.0)
    }
    fn plus(&self, other: &Self) -> Self {
        F(self.0 + other.0)
    }
    fn times(&self, other: &Self) -> Self {
        F(self.0 * other.0)
    }
    fn power(&self, exponent: &Self) -> Self {
        F(self.0.powf(exponent.0))
    }
    fn is_positive(&self) -> bool {
        self.0 > 0.0
    }
    fn negate(&self) -> Self {
        F(-self.0)
    }
    fn ratio(num: usize, den: usize) -> Self {
        F(num as f64 / den as f64)
    }
}

/// Hands out a fixed list of weights, over and over.
struct Fixed {
    values: Vec<f64>,
    next: usize,
}

impl WeightSource<F> for Fixed {
    fn next_weight(&mut self) -> F {
        let v = self.values[self.next % self.values.len()];
        self.next += 1;
        F(v)
    }
}

/// A small linear congruential generator with values in [-1, 1].
struct Lcg(u64);

impl WeightSource<F> for Lcg {
    fn next_weight(&mut self) -> F {
        self.0 = self.0.wrapping_mul(6364136223846793005).wrapping_add(1442695040888963407);
        let unit = (self.0 >> 11) as f64 / (1u64 << 53) as f64;
        F(2.0 * unit - 1.0)
    }
}

fn fixed(values: &[f64]) -> Fixed {
    Fixed { values: values.to_vec(), next: 0 }
}

#[test]
fn neuron_new_lays_out_weights_then_bias() {
    let mut g: Arena<F> = Arena::new();
    g.scalar(F(42.0));
    let n = Neuron::new(&mut g, 3, &mut fixed(&[0.5, -0.25, 1.0]));
    assert_eq!(n.weights, vec![1, 2, 3]);
    assert_eq!(n.bias, 4);
    assert_eq!(g.len(), 5);
    assert_eq!(g.get_value(2).data.0, -0.25);
    assert_eq!(g.get_value(4).data.0, 0.0);
    assert_eq!(n.parameters(), vec![1, 2, 3, 4]);
}

#[test]
fn neuron_forward_computes_relu_of_weighted_sum() {
    let mut g: Arena<F> = Arena::new();
    let n = Neuron::new(&mut g, 2, &mut fixed(&[2.0, -1.0]));
    let x0 = g.scalar(F(3.0));
    let x1 = g.scalar(F(1.0));
    let start = g.len();
    let out = n.forward(&mut g, vec![x0, x1]);
    assert_eq!(g.len(), start + 5);
    assert_eq!(out, start + 4);
    assert!(matches!(g.get_value(out).op, Op::ReLU));
    assert_eq!(g.get_value(out).data.0, 5.0);
    g.backward(out);
    assert_eq!(g.get_value(n.weights[0]).grad.0, 3.0);
    assert_eq!(g.get_value(n.weights[1]).grad.0, 1.0);
    assert_eq!(g.get_value(n.bias).grad.0, 1.0);
    assert_eq!(g.get_value(x0).grad.0, 2.0);
}

#[test]
fn neuron_forward_pairs_up_to_the_shorter_list() {
    let mut g: Arena<F> = Arena::new();
    let n = Neuron::new(&mut g, 3, &mut fixed(&[1.0]));
    let x0 = g.scalar(F(4.0));
    let start = g.len();
    let out = n.forward(&mut g, vec![x0]);
    assert_eq!(g.len(), start + 3);
    assert_eq!(g.get_value(out).data.0, 4.0);
}

#[test]
fn negative_sum_is_clipped_to_zero() {
    let mut g: Arena<F> = Arena::new();
    let n = Neuron::new(&mut g, 1, &mut fixed(&[-1.0]));
    let x0 = g.scalar(F(4.0));
    let out = n.forward(&mut g, vec![x0]);
    assert_eq!(g.get_value(out).data.0, 0.0);
}

#[test]
fn layer_and_model_parameters_are_in_creation_order() {
    let mut g: Arena<F> = Arena::new();
    let layer = Layer::new(&mut g, 2, 3, &mut fixed(&[0.1]));
    assert_eq!(layer.neurons.len(), 3);
    assert_eq!(layer.parameters(), (0..9).collect::<Vec<usize>>());

    let mut g: Arena<F> = Arena::new();
    let model = MLP::new(&mut g, 2, vec![3, 2, 1], &mut fixed(&[0.1]));
    // 3 * (2 + 1) + 2 * (3 + 1) + 1 * (2 + 1)
    assert_eq!(g.len(), 20);
    assert_eq!(model.layers.len(), 3);
    assert_eq!(model.layers[1].neurons[0].weights.len(), 3);
    assert_eq!(model.layers[2].neurons[0].weights.len(), 2);
    assert_eq!(model.parameters(), (0..20).collect::<Vec<usize>>());
}

#[test]
fn model_forward_returns_last_layer_outputs() {
    let mut g: Arena<F> = Arena::new();
    let model = MLP::new(&mut g, 2, vec![2, 1], &mut fixed(&[1.0]));
    let a = g.scalar(F(1.0));
    let b = g.scalar(F(2.0));
    let out = model.forward(&mut g, vec![a, b]);
    assert_eq!(out.len(), 1);
    // each hidden unit: 1 + 2 = 3; output: 3 + 3 = 6
    assert_eq!(g.get_value(out[0]).data.0, 6.0);

    let empty = MLP { layers: Vec::new() };
    assert_eq!(empty.forward(&mut g, vec![a, b]), vec![a, b]);
}

#[test]
fn loss_of_perfect_margins_is_regularisation_only() {
    let mut g: Arena<F> = Arena::new();
    let model = MLP::new(&mut g, 1, vec![1], &mut fixed(&[2.0]));
    let x = vec![vec![F(1.0)], vec![F(3.0)]];
    let y = vec![F(1.0), F(1.0)];
    let (id, correct) = loss(&mut g, &model, &x, &y);
    assert_eq!(correct, 2);
    assert_eq!(id, g.len() - 1);
    // weight 2, bias 0: 1e-4 * (4 + 0)
    assert!((g.get_value(id).data.0 - 4e-4).abs() < 1e-15);
}

#[test]
fn loss_counts_margins_and_signs() {
    let mut g: Arena<F> = Arena::new();
    let model = MLP::new(&mut g, 1, vec![1], &mut fixed(&[1.0]));
    let x = vec![vec![F(0.5)], vec![F(2.0)]];
    let y = vec![F(1.0), F(-1.0)];
    let (id, correct) = loss(&mut g, &model, &x, &y);
    assert_eq!(correct, 1);
    // margins: relu(1 - 0.5) = 0.5, relu(1 + 2) = 3; mean 1.75; plus 1e-4 * 1
    assert!((g.get_value(id).data.0 - (1.75 + 1e-4)).abs() < 1e-12);
}

#[test]
fn training_lowers_the_loss() {
    let mut xs = Vec::new();
    let mut ys = Vec::new();
    for i in 0..20 {
        let t = i as f64 / 20.0;
        xs.push(vec![F(1.0 + t), F(0.5 - t)]);
        ys.push(F(1.0));
        xs.push(vec![F(-1.0 - t), F(t - 0.5)]);
        ys.push(F(-1.0));
    }
    let mut g: Arena<F> = Arena::new();
    let model = MLP::new(&mut g, 2, vec![8, 8, 1], &mut Lcg(7));
    let boundary = g.len();
    let mut history = Vec::new();
    for step in 0..100 {
        g.reset_to_size(boundary);
        let (id, _) = loss(&mut g, &model, &xs, &ys);
        g.zero_grad();
        g.backward(id);
        history.push(g.get_value(id).data.0);
        let rate = 1.0 - 0.9 * (step as f64 / 100.0);
        for p in model.parameters() {
            let node = g.get_value(p);
            let updated = F(node.data.0 - rate * node.grad.0);
            g.set_data(p, updated);
        }
    }
    let first: f64 = history[..10].iter().sum::<f64>() / 10.0;
    let last: f64 = history[90..].iter().sum::<f64>() / 10.0;
    assert!(last < first, "first {} last {}", first, last);
    assert!(history[99] < history[0]);
}
