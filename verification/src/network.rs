use vstd::prelude::*;
use crate::activation::ActivationFunction;
use crate::error::NetworkError;

verus! {

/// One affine layer of the float network, with each 32-bit float parameter
/// carried as its bit pattern: a weight matrix (one inner vector per output
/// row), a bias vector of one entry per row, and the activation. The float
/// arithmetic on these parameters happens outside this crate; here the
/// parameters are shaped, validated and persisted bit for bit.
#[derive(Clone, Debug)]
pub struct Layer {
    pub weights: Vec<Vec<u32>>,
    pub biases: Vec<u32>,
    pub activation: ActivationFunction,
}

/// A float network: an ordered stack of layers.
#[derive(Clone, Debug)]
pub struct NeuralNetwork {
    pub layers: Vec<Layer>,
}

/// The input width of a layer: the width of its first weight row.
pub open spec fn flayer_cols(l: Layer) -> int {
    if l.weights@.len() == 0 {
        0
    } else {
        l.weights@[0]@.len() as int
    }
}

/// Rectangularity of one layer: one bias per output row, and all weight rows
/// of one width.
pub open spec fn flayer_rect(l: Layer) -> bool {
    &&& l.biases@.len() == l.weights@.len()
    &&& forall|r: int|
        0 <= r < l.weights@.len() ==> (#[trigger] l.weights@[r])@.len() == flayer_cols(l)
}

impl NeuralNetwork {
    /// Every layer rectangular: the shape under which a network can be
    /// persisted and restored exactly.
    pub open spec fn rect(self) -> bool {
        forall|i: int| 0 <= i < self.layers@.len() ==> flayer_rect(#[trigger] self.layers@[i])
    }
}

/// The configuration rule for constructing a network: at least two layer
/// sizes (input and output), and exactly one activation for each layer, that
/// is one fewer than the layer sizes. On success hands back the layer
/// dimensions in order, each as the pair of its input and its output width;
/// any other configuration is rejected.
pub fn layer_dimensions(layer_sizes: &Vec<usize>, activation_count: usize) -> (r: Result<
    Vec<(usize, usize)>,
    NetworkError,
>)
    ensures
        match r {
            Ok(d) => {
                &&& layer_sizes@.len() >= 2
                &&& activation_count == layer_sizes@.len() - 1
                &&& d@.len() == layer_sizes@.len() - 1
                &&& forall|i: int|
                    0 <= i < d@.len() ==> #[trigger] d@[i] == (
                    layer_sizes@[i],
                    layer_sizes@[i + 1],
                )
            },
            Err(e) => {
                &&& e == NetworkError::Configuration
                &&& !(layer_sizes@.len() >= 2 && activation_count == layer_sizes@.len() - 1)
            },
        },
{
    let n = layer_sizes.len();
    if n < 2 {
        return Err(NetworkError::Configuration);
    }
    if activation_count != n - 1 {
        return Err(NetworkError::Configuration);
    }
    let mut dims: Vec<(usize, usize)> = Vec::new();
    let mut i: usize = 0;
    while i < n - 1
        invariant
            i <= n - 1,
            2 <= n == layer_sizes@.len(),
            dims@.len() == i,
            forall|k: int|
                0 <= k < i ==> #[trigger] dims@[k] == (layer_sizes@[k], layer_sizes@[k + 1]),
        decreases n - 1 - i,
    {
        dims.push((layer_sizes[i], layer_sizes[i + 1]));
        i = i + 1;
    }
    Ok(dims)
}

/// When a training loop reports its epoch and mean error: every fifth epoch
/// and the last one.
pub fn should_report(epoch: usize, epochs: usize) -> (b: bool)
    ensures
        b == (epoch % 5 == 0 || epoch == epochs - 1),
{
    epoch % 5 == 0 || (epochs > 0 && epoch == epochs - 1)
}

} // verus!
