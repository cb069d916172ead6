use vstd::prelude::*;
use vstd::arithmetic::div_mod::{lemma_fundamental_div_mod, lemma_fundamental_div_mod_converse};
use crate::activation::ActivationFunction;
use crate::error::NetworkError;

verus! {

/// One quantized layer: an 8-bit signed weight matrix (one inner vector per
/// output row), a 32-bit signed bias vector, the source activation, and the
/// two scale factors carried as the bit patterns of the original 32-bit
/// floats. The integer inference path never reads the scales; they are kept
/// so that the layer can be persisted and rescaled outside.
#[derive(Clone, Debug)]
pub struct QuantizedLayer {
    pub weights: Vec<Vec<i8>>,
    pub biases: Vec<i32>,
    pub activation: ActivationFunction,
    pub weight_scale_bits: u32,
    pub bias_scale_bits: u32,
}

/// A quantized network: an ordered stack of quantized layers.
#[derive(Clone, Debug)]
pub struct QuantizedNeuralNetwork {
    pub layers: Vec<QuantizedLayer>,
}

/// Structural well-formedness of one layer against its input width: one bias
/// per output row, and every weight row as wide as the input.
pub open spec fn layer_wf(l: QuantizedLayer, input_size: int) -> bool {
    &&& l.biases@.len() == l.weights@.len()
    &&& forall|r: int|
        0 <= r < l.weights@.len() ==> (#[trigger] l.weights@[r])@.len() == input_size
}

/// The accumulator of one output row stays inside the 32-bit range: each of
/// the `input_size` products lies in [-16384, 16384], so it is enough that
/// the bias shifted by `16384 * input_size` in both directions stays in
/// range. This is the machine limit under which integer inference is exact.
pub open spec fn layer_fits(l: QuantizedLayer, input_size: int) -> bool {
    forall|r: int|
        0 <= r < l.biases@.len() ==> {
            &&& (#[trigger] l.biases@[r]) - 16384 * input_size >= -0x8000_0000
            &&& l.biases@[r] + 16384 * input_size <= 0x7fff_ffff
        }
}

/// Structural well-formedness of a stack of layers fed an input of the given
/// width: each layer accepts the width the previous one produces.
pub open spec fn wf_from(layers: Seq<QuantizedLayer>, input_size: int) -> bool
    decreases layers.len(),
{
    layers.len() == 0 || {
        &&& layer_wf(layers[0], input_size)
        &&& wf_from(layers.drop_first(), layers[0].weights@.len() as int)
    }
}

/// `layer_fits` chained along a stack of layers, like `wf_from`.
pub open spec fn fits_from(layers: Seq<QuantizedLayer>, input_size: int) -> bool
    decreases layers.len(),
{
    layers.len() == 0 || {
        &&& layer_fits(layers[0], input_size)
        &&& fits_from(layers.drop_first(), layers[0].weights@.len() as int)
    }
}

/// The dot product of the first `n` entries of two integer vectors.
pub open spec fn dot_prefix(w: Seq<i8>, a: Seq<i8>, n: int) -> int
    decreases n,
{
    if n <= 0 {
        0
    } else {
        dot_prefix(w, a, n - 1) + w[n - 1] * a[n - 1]
    }
}

/// The dot product of two integer vectors of equal length.
pub open spec fn dot(w: Seq<i8>, a: Seq<i8>) -> int
    recommends
        w.len() == a.len(),
{
    dot_prefix(w, a, w.len() as int)
}

/// The 17-entry integer sigmoid approximation: precomputed sigmoid outputs
/// scaled into the 8-bit range, indexed by the clamped, rescaled
/// pre-activation.
pub open spec fn sigmoid_table_spec(i: int) -> i8 {
    if i == 0 {
        0
    } else if i == 1 {
        4
    } else if i == 2 {
        8
    } else if i == 3 {
        15
    } else if i == 4 {
        26
    } else if i == 5 {
        41
    } else if i == 6 {
        60
    } else if i == 7 {
        81
    } else if i == 8 {
        103
    } else if i == 9 {
        122
    } else {
        127
    }
}

/// The table index of a pre-activation: the floored quotient by 128, clamped
/// to [-8, 8], shifted to [0, 16].
pub open spec fn sigmoid_index_spec(z: int) -> int {
    let q = z / 128;
    let c = if q < -8 {
        -8
    } else if q > 8 {
        8
    } else {
        q
    };
    c + 8
}

/// How one pre-activation value is brought back to 8 bits, per activation.
pub open spec fn requantize_spec(act: ActivationFunction, z: int) -> i8 {
    match act {
        ActivationFunction::Sigmoid => sigmoid_table_spec(sigmoid_index_spec(z)),
        ActivationFunction::ReLU => if z < 0 {
            0
        } else if z > 127 {
            127
        } else {
            z as i8
        },
        ActivationFunction::Linear => if z < -128 {
            -128i8
        } else if z > 127 {
            127
        } else {
            z as i8
        },
    }
}

/// The output of one quantized layer on an 8-bit activation vector.
pub open spec fn layer_eval(l: QuantizedLayer, a: Seq<i8>) -> Seq<i8> {
    Seq::new(
        l.weights@.len(),
        |r: int| requantize_spec(l.activation, dot(l.weights@[r]@, a) + l.biases@[r]),
    )
}

/// The output of a stack of quantized layers on an 8-bit activation vector.
pub open spec fn net_eval(layers: Seq<QuantizedLayer>, a: Seq<i8>) -> Seq<i8>
    decreases layers.len(),
{
    if layers.len() == 0 {
        a
    } else {
        net_eval(layers.drop_first(), layer_eval(layers[0], a))
    }
}

impl QuantizedNeuralNetwork {
    /// The input width of the network: the width of the first layer's rows.
    pub open spec fn input_size(self) -> int {
        if self.layers@.len() == 0 {
            0
        } else if self.layers@[0].weights@.len() == 0 {
            0
        } else {
            self.layers@[0].weights@[0]@.len() as int
        }
    }

    /// The output width of the network: the row count of the last layer.
    pub open spec fn output_size(self) -> int {
        if self.layers@.len() == 0 {
            0
        } else {
            self.layers@[self.layers@.len() - 1].weights@.len() as int
        }
    }

    /// At least one layer, and consecutive layers' widths compatible.
    pub open spec fn wf(self) -> bool {
        &&& self.layers@.len() >= 1
        &&& wf_from(self.layers@, self.input_size())
    }

    /// No accumulator of any layer can leave the 32-bit range.
    pub open spec fn fits(self) -> bool {
        fits_from(self.layers@, self.input_size())
    }

    /// Every layer rectangular: the shape under which a network can be
    /// persisted and restored exactly.
    pub open spec fn rect(self) -> bool {
        forall|i: int| 0 <= i < self.layers@.len() ==> qlayer_rect(#[trigger] self.layers@[i])
    }
}

/// The input width of a quantized layer: the width of its first weight row.
pub open spec fn qlayer_cols(l: QuantizedLayer) -> int {
    if l.weights@.len() == 0 {
        0
    } else {
        l.weights@[0]@.len() as int
    }
}

/// Rectangularity of one quantized layer: one bias per output row, and all
/// weight rows of one width.
pub open spec fn qlayer_rect(l: QuantizedLayer) -> bool {
    &&& l.biases@.len() == l.weights@.len()
    &&& forall|r: int|
        0 <= r < l.weights@.len() ==> (#[trigger] l.weights@[r])@.len() == qlayer_cols(l)
}

/// The predicted class of an output vector: the index of its greatest
/// entry, the last one when several are equal. Rescaling the outputs by a
/// positive factor cannot change this choice, so it is the same decision
/// whether it reads the raw 8-bit outputs or their rescaled float form.
pub fn argmax_last(v: &Vec<i8>) -> (r: Option<usize>)
    ensures
        match r {
            Some(i) => {
                &&& v@.len() > 0
                &&& i < v@.len()
                &&& forall|k: int| 0 <= k < v@.len() ==> v@[k] <= v@[i as int]
                &&& forall|k: int| i < k < v@.len() ==> v@[k] < v@[i as int]
            },
            None => v@.len() == 0,
        },
{
    if v.len() == 0 {
        return None;
    }
    let mut best: usize = 0;
    let mut j: usize = 1;
    while j < v.len()
        invariant
            best < j <= v@.len(),
            forall|k: int| 0 <= k < j ==> v@[k] <= v@[best as int],
            forall|k: int| best < k < j ==> v@[k] < v@[best as int],
        decreases v@.len() - j,
    {
        if v[j] >= v[best] {
            best = j;
        }
        j = j + 1;
    }
    Some(best)
}

/// The bit pattern of the 32-bit float 1.0, the weight scale of a layer
/// whose weights are all zero.
pub const UNIT_SCALE_BITS: u32 = 0x3f80_0000;

/// The bit pattern of the 32-bit float 1e-6, the floor under every computed
/// weight scale.
pub const MIN_SCALE_BITS: u32 = 0x3586_37bd;

/// How a layer's weight scale is chosen, acting on the stored bit patterns
/// of the values. The caller hands in the bit patterns of the layer's
/// maximum absolute weight and of that maximum divided by 127; both are
/// non-negative, and on non-negative 32-bit floats the unsigned order of the
/// bit patterns is the numeric order, with the zero test matching both zero
/// patterns. A zero-weight layer gets the scale 1.0, a computed scale under
/// the 1e-6 floor is raised to the floor exactly, and any other computed
/// scale is kept bit for bit.
pub open spec fn weight_scale_bits_spec(max_abs_bits: u32, raw_scale_bits: u32) -> u32 {
    if max_abs_bits & 0x7fff_ffff == 0 {
        UNIT_SCALE_BITS
    } else if raw_scale_bits < MIN_SCALE_BITS {
        MIN_SCALE_BITS
    } else {
        raw_scale_bits
    }
}

/// Chooses a layer's weight scale from the bit patterns of its maximum
/// absolute weight and of the computed raw scale.
pub fn select_weight_scale_bits(max_abs_bits: u32, raw_scale_bits: u32) -> (r: u32)
    ensures
        r == weight_scale_bits_spec(max_abs_bits, raw_scale_bits),
{
    if max_abs_bits & 0x7fff_ffff == 0 {
        UNIT_SCALE_BITS
    } else if raw_scale_bits < MIN_SCALE_BITS {
        MIN_SCALE_BITS
    } else {
        raw_scale_bits
    }
}

/// Floored division by 128 of a negated positive number, written with the
/// rounded-up quotient of the number itself.
proof fn lemma_neg_floor_div(m: int)
    requires
        m > 0,
    ensures
        (-m) / 128 == -((m + 127) / 128),
{
    let d = m / 128;
    let r = m % 128;
    lemma_fundamental_div_mod(m, 128);
    if r == 0 {
        lemma_fundamental_div_mod_converse(-m, 128, -d, 0);
        lemma_fundamental_div_mod_converse(m + 127, 128, d, 127);
    } else {
        lemma_fundamental_div_mod_converse(-m, 128, -d - 1, 128 - r);
        lemma_fundamental_div_mod_converse(m + 127, 128, d + 1, r - 1);
    }
}

/// Each product of two 8-bit values lies in [-16384, 16384].
proof fn lemma_i8_product_bound(x: i8, y: i8)
    by (nonlinear_arith)
    ensures
        -16384 <= x * y <= 16384,
{
}

/// The stored sigmoid approximation table.
fn sigmoid_int_table(i: usize) -> (r: i8)
    requires
        i <= 16,
    ensures
        r == sigmoid_table_spec(i as int),
{
    if i == 0 {
        0
    } else if i == 1 {
        4
    } else if i == 2 {
        8
    } else if i == 3 {
        15
    } else if i == 4 {
        26
    } else if i == 5 {
        41
    } else if i == 6 {
        60
    } else if i == 7 {
        81
    } else if i == 8 {
        103
    } else if i == 9 {
        122
    } else {
        127
    }
}

/// Brings one pre-activation value back to 8 bits.
fn requantize(act: ActivationFunction, z: i64) -> (r: i8)
    requires
        -0x8000_0000 <= z <= 0x7fff_ffff,
    ensures
        r == requantize_spec(act, z as int),
{
    match act {
        ActivationFunction::Sigmoid => {
            let qf: i64 = if z >= 0 {
                ((z as u64) / 128) as i64
            } else {
                let m: u64 = (-z) as u64;
                -(((m + 127) / 128) as i64)
            };
            proof {
                if z < 0 {
                    lemma_neg_floor_div(-(z as int));
                }
            }
            assert(qf == (z as int) / 128);
            let qc: i64 = if qf < -8 {
                -8
            } else if qf > 8 {
                8
            } else {
                qf
            };
            let idx: usize = (qc + 8) as usize;
            sigmoid_int_table(idx)
        },
        ActivationFunction::ReLU => {
            if z < 0 {
                0
            } else if z > 127 {
                127
            } else {
                z as i8
            }
        },
        ActivationFunction::Linear => {
            if z < -128 {
                -128
            } else if z > 127 {
                127
            } else {
                z as i8
            }
        },
    }
}

/// One output row's accumulator: the bias plus the dot product of the row
/// with the activation vector, exact because the bound of `layer_fits` keeps
/// every partial sum inside the 32-bit range.
fn row_accum(w: &Vec<i8>, a: &Vec<i8>, bias: i32) -> (z: i64)
    requires
        w@.len() == a@.len(),
        bias - 16384 * w@.len() >= -0x8000_0000,
        bias + 16384 * w@.len() <= 0x7fff_ffff,
    ensures
        z == bias + dot(w@, a@),
        -0x8000_0000 <= z <= 0x7fff_ffff,
{
    let n = w.len();
    let mut acc: i64 = bias as i64;
    let mut j: usize = 0;
    while j < n
        invariant
            j <= n,
            n == w@.len() == a@.len(),
            bias - 16384 * n >= -0x8000_0000,
            bias + 16384 * n <= 0x7fff_ffff,
            acc == bias + dot_prefix(w@, a@, j as int),
            bias - 16384 * j <= acc <= bias + 16384 * j,
        decreases n - j,
    {
        proof {
            lemma_i8_product_bound(w@[j as int], a@[j as int]);
        }
        let p: i64 = (w[j] as i64) * (a[j] as i64);
        acc = acc + p;
        j = j + 1;
    }
    acc
}

/// The output of one quantized layer on an activation vector.
fn layer_forward(layer: &QuantizedLayer, a: &Vec<i8>) -> (r: Vec<i8>)
    requires
        layer_wf(*layer, a@.len() as int),
        layer_fits(*layer, a@.len() as int),
    ensures
        r@ == layer_eval(*layer, a@),
        r@.len() == layer.weights@.len(),
{
    let rows = layer.weights.len();
    let mut out: Vec<i8> = Vec::new();
    let mut r: usize = 0;
    while r < rows
        invariant
            r <= rows,
            rows == layer.weights@.len(),
            layer_wf(*layer, a@.len() as int),
            layer_fits(*layer, a@.len() as int),
            out@.len() == r,
            forall|k: int|
                0 <= k < r ==> out@[k] == requantize_spec(
                    layer.activation,
                    dot(layer.weights@[k]@, a@) + layer.biases@[k],
                ),
        decreases rows - r,
    {
        let z = row_accum(&layer.weights[r], a, layer.biases[r]);
        let v = requantize(layer.activation, z);
        out.push(v);
        r = r + 1;
    }
    proof {
        assert(out@ =~= layer_eval(*layer, a@));
    }
    out
}

/// A copy of an 8-bit vector.
fn copy_vec_i8(v: &Vec<i8>) -> (r: Vec<i8>)
    ensures
        r@ == v@,
{
    let mut out: Vec<i8> = Vec::new();
    let mut i: usize = 0;
    while i < v.len()
        invariant
            i <= v@.len(),
            out@ == v@.subrange(0, i as int),
        decreases v@.len() - i,
    {
        out.push(v[i]);
        proof {
            assert(out@ =~= v@.subrange(0, i + 1 as int));
        }
        i = i + 1;
    }
    proof {
        assert(out@ =~= v@);
    }
    out
}

impl QuantizedNeuralNetwork {
    /// Integer-only inference: for each layer in order, widen the weights and
    /// the running activation to 32 bits, take the dot product plus the bias,
    /// and bring the result back to 8 bits per the layer's activation. The
    /// result is the exact mathematical evaluation of the stack; its length
    /// is the last layer's width.
    pub fn feedforward(&self, input: &Vec<i8>) -> (r: Vec<i8>)
        requires
            self.wf(),
            self.fits(),
            input@.len() == self.input_size(),
        ensures
            r@ == net_eval(self.layers@, input@),
            r@.len() == self.output_size(),
    {
        let ghost all = self.layers@;
        let mut act = copy_vec_i8(input);
        proof {
            assert(all.skip(0) =~= all);
        }
        let mut li: usize = 0;
        while li < self.layers.len()
            invariant
                li <= all.len(),
                self.layers@ == all,
                wf_from(all.skip(li as int), act@.len() as int),
                fits_from(all.skip(li as int), act@.len() as int),
                net_eval(all.skip(li as int), act@) == net_eval(all, input@),
                li == 0 ==> act@.len() == input@.len(),
                li > 0 ==> act@.len() == all[li - 1].weights@.len(),
            decreases all.len() - li,
        {
            let ghost rem = all.skip(li as int);
            proof {
                assert(rem[0] == all[li as int]);
                assert(rem.drop_first() =~= all.skip(li as int + 1));
            }
            let next = layer_forward(&self.layers[li], &act);
            proof {
                assert(next@ == layer_eval(rem[0], act@));
                assert(net_eval(rem, act@) == net_eval(rem.drop_first(), layer_eval(rem[0], act@)));
            }
            act = next;
            li = li + 1;
        }
        proof {
            assert(all.skip(all.len() as int) =~= Seq::<QuantizedLayer>::empty());
            assert(net_eval(all.skip(all.len() as int), act@) == act@);
        }
        act
    }
}

impl QuantizedNeuralNetwork {
    /// Decides whether integer inference is defined for this network and an
    /// input of the given length: the network is well-formed, every
    /// accumulator stays inside the 32-bit range, and the length matches the
    /// network's input width. `feedforward` asks exactly this of its caller.
    pub fn validate_for_inference(&self, input_len: usize) -> (b: bool)
        ensures
            b == (self.wf() && self.fits() && input_len == self.input_size()),
    {
        let n = self.layers.len();
        if n == 0 {
            return false;
        }
        let isz: usize = if self.layers[0].weights.len() == 0 {
            0
        } else {
            self.layers[0].weights[0].len()
        };
        assert(isz == self.input_size());
        if input_len != isz {
            return false;
        }
        let ghost all = self.layers@;
        proof {
            assert(all.skip(0) =~= all);
        }
        let mut cur: usize = isz;
        let mut i: usize = 0;
        while i < n
            invariant
                i <= n,
                n == all.len(),
                all == self.layers@,
                1 <= n,
                isz == self.input_size(),
                wf_from(all.skip(i as int), cur as int) == wf_from(all, isz as int),
                wf_from(all, isz as int) ==> fits_from(all.skip(i as int), cur as int)
                    == fits_from(all, isz as int),
            decreases n - i,
        {
            let ghost rem = all.skip(i as int);
            proof {
                assert(rem[0] == all[i as int]);
                assert(rem.drop_first() =~= all.skip(i as int + 1));
            }
            let rows = self.layers[i].weights.len();
            if self.layers[i].biases.len() != rows {
                assert(!layer_wf(rem[0], cur as int));
                return false;
            }
            let mut r2: usize = 0;
            while r2 < rows
                invariant
                    r2 <= rows,
                    all == self.layers@,
                    i < n == all.len(),
                    rows == all[i as int].weights@.len(),
                    isz == self.input_size(),
                    wf_from(all.skip(i as int), cur as int) == wf_from(all, isz as int),
                    forall|k: int|
                        0 <= k < r2 ==> (#[trigger] all[i as int].weights@[k])@.len() == cur,
                decreases rows - r2,
            {
                if self.layers[i].weights[r2].len() != cur {
                    proof {
                        let l = all.skip(i as int)[0];
                        assert(l == all[i as int]);
                        assert(l.weights@[r2 as int]@.len() != cur);
                        assert(!layer_wf(l, cur as int));
                        assert(!wf_from(all.skip(i as int), cur as int));
                    }
                    return false;
                }
                r2 = r2 + 1;
            }
            assert(layer_wf(rem[0], cur as int));
            let mut bb: usize = 0;
            while bb < rows
                invariant
                    bb <= rows,
                    all == self.layers@,
                    i < n == all.len(),
                    rows == all[i as int].weights@.len(),
                    rows == all[i as int].biases@.len(),
                    isz == self.input_size(),
                    layer_wf(all.skip(i as int)[0], cur as int),
                    wf_from(all.skip(i as int), cur as int) == wf_from(all, isz as int),
                    wf_from(all, isz as int) ==> fits_from(all.skip(i as int), cur as int)
                        == fits_from(all, isz as int),
                    forall|k: int|
                        0 <= k < bb ==> {
                            &&& (#[trigger] all[i as int].biases@[k]) - 16384 * cur
                                >= -0x8000_0000
                            &&& all[i as int].biases@[k] + 16384 * cur <= 0x7fff_ffff
                        },
                decreases rows - bb,
            {
                let bias = self.layers[i].biases[bb];
                if cur >= 131072 {
                    proof {
                        let l = all.skip(i as int)[0];
                        assert(l == all[i as int]);
                        assert(l.biases@[bb as int] == bias);
                        assert(!(bias - 16384 * (cur as int) >= -0x8000_0000 && bias + 16384 * (
                        cur as int) <= 0x7fff_ffff));
                        assert(!layer_fits(l, cur as int));
                        assert(!fits_from(all.skip(i as int), cur as int));
                    }
                    return false;
                }
                let m: i64 = 16384i64 * (cur as i64);
                if (bias as i64) - m < -0x8000_0000i64 || (bias as i64) + m > 0x7fff_ffffi64 {
                    proof {
                        let l = all.skip(i as int)[0];
                        assert(l == all[i as int]);
                        assert(l.biases@[bb as int] == bias);
                        assert(!layer_fits(l, cur as int));
                        assert(!fits_from(all.skip(i as int), cur as int));
                    }
                    return false;
                }
                bb = bb + 1;
            }
            assert(layer_fits(rem[0], cur as int));
            cur = rows;
            i = i + 1;
        }
        proof {
            assert(all.skip(n as int) =~= Seq::<QuantizedLayer>::empty());
        }
        true
    }
}

/// A weight row widened to 32 bits, entry for entry.
pub open spec fn widen_row(w: Seq<i8>) -> Seq<i32> {
    w.map_values(|x: i8| x as i32)
}

/// The plain numeric description of a quantized network handed to the
/// embedded build tooling: the list of layer widths (input width first),
/// then per layer the widened weight matrix and the bias vector.
#[derive(Debug)]
pub struct RaySocQuantizedFormat {
    pub layers: Vec<usize>,
    pub weights: Vec<Vec<Vec<i32>>>,
    pub biases: Vec<Vec<i32>>,
}

/// A copy of a 32-bit integer vector.
fn copy_vec_i32(v: &Vec<i32>) -> (r: Vec<i32>)
    ensures
        r@ == v@,
{
    let mut out: Vec<i32> = Vec::new();
    let mut i: usize = 0;
    while i < v.len()
        invariant
            i <= v@.len(),
            out@ == v@.subrange(0, i as int),
        decreases v@.len() - i,
    {
        out.push(v[i]);
        proof {
            assert(out@ =~= v@.subrange(0, i + 1 as int));
        }
        i = i + 1;
    }
    proof {
        assert(out@ =~= v@);
    }
    out
}

/// A weight row widened to 32 bits.
fn widen_row_exec(w: &Vec<i8>) -> (r: Vec<i32>)
    ensures
        r@ == widen_row(w@),
{
    let mut out: Vec<i32> = Vec::new();
    let mut i: usize = 0;
    while i < w.len()
        invariant
            i <= w@.len(),
            out@.len() == i,
            forall|k: int| 0 <= k < i ==> out@[k] == w@[k] as i32,
        decreases w@.len() - i,
    {
        out.push(w[i] as i32);
        i = i + 1;
    }
    proof {
        assert(out@ =~= widen_row(w@));
    }
    out
}

impl QuantizedNeuralNetwork {
    /// The plain numeric description of this network for the embedded
    /// target: the width list holds the input width followed by each layer's
    /// output width, and the weight matrices are the stored 8-bit weights
    /// widened to 32 bits. Fails exactly when the network has no layers.
    pub fn export_raysoc_network(&self) -> (r: Result<RaySocQuantizedFormat, NetworkError>)
        ensures
            match r {
                Ok(f) => {
                    &&& self.layers@.len() >= 1
                    &&& f.layers@.len() == self.layers@.len() + 1
                    &&& f.layers@[0] == self.input_size()
                    &&& forall|i: int|
                        0 <= i < self.layers@.len() ==> #[trigger] f.layers@[i + 1]
                            == self.layers@[i].weights@.len()
                    &&& f.weights@.len() == self.layers@.len()
                    &&& f.biases@.len() == self.layers@.len()
                    &&& forall|i: int|
                        0 <= i < self.layers@.len() ==> (#[trigger] f.weights@[i])@.len()
                            == self.layers@[i].weights@.len()
                    &&& forall|i: int, rr: int|
                        0 <= i < self.layers@.len() && 0 <= rr < self.layers@[i].weights@.len()
                            ==> (#[trigger] f.weights@[i]@[rr])@ == widen_row(
                            self.layers@[i].weights@[rr]@,
                        )
                    &&& forall|i: int|
                        0 <= i < self.layers@.len() ==> (#[trigger] f.biases@[i])@
                            == self.layers@[i].biases@
                },
                Err(e) => {
                    &&& e == NetworkError::Configuration
                    &&& self.layers@.len() == 0
                },
            },
    {
        let n = self.layers.len();
        if n == 0 {
            return Err(NetworkError::Configuration);
        }
        let mut widths: Vec<usize> = Vec::new();
        let input_size: usize = if self.layers[0].weights.len() == 0 {
            0
        } else {
            self.layers[0].weights[0].len()
        };
        widths.push(input_size);
        let mut i: usize = 0;
        while i < n
            invariant
                i <= n,
                n == self.layers@.len(),
                widths@.len() == i + 1,
                widths@[0] == self.input_size(),
                forall|k: int|
                    0 <= k < i ==> #[trigger] widths@[k + 1] == self.layers@[k].weights@.len(),
            decreases n - i,
        {
            widths.push(self.layers[i].weights.len());
            i = i + 1;
        }
        let mut weights: Vec<Vec<Vec<i32>>> = Vec::new();
        let mut biases: Vec<Vec<i32>> = Vec::new();
        let mut li: usize = 0;
        while li < n
            invariant
                li <= n,
                n == self.layers@.len(),
                weights@.len() == li,
                biases@.len() == li,
                forall|k: int|
                    0 <= k < li ==> (#[trigger] weights@[k])@.len()
                        == self.layers@[k].weights@.len(),
                forall|k: int, rr: int|
                    0 <= k < li && 0 <= rr < self.layers@[k].weights@.len() ==> (
                    #[trigger] weights@[k]@[rr])@ == widen_row(self.layers@[k].weights@[rr]@),
                forall|k: int| 0 <= k < li ==> (#[trigger] biases@[k])@ == self.layers@[k].biases@,
            decreases n - li,
        {
            let rows = self.layers[li].weights.len();
            let mut matrix: Vec<Vec<i32>> = Vec::new();
            let mut rr: usize = 0;
            while rr < rows
                invariant
                    rr <= rows,
                    li < n,
                    n == self.layers@.len(),
                    rows == self.layers@[li as int].weights@.len(),
                    matrix@.len() == rr,
                    forall|k: int|
                        0 <= k < rr ==> (#[trigger] matrix@[k])@ == widen_row(
                            self.layers@[li as int].weights@[k]@,
                        ),
                decreases rows - rr,
            {
                matrix.push(widen_row_exec(&self.layers[li].weights[rr]));
                rr = rr + 1;
            }
            weights.push(matrix);
            biases.push(copy_vec_i32(&self.layers[li].biases));
            li = li + 1;
        }
        Ok(RaySocQuantizedFormat { layers: widths, weights, biases })
    }
}

} // verus!
