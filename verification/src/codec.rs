use vstd::prelude::*;
use vstd::bytes::{
    spec_u32_to_le_bytes, spec_u32_from_le_bytes, spec_u64_to_le_bytes, spec_u64_from_le_bytes,
    lemma_auto_spec_u32_to_from_le_bytes, lemma_auto_spec_u64_to_from_le_bytes, u32_from_le_bytes,
    u64_from_le_bytes, u32_to_le_bytes, u64_to_le_bytes,
};
use vstd::slice::slice_subrange;
use crate::activation::ActivationFunction;
use crate::activation::lemma_activation_tag_round_trip;
use crate::error::NetworkError;
use crate::network::{Layer, NeuralNetwork, flayer_cols, flayer_rect};
use crate::quantized::{QuantizedLayer, QuantizedNeuralNetwork};

verus! {

// ------------------------------------------------------------------
// Value conversions between signed parameters and their stored form.
// ------------------------------------------------------------------

/// The byte under which an 8-bit signed value is stored (two's complement).
pub open spec fn u8_of_i8(x: i8) -> u8 {
    if x >= 0 {
        x as u8
    } else {
        (x + 256) as u8
    }
}

/// The 8-bit signed value stored under a byte (two's complement).
pub open spec fn i8_of_u8(b: u8) -> i8 {
    if b < 128 {
        b as i8
    } else {
        (b - 256) as i8
    }
}

/// The word under which a 32-bit signed value is stored (two's complement).
pub open spec fn u32_of_i32(x: i32) -> u32 {
    if x >= 0 {
        x as u32
    } else {
        (x + 0x1_0000_0000) as u32
    }
}

/// The 32-bit signed value stored under a word (two's complement).
pub open spec fn i32_of_u32(w: u32) -> i32 {
    if w < 0x8000_0000 {
        w as i32
    } else {
        (w - 0x1_0000_0000) as i32
    }
}

pub proof fn lemma_i8_store_round_trip(x: i8)
    ensures
        i8_of_u8(u8_of_i8(x)) == x,
{
}

pub proof fn lemma_i32_store_round_trip(x: i32)
    ensures
        i32_of_u32(u32_of_i32(x)) == x,
{
}

// ------------------------------------------------------------------
// Ghost models of the two persisted network forms.
// ------------------------------------------------------------------

/// The mathematical content of one float layer: weight rows of bit
/// patterns, bias bit patterns, and the activation.
#[verifier::ext_equal]
pub ghost struct FLayerModel {
    pub weights: Seq<Seq<u32>>,
    pub biases: Seq<u32>,
    pub activation: ActivationFunction,
}

/// The mathematical content of one quantized layer.
#[verifier::ext_equal]
pub ghost struct QLayerModel {
    pub weights: Seq<Seq<i8>>,
    pub biases: Seq<i32>,
    pub activation: ActivationFunction,
    pub weight_scale_bits: u32,
    pub bias_scale_bits: u32,
}

pub open spec fn flayer_model(l: Layer) -> FLayerModel {
    FLayerModel {
        weights: l.weights@.map_values(|row: Vec<u32>| row@),
        biases: l.biases@,
        activation: l.activation,
    }
}

pub open spec fn fnet_model(n: NeuralNetwork) -> Seq<FLayerModel> {
    n.layers@.map_values(|l: Layer| flayer_model(l))
}

pub open spec fn qlayer_model(l: QuantizedLayer) -> QLayerModel {
    QLayerModel {
        weights: l.weights@.map_values(|row: Vec<i8>| row@),
        biases: l.biases@,
        activation: l.activation,
        weight_scale_bits: l.weight_scale_bits,
        bias_scale_bits: l.bias_scale_bits,
    }
}

pub open spec fn qnet_model(n: QuantizedNeuralNetwork) -> Seq<QLayerModel> {
    n.layers@.map_values(|l: QuantizedLayer| qlayer_model(l))
}

/// The width of a weight matrix model: the width of its first row.
pub open spec fn model_cols<T>(m: Seq<Seq<T>>) -> int {
    if m.len() == 0 {
        0
    } else {
        m[0].len() as int
    }
}

/// A layer model that a byte encoding can represent and restore: one bias
/// per row, all rows one width, and every count within the machine's range.
pub open spec fn flayer_model_wf(l: FLayerModel) -> bool {
    &&& l.biases.len() == l.weights.len()
    &&& l.weights.len() <= usize::MAX
    &&& model_cols(l.weights) <= usize::MAX
    &&& forall|r: int|
        0 <= r < l.weights.len() ==> (#[trigger] l.weights[r]).len() == model_cols(l.weights)
}

pub open spec fn qlayer_model_wf(l: QLayerModel) -> bool {
    &&& l.biases.len() == l.weights.len()
    &&& l.weights.len() <= usize::MAX
    &&& model_cols(l.weights) <= usize::MAX
    &&& forall|r: int|
        0 <= r < l.weights.len() ==> (#[trigger] l.weights[r]).len() == model_cols(l.weights)
}

// ------------------------------------------------------------------
// The byte format, written down as spec-level encoders.
//
// A stored network is the layer count as a 64-bit little-endian word,
// then each layer in order. A stored layer is its row count and row
// width as 64-bit words, the weight rows in order, the biases, and the
// activation tag as a 32-bit word; a quantized layer carries its two
// scale-factor bit patterns after the tag. Float parameters are stored
// as their 32-bit patterns, quantized weights as single two's-complement
// bytes and quantized biases as 32-bit two's-complement words. All words
// are little-endian.
// ------------------------------------------------------------------

pub open spec fn enc_u64(x: u64) -> Seq<u8> {
    spec_u64_to_le_bytes(x)
}

pub open spec fn enc_u32(x: u32) -> Seq<u8> {
    spec_u32_to_le_bytes(x)
}

pub open spec fn enc_words(s: Seq<u32>) -> Seq<u8>
    decreases s.len(),
{
    if s.len() == 0 {
        Seq::empty()
    } else {
        enc_u32(s[0]) + enc_words(s.drop_first())
    }
}

pub open spec fn enc_word_rows(m: Seq<Seq<u32>>) -> Seq<u8>
    decreases m.len(),
{
    if m.len() == 0 {
        Seq::empty()
    } else {
        enc_words(m[0]) + enc_word_rows(m.drop_first())
    }
}

pub open spec fn enc_byte_row(s: Seq<i8>) -> Seq<u8> {
    s.map_values(|x: i8| u8_of_i8(x))
}

pub open spec fn enc_byte_rows(m: Seq<Seq<i8>>) -> Seq<u8>
    decreases m.len(),
{
    if m.len() == 0 {
        Seq::empty()
    } else {
        enc_byte_row(m[0]) + enc_byte_rows(m.drop_first())
    }
}

pub open spec fn enc_i32s(s: Seq<i32>) -> Seq<u8>
    decreases s.len(),
{
    if s.len() == 0 {
        Seq::empty()
    } else {
        enc_u32(u32_of_i32(s[0])) + enc_i32s(s.drop_first())
    }
}

pub open spec fn enc_flayer(l: FLayerModel) -> Seq<u8> {
    enc_u64(l.weights.len() as u64) + enc_u64(model_cols(l.weights) as u64) + enc_word_rows(
        l.weights,
    ) + enc_words(l.biases) + enc_u32(l.activation.tag_spec())
}

pub open spec fn enc_flayers(ms: Seq<FLayerModel>) -> Seq<u8>
    decreases ms.len(),
{
    if ms.len() == 0 {
        Seq::empty()
    } else {
        enc_flayer(ms[0]) + enc_flayers(ms.drop_first())
    }
}

pub open spec fn enc_fnet(ms: Seq<FLayerModel>) -> Seq<u8> {
    enc_u64(ms.len() as u64) + enc_flayers(ms)
}

pub open spec fn enc_qlayer(l: QLayerModel) -> Seq<u8> {
    enc_u64(l.weights.len() as u64) + enc_u64(model_cols(l.weights) as u64) + enc_byte_rows(
        l.weights,
    ) + enc_i32s(l.biases) + enc_u32(l.activation.tag_spec()) + enc_u32(l.weight_scale_bits)
        + enc_u32(l.bias_scale_bits)
}

pub open spec fn enc_qlayers(ms: Seq<QLayerModel>) -> Seq<u8>
    decreases ms.len(),
{
    if ms.len() == 0 {
        Seq::empty()
    } else {
        enc_qlayer(ms[0]) + enc_qlayers(ms.drop_first())
    }
}

pub open spec fn enc_qnet(ms: Seq<QLayerModel>) -> Seq<u8> {
    enc_u64(ms.len() as u64) + enc_qlayers(ms)
}

// ------------------------------------------------------------------
// The matching spec-level parsers. Each consumes from the front of the
// byte sequence and hands back the remainder; a parse of a whole
// network requires the remainder to be empty.
// ------------------------------------------------------------------

pub open spec fn parse_u64(b: Seq<u8>) -> Option<(u64, Seq<u8>)> {
    if b.len() >= 8 {
        Some((spec_u64_from_le_bytes(b.take(8)), b.skip(8)))
    } else {
        None
    }
}

pub open spec fn parse_u32(b: Seq<u8>) -> Option<(u32, Seq<u8>)> {
    if b.len() >= 4 {
        Some((spec_u32_from_le_bytes(b.take(4)), b.skip(4)))
    } else {
        None
    }
}

pub open spec fn parse_words(b: Seq<u8>, k: nat) -> Option<(Seq<u32>, Seq<u8>)>
    decreases k,
{
    if k == 0 {
        Some((Seq::empty(), b))
    } else {
        match parse_u32(b) {
            Option::None => None,
            Option::Some((w, rest)) => match parse_words(rest, (k - 1) as nat) {
                Option::None => None,
                Option::Some((s, rest2)) => Some((seq![w] + s, rest2)),
            },
        }
    }
}

pub open spec fn parse_word_rows(b: Seq<u8>, rows: nat, cols: nat) -> Option<
    (Seq<Seq<u32>>, Seq<u8>),
>
    decreases rows,
{
    if rows == 0 {
        Some((Seq::empty(), b))
    } else {
        match parse_words(b, cols) {
            Option::None => None,
            Option::Some((row, rest)) => match parse_word_rows(rest, (rows - 1) as nat, cols) {
                Option::None => None,
                Option::Some((m, rest2)) => Some((seq![row] + m, rest2)),
            },
        }
    }
}

pub open spec fn parse_byte_row(b: Seq<u8>, cols: nat) -> Option<(Seq<i8>, Seq<u8>)> {
    if b.len() >= cols {
        Some((b.take(cols as int).map_values(|x: u8| i8_of_u8(x)), b.skip(cols as int)))
    } else {
        None
    }
}

pub open spec fn parse_byte_rows(b: Seq<u8>, rows: nat, cols: nat) -> Option<
    (Seq<Seq<i8>>, Seq<u8>),
>
    decreases rows,
{
    if rows == 0 {
        Some((Seq::empty(), b))
    } else {
        match parse_byte_row(b, cols) {
            Option::None => None,
            Option::Some((row, rest)) => match parse_byte_rows(rest, (rows - 1) as nat, cols) {
                Option::None => None,
                Option::Some((m, rest2)) => Some((seq![row] + m, rest2)),
            },
        }
    }
}

pub open spec fn parse_i32s(b: Seq<u8>, k: nat) -> Option<(Seq<i32>, Seq<u8>)>
    decreases k,
{
    if k == 0 {
        Some((Seq::empty(), b))
    } else {
        match parse_u32(b) {
            Option::None => None,
            Option::Some((w, rest)) => match parse_i32s(rest, (k - 1) as nat) {
                Option::None => None,
                Option::Some((s, rest2)) => Some((seq![i32_of_u32(w)] + s, rest2)),
            },
        }
    }
}

pub open spec fn parse_flayer(b: Seq<u8>) -> Option<(FLayerModel, Seq<u8>)> {
    match parse_u64(b) {
        Option::None => None,
        Option::Some((rows, b1)) => match parse_u64(b1) {
            Option::None => None,
            Option::Some((cols, b2)) => if rows > usize::MAX as u64 || cols > usize::MAX as u64
                || (rows == 0 && cols != 0) {
                None
            } else {
                match parse_word_rows(b2, rows as nat, cols as nat) {
                    Option::None => None,
                    Option::Some((w, b3)) => match parse_words(b3, rows as nat) {
                        Option::None => None,
                        Option::Some((bs, b4)) => match parse_u32(b4) {
                            Option::None => None,
                            Option::Some((tag, b5)) => match ActivationFunction::from_tag_spec(
                                tag,
                            ) {
                                Option::None => None,
                                Option::Some(act) => Some(
                                    (
                                        FLayerModel {
                                            weights: w,
                                            biases: bs,
                                            activation: act,
                                        },
                                        b5,
                                    ),
                                ),
                            },
                        },
                    },
                }
            },
        },
    }
}

pub open spec fn parse_flayers(b: Seq<u8>, k: nat) -> Option<(Seq<FLayerModel>, Seq<u8>)>
    decreases k,
{
    if k == 0 {
        Some((Seq::empty(), b))
    } else {
        match parse_flayer(b) {
            Option::None => None,
            Option::Some((l, rest)) => match parse_flayers(rest, (k - 1) as nat) {
                Option::None => None,
                Option::Some((ms, rest2)) => Some((seq![l] + ms, rest2)),
            },
        }
    }
}

/// What a float-network file means: the layer count, that many layers, and
/// nothing after them.
pub open spec fn parse_fnet(b: Seq<u8>) -> Option<Seq<FLayerModel>> {
    match parse_u64(b) {
        Option::None => None,
        Option::Some((count, b1)) => if count > usize::MAX as u64 {
            None
        } else {
            match parse_flayers(b1, count as nat) {
                Option::None => None,
                Option::Some((ms, rest)) => if rest.len() == 0 {
                    Some(ms)
                } else {
                    None
                },
            }
        },
    }
}

pub open spec fn parse_qlayer(b: Seq<u8>) -> Option<(QLayerModel, Seq<u8>)> {
    match parse_u64(b) {
        Option::None => None,
        Option::Some((rows, b1)) => match parse_u64(b1) {
            Option::None => None,
            Option::Some((cols, b2)) => if rows > usize::MAX as u64 || cols > usize::MAX as u64
                || (rows == 0 && cols != 0) {
                None
            } else {
                match parse_byte_rows(b2, rows as nat, cols as nat) {
                    Option::None => None,
                    Option::Some((w, b3)) => match parse_i32s(b3, rows as nat) {
                        Option::None => None,
                        Option::Some((bs, b4)) => match parse_u32(b4) {
                            Option::None => None,
                            Option::Some((tag, b5)) => match ActivationFunction::from_tag_spec(
                                tag,
                            ) {
                                Option::None => None,
                                Option::Some(act) => match parse_u32(b5) {
                                    Option::None => None,
                                    Option::Some((wsb, b6)) => match parse_u32(b6) {
                                        Option::None => None,
                                        Option::Some((bsb, b7)) => Some(
                                            (
                                                QLayerModel {
                                                    weights: w,
                                                    biases: bs,
                                                    activation: act,
                                                    weight_scale_bits: wsb,
                                                    bias_scale_bits: bsb,
                                                },
                                                b7,
                                            ),
                                        ),
                                    },
                                },
                            },
                        },
                    },
                }
            },
        },
    }
}

pub open spec fn parse_qlayers(b: Seq<u8>, k: nat) -> Option<(Seq<QLayerModel>, Seq<u8>)>
    decreases k,
{
    if k == 0 {
        Some((Seq::empty(), b))
    } else {
        match parse_qlayer(b) {
            Option::None => None,
            Option::Some((l, rest)) => match parse_qlayers(rest, (k - 1) as nat) {
                Option::None => None,
                Option::Some((ms, rest2)) => Some((seq![l] + ms, rest2)),
            },
        }
    }
}

/// What a quantized-network file means.
pub open spec fn parse_qnet(b: Seq<u8>) -> Option<Seq<QLayerModel>> {
    match parse_u64(b) {
        Option::None => None,
        Option::Some((count, b1)) => if count > usize::MAX as u64 {
            None
        } else {
            match parse_qlayers(b1, count as nat) {
                Option::None => None,
                Option::Some((ms, rest)) => if rest.len() == 0 {
                    Some(ms)
                } else {
                    None
                },
            }
        },
    }
}

// ------------------------------------------------------------------
// Round trip: parsing inverts encoding, piece by piece.
// ------------------------------------------------------------------

proof fn lemma_parse_u64_enc(x: u64, rest: Seq<u8>)
    ensures
        parse_u64(enc_u64(x) + rest) == Some((x, rest)),
{
    lemma_auto_spec_u64_to_from_le_bytes();
    let b = enc_u64(x) + rest;
    assert(b.take(8) =~= enc_u64(x));
    assert(b.skip(8) =~= rest);
}

proof fn lemma_parse_u32_enc(x: u32, rest: Seq<u8>)
    ensures
        parse_u32(enc_u32(x) + rest) == Some((x, rest)),
{
    lemma_auto_spec_u32_to_from_le_bytes();
    let b = enc_u32(x) + rest;
    assert(b.take(4) =~= enc_u32(x));
    assert(b.skip(4) =~= rest);
}

proof fn lemma_parse_words_enc(s: Seq<u32>, rest: Seq<u8>)
    ensures
        parse_words(enc_words(s) + rest, s.len()) == Some((s, rest)),
    decreases s.len(),
{
    if s.len() == 0 {
        assert(enc_words(s) + rest =~= rest);
    } else {
        let tailenc = enc_words(s.drop_first()) + rest;
        assert(enc_words(s) + rest =~= enc_u32(s[0]) + tailenc);
        lemma_parse_u32_enc(s[0], tailenc);
        lemma_parse_words_enc(s.drop_first(), rest);
        assert(seq![s[0]] + s.drop_first() =~= s);
    }
}

proof fn lemma_parse_word_rows_enc(m: Seq<Seq<u32>>, cols: nat, rest: Seq<u8>)
    requires
        forall|i: int| 0 <= i < m.len() ==> (#[trigger] m[i]).len() == cols,
    ensures
        parse_word_rows(enc_word_rows(m) + rest, m.len(), cols) == Some((m, rest)),
    decreases m.len(),
{
    if m.len() == 0 {
        assert(enc_word_rows(m) + rest =~= rest);
    } else {
        let tailenc = enc_word_rows(m.drop_first()) + rest;
        assert(enc_word_rows(m) + rest =~= enc_words(m[0]) + tailenc);
        assert(m[0].len() == cols);
        lemma_parse_words_enc(m[0], tailenc);
        lemma_parse_word_rows_enc(m.drop_first(), cols, rest);
        assert(seq![m[0]] + m.drop_first() =~= m);
    }
}

proof fn lemma_parse_byte_row_enc(s: Seq<i8>, rest: Seq<u8>)
    ensures
        parse_byte_row(enc_byte_row(s) + rest, s.len()) == Some((s, rest)),
{
    let b = enc_byte_row(s) + rest;
    assert(enc_byte_row(s).len() == s.len());
    assert(b.take(s.len() as int) =~= enc_byte_row(s));
    assert(b.skip(s.len() as int) =~= rest);
    let mapped = b.take(s.len() as int).map_values(|x: u8| i8_of_u8(x));
    assert forall|i: int| 0 <= i < s.len() implies mapped[i] == s[i] by {
        assert(b.take(s.len() as int)[i] == u8_of_i8(s[i]));
        lemma_i8_store_round_trip(s[i]);
    }
    assert(mapped =~= s);
}

proof fn lemma_parse_byte_rows_enc(m: Seq<Seq<i8>>, cols: nat, rest: Seq<u8>)
    requires
        forall|i: int| 0 <= i < m.len() ==> (#[trigger] m[i]).len() == cols,
    ensures
        parse_byte_rows(enc_byte_rows(m) + rest, m.len(), cols) == Some((m, rest)),
    decreases m.len(),
{
    if m.len() == 0 {
        assert(enc_byte_rows(m) + rest =~= rest);
    } else {
        let tailenc = enc_byte_rows(m.drop_first()) + rest;
        assert(enc_byte_rows(m) + rest =~= enc_byte_row(m[0]) + tailenc);
        assert(m[0].len() == cols);
        lemma_parse_byte_row_enc(m[0], tailenc);
        lemma_parse_byte_rows_enc(m.drop_first(), cols, rest);
        assert(seq![m[0]] + m.drop_first() =~= m);
    }
}

proof fn lemma_parse_i32s_enc(s: Seq<i32>, rest: Seq<u8>)
    ensures
        parse_i32s(enc_i32s(s) + rest, s.len()) == Some((s, rest)),
    decreases s.len(),
{
    if s.len() == 0 {
        assert(enc_i32s(s) + rest =~= rest);
    } else {
        let tailenc = enc_i32s(s.drop_first()) + rest;
        assert(enc_i32s(s) + rest =~= enc_u32(u32_of_i32(s[0])) + tailenc);
        lemma_parse_u32_enc(u32_of_i32(s[0]), tailenc);
        lemma_i32_store_round_trip(s[0]);
        lemma_parse_i32s_enc(s.drop_first(), rest);
        assert(seq![s[0]] + s.drop_first() =~= s);
    }
}

proof fn lemma_parse_flayer_enc(l: FLayerModel, rest: Seq<u8>)
    requires
        flayer_model_wf(l),
    ensures
        parse_flayer(enc_flayer(l) + rest) == Some((l, rest)),
{
    let rows = l.weights.len();
    let cols = model_cols(l.weights) as nat;
    let e1 = enc_u64(rows as u64);
    let e2 = enc_u64(cols as u64);
    let e3 = enc_word_rows(l.weights);
    let e4 = enc_words(l.biases);
    let e5 = enc_u32(l.activation.tag_spec());
    let t4 = e5 + rest;
    let t3 = e4 + t4;
    let t2 = e3 + t3;
    let t1 = e2 + t2;
    assert(enc_flayer(l) + rest =~= e1 + t1);
    lemma_parse_u64_enc(rows as u64, t1);
    lemma_parse_u64_enc(cols as u64, t2);
    lemma_parse_word_rows_enc(l.weights, cols, t3);
    lemma_parse_words_enc(l.biases, t4);
    lemma_parse_u32_enc(l.activation.tag_spec(), rest);
    lemma_activation_tag_round_trip(l.activation);
    assert((rows as u64) as nat == rows);
    assert((cols as u64) as nat == cols);
    assert(parse_flayer(enc_flayer(l) + rest) == Some((l, rest)));
}

proof fn lemma_parse_flayers_enc(ms: Seq<FLayerModel>, rest: Seq<u8>)
    requires
        forall|i: int| 0 <= i < ms.len() ==> flayer_model_wf(#[trigger] ms[i]),
    ensures
        parse_flayers(enc_flayers(ms) + rest, ms.len()) == Some((ms, rest)),
    decreases ms.len(),
{
    if ms.len() == 0 {
        assert(enc_flayers(ms) + rest =~= rest);
    } else {
        let tailenc = enc_flayers(ms.drop_first()) + rest;
        assert(enc_flayers(ms) + rest =~= enc_flayer(ms[0]) + tailenc);
        lemma_parse_flayer_enc(ms[0], tailenc);
        lemma_parse_flayers_enc(ms.drop_first(), rest);
        assert(seq![ms[0]] + ms.drop_first() =~= ms);
    }
}

#[verifier::spinoff_prover]
#[verifier::rlimit(60)]
proof fn lemma_parse_qlayer_enc(l: QLayerModel, rest: Seq<u8>)
    requires
        qlayer_model_wf(l),
    ensures
        parse_qlayer(enc_qlayer(l) + rest) == Some((l, rest)),
{
    let rows = l.weights.len();
    let cols = model_cols(l.weights) as nat;
    let e1 = enc_u64(rows as u64);
    let e2 = enc_u64(cols as u64);
    let e3 = enc_byte_rows(l.weights);
    let e4 = enc_i32s(l.biases);
    let e5 = enc_u32(l.activation.tag_spec());
    let e6 = enc_u32(l.weight_scale_bits);
    let e7 = enc_u32(l.bias_scale_bits);
    let t6 = e7 + rest;
    let t5 = e6 + t6;
    let t4 = e5 + t5;
    let t3 = e4 + t4;
    let t2 = e3 + t3;
    let t1 = e2 + t2;
    assert(enc_qlayer(l) + rest =~= e1 + t1);
    lemma_parse_u64_enc(rows as u64, t1);
    lemma_parse_u64_enc(cols as u64, t2);
    lemma_parse_byte_rows_enc(l.weights, cols, t3);
    lemma_parse_i32s_enc(l.biases, t4);
    lemma_parse_u32_enc(l.activation.tag_spec(), t5);
    lemma_activation_tag_round_trip(l.activation);
    lemma_parse_u32_enc(l.weight_scale_bits, t6);
    lemma_parse_u32_enc(l.bias_scale_bits, rest);
    assert((rows as u64) as nat == rows);
    assert((cols as u64) as nat == cols);
    assert(parse_qlayer(enc_qlayer(l) + rest) == Some((l, rest)));
}

proof fn lemma_parse_qlayers_enc(ms: Seq<QLayerModel>, rest: Seq<u8>)
    requires
        forall|i: int| 0 <= i < ms.len() ==> qlayer_model_wf(#[trigger] ms[i]),
    ensures
        parse_qlayers(enc_qlayers(ms) + rest, ms.len()) == Some((ms, rest)),
    decreases ms.len(),
{
    if ms.len() == 0 {
        assert(enc_qlayers(ms) + rest =~= rest);
    } else {
        let tailenc = enc_qlayers(ms.drop_first()) + rest;
        assert(enc_qlayers(ms) + rest =~= enc_qlayer(ms[0]) + tailenc);
        lemma_parse_qlayer_enc(ms[0], tailenc);
        lemma_parse_qlayers_enc(ms.drop_first(), rest);
        assert(seq![ms[0]] + ms.drop_first() =~= ms);
    }
}

/// Round trip at the model level: the encoding of any representable list of
/// float layers parses back to exactly that list.
pub proof fn lemma_parse_fnet_enc(ms: Seq<FLayerModel>)
    requires
        ms.len() <= usize::MAX,
        forall|i: int| 0 <= i < ms.len() ==> flayer_model_wf(#[trigger] ms[i]),
    ensures
        parse_fnet(enc_fnet(ms)) == Some(ms),
{
    let empty = Seq::<u8>::empty();
    lemma_parse_flayers_enc(ms, empty);
    assert(enc_flayers(ms) + empty =~= enc_flayers(ms));
    lemma_parse_u64_enc(ms.len() as u64, enc_flayers(ms));
    assert((ms.len() as u64) as nat == ms.len());
}

/// Round trip at the model level for the quantized form.
pub proof fn lemma_parse_qnet_enc(ms: Seq<QLayerModel>)
    requires
        ms.len() <= usize::MAX,
        forall|i: int| 0 <= i < ms.len() ==> qlayer_model_wf(#[trigger] ms[i]),
    ensures
        parse_qnet(enc_qnet(ms)) == Some(ms),
{
    let empty = Seq::<u8>::empty();
    lemma_parse_qlayers_enc(ms, empty);
    assert(enc_qlayers(ms) + empty =~= enc_qlayers(ms));
    lemma_parse_u64_enc(ms.len() as u64, enc_qlayers(ms));
    assert((ms.len() as u64) as nat == ms.len());
}

// ------------------------------------------------------------------
// Executable encoding.
// ------------------------------------------------------------------

proof fn lemma_enc_words_push(s: Seq<u32>, x: u32)
    ensures
        enc_words(s.push(x)) == enc_words(s) + enc_u32(x),
    decreases s.len(),
{
    if s.len() == 0 {
        assert(s.push(x).len() == 1);
        assert(s.push(x)[0] == x);
        assert(s.push(x).drop_first() =~= Seq::<u32>::empty());
        assert(enc_words(Seq::<u32>::empty()) == Seq::<u8>::empty());
        assert(enc_words(s.push(x)) == enc_u32(x) + Seq::<u8>::empty());
        assert(enc_u32(x) + Seq::<u8>::empty() =~= enc_u32(x));
        assert(enc_words(s) == Seq::<u8>::empty());
        assert(Seq::<u8>::empty() + enc_u32(x) =~= enc_u32(x));
        assert(enc_words(s.push(x)) == enc_words(s) + enc_u32(x));
    } else {
        let a = enc_u32(s[0]);
        let b = enc_words(s.drop_first());
        let c = enc_u32(x);
        assert(s.push(x)[0] == s[0]);
        assert(s.push(x).drop_first() =~= s.drop_first().push(x));
        lemma_enc_words_push(s.drop_first(), x);
        assert(enc_words(s.push(x)) == a + (b + c));
        assert(a + (b + c) =~= (a + b) + c);
        assert(enc_words(s) == a + b);
        assert(enc_words(s.push(x)) == enc_words(s) + enc_u32(x));
    }
}

proof fn lemma_enc_i32s_push(s: Seq<i32>, x: i32)
    ensures
        enc_i32s(s.push(x)) == enc_i32s(s) + enc_u32(u32_of_i32(x)),
    decreases s.len(),
{
    if s.len() == 0 {
        assert(s.push(x)[0] == x);
        assert(s.push(x).drop_first() =~= Seq::<i32>::empty());
        assert(enc_i32s(Seq::<i32>::empty()) == Seq::<u8>::empty());
        assert(enc_i32s(s.push(x)) == enc_u32(u32_of_i32(x)) + Seq::<u8>::empty());
        assert(enc_u32(u32_of_i32(x)) + Seq::<u8>::empty() =~= enc_u32(u32_of_i32(x)));
        assert(Seq::<u8>::empty() + enc_u32(u32_of_i32(x)) =~= enc_u32(u32_of_i32(x)));
        assert(enc_i32s(s.push(x)) == enc_i32s(s) + enc_u32(u32_of_i32(x)));
    } else {
        let a = enc_u32(u32_of_i32(s[0]));
        let b = enc_i32s(s.drop_first());
        let c = enc_u32(u32_of_i32(x));
        assert(s.push(x)[0] == s[0]);
        assert(s.push(x).drop_first() =~= s.drop_first().push(x));
        lemma_enc_i32s_push(s.drop_first(), x);
        assert(enc_i32s(s.push(x)) == a + (b + c));
        assert(a + (b + c) =~= (a + b) + c);
        assert(enc_i32s(s) == a + b);
        assert(enc_i32s(s.push(x)) == enc_i32s(s) + enc_u32(u32_of_i32(x)));
    }
}

proof fn lemma_enc_word_rows_push(m: Seq<Seq<u32>>, row: Seq<u32>)
    ensures
        enc_word_rows(m.push(row)) == enc_word_rows(m) + enc_words(row),
    decreases m.len(),
{
    if m.len() == 0 {
        assert(m.push(row)[0] == row);
        assert(m.push(row).drop_first() =~= Seq::<Seq<u32>>::empty());
        assert(enc_word_rows(Seq::<Seq<u32>>::empty()) == Seq::<u8>::empty());
        assert(enc_word_rows(m.push(row)) == enc_words(row) + Seq::<u8>::empty());
        assert(enc_words(row) + Seq::<u8>::empty() =~= enc_words(row));
        assert(Seq::<u8>::empty() + enc_words(row) =~= enc_words(row));
        assert(enc_word_rows(m.push(row)) == enc_word_rows(m) + enc_words(row));
    } else {
        let a = enc_words(m[0]);
        let b = enc_word_rows(m.drop_first());
        let c = enc_words(row);
        assert(m.push(row)[0] == m[0]);
        assert(m.push(row).drop_first() =~= m.drop_first().push(row));
        lemma_enc_word_rows_push(m.drop_first(), row);
        assert(enc_word_rows(m.push(row)) == a + (b + c));
        assert(a + (b + c) =~= (a + b) + c);
        assert(enc_word_rows(m) == a + b);
        assert(enc_word_rows(m.push(row)) == enc_word_rows(m) + enc_words(row));
    }
}

proof fn lemma_enc_byte_rows_push(m: Seq<Seq<i8>>, row: Seq<i8>)
    ensures
        enc_byte_rows(m.push(row)) == enc_byte_rows(m) + enc_byte_row(row),
    decreases m.len(),
{
    if m.len() == 0 {
        assert(m.push(row)[0] == row);
        assert(m.push(row).drop_first() =~= Seq::<Seq<i8>>::empty());
        assert(enc_byte_rows(Seq::<Seq<i8>>::empty()) == Seq::<u8>::empty());
        assert(enc_byte_rows(m.push(row)) == enc_byte_row(row) + Seq::<u8>::empty());
        assert(enc_byte_row(row) + Seq::<u8>::empty() =~= enc_byte_row(row));
        assert(Seq::<u8>::empty() + enc_byte_row(row) =~= enc_byte_row(row));
        assert(enc_byte_rows(m.push(row)) == enc_byte_rows(m) + enc_byte_row(row));
    } else {
        let a = enc_byte_row(m[0]);
        let b = enc_byte_rows(m.drop_first());
        let c = enc_byte_row(row);
        assert(m.push(row)[0] == m[0]);
        assert(m.push(row).drop_first() =~= m.drop_first().push(row));
        lemma_enc_byte_rows_push(m.drop_first(), row);
        assert(enc_byte_rows(m.push(row)) == a + (b + c));
        assert(a + (b + c) =~= (a + b) + c);
        assert(enc_byte_rows(m) == a + b);
        assert(enc_byte_rows(m.push(row)) == enc_byte_rows(m) + enc_byte_row(row));
    }
}

proof fn lemma_enc_flayers_push(ms: Seq<FLayerModel>, l: FLayerModel)
    ensures
        enc_flayers(ms.push(l)) == enc_flayers(ms) + enc_flayer(l),
    decreases ms.len(),
{
    if ms.len() == 0 {
        assert(ms.push(l)[0] == l);
        assert(ms.push(l).drop_first() =~= Seq::<FLayerModel>::empty());
        assert(enc_flayers(Seq::<FLayerModel>::empty()) == Seq::<u8>::empty());
        assert(enc_flayers(ms.push(l)) == enc_flayer(l) + Seq::<u8>::empty());
        assert(enc_flayer(l) + Seq::<u8>::empty() =~= enc_flayer(l));
        assert(Seq::<u8>::empty() + enc_flayer(l) =~= enc_flayer(l));
        assert(enc_flayers(ms.push(l)) == enc_flayers(ms) + enc_flayer(l));
    } else {
        let a = enc_flayer(ms[0]);
        let b = enc_flayers(ms.drop_first());
        let c = enc_flayer(l);
        assert(ms.push(l)[0] == ms[0]);
        assert(ms.push(l).drop_first() =~= ms.drop_first().push(l));
        lemma_enc_flayers_push(ms.drop_first(), l);
        assert(enc_flayers(ms.push(l)) == a + (b + c));
        assert(a + (b + c) =~= (a + b) + c);
        assert(enc_flayers(ms) == a + b);
        assert(enc_flayers(ms.push(l)) == enc_flayers(ms) + enc_flayer(l));
    }
}

proof fn lemma_enc_qlayers_push(ms: Seq<QLayerModel>, l: QLayerModel)
    ensures
        enc_qlayers(ms.push(l)) == enc_qlayers(ms) + enc_qlayer(l),
    decreases ms.len(),
{
    if ms.len() == 0 {
        assert(ms.push(l)[0] == l);
        assert(ms.push(l).drop_first() =~= Seq::<QLayerModel>::empty());
        assert(enc_qlayers(Seq::<QLayerModel>::empty()) == Seq::<u8>::empty());
        assert(enc_qlayers(ms.push(l)) == enc_qlayer(l) + Seq::<u8>::empty());
        assert(enc_qlayer(l) + Seq::<u8>::empty() =~= enc_qlayer(l));
        assert(Seq::<u8>::empty() + enc_qlayer(l) =~= enc_qlayer(l));
        assert(enc_qlayers(ms.push(l)) == enc_qlayers(ms) + enc_qlayer(l));
    } else {
        let a = enc_qlayer(ms[0]);
        let b = enc_qlayers(ms.drop_first());
        let c = enc_qlayer(l);
        assert(ms.push(l)[0] == ms[0]);
        assert(ms.push(l).drop_first() =~= ms.drop_first().push(l));
        lemma_enc_qlayers_push(ms.drop_first(), l);
        assert(enc_qlayers(ms.push(l)) == a + (b + c));
        assert(a + (b + c) =~= (a + b) + c);
        assert(enc_qlayers(ms) == a + b);
        assert(enc_qlayers(ms.push(l)) == enc_qlayers(ms) + enc_qlayer(l));
    }
}

fn push_u64(out: &mut Vec<u8>, x: u64)
    ensures
        final(out)@ == old(out)@ + enc_u64(x),
{
    let mut b = u64_to_le_bytes(x);
    out.append(&mut b);
}

fn push_u32(out: &mut Vec<u8>, x: u32)
    ensures
        final(out)@ == old(out)@ + enc_u32(x),
{
    let mut b = u32_to_le_bytes(x);
    out.append(&mut b);
}

fn push_words(out: &mut Vec<u8>, v: &Vec<u32>)
    ensures
        final(out)@ == old(out)@ + enc_words(v@),
{
    let ghost base = out@;
    let mut j: usize = 0;
    while j < v.len()
        invariant
            j <= v@.len(),
            out@ == base + enc_words(v@.take(j as int)),
        decreases v@.len() - j,
    {
        push_u32(out, v[j]);
        proof {
            lemma_enc_words_push(v@.take(j as int), v@[j as int]);
            assert(v@.take(j + 1 as int) =~= v@.take(j as int).push(v@[j as int]));
            assert(out@ =~= base + enc_words(v@.take(j + 1 as int)));
        }
        j = j + 1;
    }
    proof {
        assert(v@.take(v@.len() as int) =~= v@);
    }
}

fn push_i32s(out: &mut Vec<u8>, v: &Vec<i32>)
    ensures
        final(out)@ == old(out)@ + enc_i32s(v@),
{
    let ghost base = out@;
    let mut j: usize = 0;
    while j < v.len()
        invariant
            j <= v@.len(),
            out@ == base + enc_i32s(v@.take(j as int)),
        decreases v@.len() - j,
    {
        let w = if v[j] >= 0 {
            v[j] as u32
        } else {
            ((v[j] as i64) + 0x1_0000_0000) as u32
        };
        assert(w == u32_of_i32(v@[j as int]));
        push_u32(out, w);
        proof {
            lemma_enc_i32s_push(v@.take(j as int), v@[j as int]);
            assert(v@.take(j + 1 as int) =~= v@.take(j as int).push(v@[j as int]));
            assert(out@ =~= base + enc_i32s(v@.take(j + 1 as int)));
        }
        j = j + 1;
    }
    proof {
        assert(v@.take(v@.len() as int) =~= v@);
    }
}

fn push_byte_row(out: &mut Vec<u8>, row: &Vec<i8>)
    ensures
        final(out)@ == old(out)@ + enc_byte_row(row@),
{
    let ghost base = out@;
    let mut j: usize = 0;
    while j < row.len()
        invariant
            j <= row@.len(),
            out@ == base + enc_byte_row(row@.take(j as int)),
        decreases row@.len() - j,
    {
        let x = row[j];
        let b: u8 = if x >= 0 {
            x as u8
        } else {
            ((x as i16) + 256) as u8
        };
        assert(b == u8_of_i8(row@[j as int]));
        out.push(b);
        proof {
            assert(row@.take(j + 1 as int) =~= row@.take(j as int).push(row@[j as int]));
            assert(enc_byte_row(row@.take(j + 1 as int)) =~= enc_byte_row(row@.take(j as int)).push(
                u8_of_i8(row@[j as int]),
            ));
            assert(out@ =~= base + enc_byte_row(row@.take(j + 1 as int)));
        }
        j = j + 1;
    }
    proof {
        assert(row@.take(row@.len() as int) =~= row@);
    }
}

fn push_flayer(out: &mut Vec<u8>, l: &Layer)
    ensures
        final(out)@ == old(out)@ + enc_flayer(flayer_model(*l)),
{
    let ghost base = out@;
    let ghost lm = flayer_model(*l);
    push_u64(out, l.weights.len() as u64);
    let cols: usize = if l.weights.len() == 0 {
        0
    } else {
        l.weights[0].len()
    };
    assert(cols == model_cols(lm.weights));
    push_u64(out, cols as u64);
    let ghost base2 = out@;
    let mut r: usize = 0;
    while r < l.weights.len()
        invariant
            r <= l.weights@.len(),
            lm == flayer_model(*l),
            out@ == base2 + enc_word_rows(lm.weights.take(r as int)),
        decreases l.weights@.len() - r,
    {
        push_words(out, &l.weights[r]);
        proof {
            assert(lm.weights[r as int] == l.weights@[r as int]@);
            lemma_enc_word_rows_push(lm.weights.take(r as int), lm.weights[r as int]);
            assert(lm.weights.take(r + 1 as int) =~= lm.weights.take(r as int).push(
                lm.weights[r as int],
            ));
            assert(out@ =~= base2 + enc_word_rows(lm.weights.take(r + 1 as int)));
        }
        r = r + 1;
    }
    proof {
        assert(lm.weights.take(lm.weights.len() as int) =~= lm.weights);
    }
    push_words(out, &l.biases);
    push_u32(out, l.activation.tag());
    proof {
        assert(out@ =~= base + enc_flayer(lm));
    }
}

fn push_qlayer(out: &mut Vec<u8>, l: &QuantizedLayer)
    ensures
        final(out)@ == old(out)@ + enc_qlayer(qlayer_model(*l)),
{
    let ghost base = out@;
    let ghost lm = qlayer_model(*l);
    push_u64(out, l.weights.len() as u64);
    let cols: usize = if l.weights.len() == 0 {
        0
    } else {
        l.weights[0].len()
    };
    assert(cols == model_cols(lm.weights));
    push_u64(out, cols as u64);
    let ghost base2 = out@;
    let mut r: usize = 0;
    while r < l.weights.len()
        invariant
            r <= l.weights@.len(),
            lm == qlayer_model(*l),
            out@ == base2 + enc_byte_rows(lm.weights.take(r as int)),
        decreases l.weights@.len() - r,
    {
        push_byte_row(out, &l.weights[r]);
        proof {
            assert(lm.weights[r as int] == l.weights@[r as int]@);
            lemma_enc_byte_rows_push(lm.weights.take(r as int), lm.weights[r as int]);
            assert(lm.weights.take(r + 1 as int) =~= lm.weights.take(r as int).push(
                lm.weights[r as int],
            ));
            assert(out@ =~= base2 + enc_byte_rows(lm.weights.take(r + 1 as int)));
        }
        r = r + 1;
    }
    proof {
        assert(lm.weights.take(lm.weights.len() as int) =~= lm.weights);
    }
    push_i32s(out, &l.biases);
    push_u32(out, l.activation.tag());
    push_u32(out, l.weight_scale_bits);
    push_u32(out, l.bias_scale_bits);
    proof {
        assert(out@ =~= base + enc_qlayer(lm));
    }
}

impl NeuralNetwork {
    /// The byte encoding of this network, as the persistence format writes
    /// it: exactly `enc_fnet` of the network's content.
    pub fn to_bytes(&self) -> (out: Vec<u8>)
        ensures
            out@ == enc_fnet(fnet_model(*self)),
    {
        let ghost ms = fnet_model(*self);
        let mut out: Vec<u8> = Vec::new();
        push_u64(&mut out, self.layers.len() as u64);
        let mut li: usize = 0;
        while li < self.layers.len()
            invariant
                li <= self.layers@.len(),
                ms == fnet_model(*self),
                ms.len() == self.layers@.len(),
                out@ == enc_u64(self.layers@.len() as u64) + enc_flayers(ms.take(li as int)),
            decreases self.layers@.len() - li,
        {
            push_flayer(&mut out, &self.layers[li]);
            proof {
                assert(ms[li as int] == flayer_model(self.layers@[li as int]));
                lemma_enc_flayers_push(ms.take(li as int), ms[li as int]);
                assert(ms.take(li + 1 as int) =~= ms.take(li as int).push(ms[li as int]));
                assert(out@ =~= enc_u64(self.layers@.len() as u64) + enc_flayers(
                    ms.take(li + 1 as int),
                ));
            }
            li = li + 1;
        }
        proof {
            assert(ms.take(ms.len() as int) =~= ms);
        }
        out
    }
}

impl QuantizedNeuralNetwork {
    /// The byte encoding of this network, as the persistence format writes
    /// it: exactly `enc_qnet` of the network's content.
    pub fn to_bytes(&self) -> (out: Vec<u8>)
        ensures
            out@ == enc_qnet(qnet_model(*self)),
    {
        let ghost ms = qnet_model(*self);
        let mut out: Vec<u8> = Vec::new();
        push_u64(&mut out, self.layers.len() as u64);
        let mut li: usize = 0;
        while li < self.layers.len()
            invariant
                li <= self.layers@.len(),
                ms == qnet_model(*self),
                ms.len() == self.layers@.len(),
                out@ == enc_u64(self.layers@.len() as u64) + enc_qlayers(ms.take(li as int)),
            decreases self.layers@.len() - li,
        {
            push_qlayer(&mut out, &self.layers[li]);
            proof {
                assert(ms[li as int] == qlayer_model(self.layers@[li as int]));
                lemma_enc_qlayers_push(ms.take(li as int), ms[li as int]);
                assert(ms.take(li + 1 as int) =~= ms.take(li as int).push(ms[li as int]));
                assert(out@ =~= enc_u64(self.layers@.len() as u64) + enc_qlayers(
                    ms.take(li + 1 as int),
                ));
            }
            li = li + 1;
        }
        proof {
            assert(ms.take(ms.len() as int) =~= ms);
        }
        out
    }
}

// ------------------------------------------------------------------
// Executable decoding. Each reader returns exactly what the spec
// parser says of the bytes from its position on, success and failure
// alike.
// ------------------------------------------------------------------

/// A parse result with the rows read so far put back in front.
pub open spec fn seq_step<T>(acc: Seq<T>, r: Option<(Seq<T>, Seq<u8>)>) -> Option<
    (Seq<T>, Seq<u8>),
> {
    match r {
        Option::None => None,
        Option::Some((s, rest)) => Some((acc + s, rest)),
    }
}

fn read_u64(bytes: &Vec<u8>, pos: usize) -> (r: Option<(u64, usize)>)
    requires
        pos <= bytes@.len(),
    ensures
        match r {
            Some((x, p2)) => {
                &&& pos + 8 <= bytes@.len()
                &&& p2 == pos + 8
                &&& parse_u64(bytes@.skip(pos as int)) == Some((x, bytes@.skip(p2 as int)))
            },
            None => parse_u64(bytes@.skip(pos as int)) is None,
        },
{
    if bytes.len() - pos >= 8 {
        let s = slice_subrange(bytes.as_slice(), pos, pos + 8);
        let x = u64_from_le_bytes(s);
        proof {
            assert(bytes@.skip(pos as int).take(8) =~= bytes@.subrange(pos as int, pos as int + 8));
            assert(bytes@.skip(pos as int).skip(8) =~= bytes@.skip(pos as int + 8));
        }
        Some((x, pos + 8))
    } else {
        None
    }
}

fn read_u32(bytes: &Vec<u8>, pos: usize) -> (r: Option<(u32, usize)>)
    requires
        pos <= bytes@.len(),
    ensures
        match r {
            Some((x, p2)) => {
                &&& pos + 4 <= bytes@.len()
                &&& p2 == pos + 4
                &&& parse_u32(bytes@.skip(pos as int)) == Some((x, bytes@.skip(p2 as int)))
            },
            None => parse_u32(bytes@.skip(pos as int)) is None,
        },
{
    if bytes.len() - pos >= 4 {
        let s = slice_subrange(bytes.as_slice(), pos, pos + 4);
        let x = u32_from_le_bytes(s);
        proof {
            assert(bytes@.skip(pos as int).take(4) =~= bytes@.subrange(pos as int, pos as int + 4));
            assert(bytes@.skip(pos as int).skip(4) =~= bytes@.skip(pos as int + 4));
        }
        Some((x, pos + 4))
    } else {
        None
    }
}

fn read_words(bytes: &Vec<u8>, pos: usize, k: usize) -> (r: Option<(Vec<u32>, usize)>)
    requires
        pos <= bytes@.len(),
    ensures
        match r {
            Some((v, p2)) => {
                &&& p2 <= bytes@.len()
                &&& v@.len() == k
                &&& parse_words(bytes@.skip(pos as int), k as nat) == Some(
                    (v@, bytes@.skip(p2 as int)),
                )
            },
            None => parse_words(bytes@.skip(pos as int), k as nat) is None,
        },
{
    let ghost pos0 = pos as int;
    let mut acc: Vec<u32> = Vec::new();
    let mut cur: usize = pos;
    let mut j: usize = 0;
    while j < k
        invariant
            j <= k,
            pos0 == pos as int,
            cur <= bytes@.len(),
            acc@.len() == j,
            seq_step(acc@, parse_words(bytes@.skip(cur as int), (k - j) as nat)) == parse_words(
                bytes@.skip(pos0),
                k as nat,
            ),
        decreases k - j,
    {
        let ghost old_acc = acc@;
        let ghost old_cur = cur as int;
        match read_u32(bytes, cur) {
            None => {
                proof {
                    assert(parse_words(bytes@.skip(old_cur), (k - j) as nat) is None);
                }
                return None;
            },
            Some((w, p2)) => {
                acc.push(w);
                proof {
                    let tail = parse_words(bytes@.skip(p2 as int), (k - j - 1) as nat);
                    match tail {
                        Option::Some((s, rest)) => {
                            assert(parse_words(bytes@.skip(old_cur), (k - j) as nat) == Some(
                                (seq![w] + s, rest),
                            ));
                            assert(old_acc + (seq![w] + s) =~= acc@ + s);
                        },
                        Option::None => {
                            assert(parse_words(bytes@.skip(old_cur), (k - j) as nat) is None);
                        },
                    }
                }
                cur = p2;
                j = j + 1;
            },
        }
    }
    proof {
        assert(parse_words(bytes@.skip(cur as int), 0) == Some(
            (Seq::<u32>::empty(), bytes@.skip(cur as int)),
        ));
        assert(acc@ + Seq::<u32>::empty() =~= acc@);
    }
    Some((acc, cur))
}

fn read_i32s(bytes: &Vec<u8>, pos: usize, k: usize) -> (r: Option<(Vec<i32>, usize)>)
    requires
        pos <= bytes@.len(),
    ensures
        match r {
            Some((v, p2)) => {
                &&& p2 <= bytes@.len()
                &&& v@.len() == k
                &&& parse_i32s(bytes@.skip(pos as int), k as nat) == Some(
                    (v@, bytes@.skip(p2 as int)),
                )
            },
            None => parse_i32s(bytes@.skip(pos as int), k as nat) is None,
        },
{
    let ghost pos0 = pos as int;
    let mut acc: Vec<i32> = Vec::new();
    let mut cur: usize = pos;
    let mut j: usize = 0;
    while j < k
        invariant
            j <= k,
            pos0 == pos as int,
            cur <= bytes@.len(),
            acc@.len() == j,
            seq_step(acc@, parse_i32s(bytes@.skip(cur as int), (k - j) as nat)) == parse_i32s(
                bytes@.skip(pos0),
                k as nat,
            ),
        decreases k - j,
    {
        let ghost old_acc = acc@;
        let ghost old_cur = cur as int;
        match read_u32(bytes, cur) {
            None => {
                proof {
                    assert(parse_i32s(bytes@.skip(old_cur), (k - j) as nat) is None);
                }
                return None;
            },
            Some((w, p2)) => {
                let x: i32 = if w < 0x8000_0000 {
                    w as i32
                } else {
                    ((w as i64) - 0x1_0000_0000) as i32
                };
                assert(x == i32_of_u32(w));
                acc.push(x);
                proof {
                    let tail = parse_i32s(bytes@.skip(p2 as int), (k - j - 1) as nat);
                    match tail {
                        Option::Some((s, rest)) => {
                            assert(parse_i32s(bytes@.skip(old_cur), (k - j) as nat) == Some(
                                (seq![i32_of_u32(w)] + s, rest),
                            ));
                            assert(old_acc + (seq![i32_of_u32(w)] + s) =~= acc@ + s);
                        },
                        Option::None => {
                            assert(parse_i32s(bytes@.skip(old_cur), (k - j) as nat) is None);
                        },
                    }
                }
                cur = p2;
                j = j + 1;
            },
        }
    }
    proof {
        assert(parse_i32s(bytes@.skip(cur as int), 0) == Some(
            (Seq::<i32>::empty(), bytes@.skip(cur as int)),
        ));
        assert(acc@ + Seq::<i32>::empty() =~= acc@);
    }
    Some((acc, cur))
}

fn read_byte_row(bytes: &Vec<u8>, pos: usize, cols: usize) -> (r: Option<(Vec<i8>, usize)>)
    requires
        pos <= bytes@.len(),
    ensures
        match r {
            Some((v, p2)) => {
                &&& p2 <= bytes@.len()
                &&& v@.len() == cols
                &&& parse_byte_row(bytes@.skip(pos as int), cols as nat) == Some(
                    (v@, bytes@.skip(p2 as int)),
                )
            },
            None => parse_byte_row(bytes@.skip(pos as int), cols as nat) is None,
        },
{
    if bytes.len() - pos < cols {
        return None;
    }
    proof {
        vstd::std_specs::vec::axiom_spec_len(bytes);
    }
    let mut row: Vec<i8> = Vec::new();
    let mut j: usize = 0;
    while j < cols
        invariant
            j <= cols,
            pos + cols <= bytes@.len(),
            bytes@.len() <= usize::MAX,
            row@.len() == j,
            forall|t: int| 0 <= t < j ==> row@[t] == i8_of_u8(bytes@[pos + t]),
        decreases cols - j,
    {
        let b = bytes[pos + j];
        let x: i8 = if b < 128 {
            b as i8
        } else {
            ((b as i16) - 256) as i8
        };
        assert(x == i8_of_u8(bytes@[pos + j as int]));
        row.push(x);
        j = j + 1;
    }
    proof {
        let sk = bytes@.skip(pos as int);
        assert forall|t: int|
            0 <= t < cols implies sk.take(cols as int).map_values(|x: u8| i8_of_u8(x))[t]
            == row@[t] by {
            assert(sk.take(cols as int)[t] == bytes@[pos + t]);
        }
        assert(sk.take(cols as int).map_values(|x: u8| i8_of_u8(x)) =~= row@);
        assert(sk.skip(cols as int) =~= bytes@.skip(pos + cols as int));
    }
    Some((row, pos + cols))
}

fn read_word_rows(bytes: &Vec<u8>, pos: usize, rows: usize, cols: usize) -> (r: Option<
    (Vec<Vec<u32>>, usize),
>)
    requires
        pos <= bytes@.len(),
    ensures
        match r {
            Some((m, p2)) => {
                &&& p2 <= bytes@.len()
                &&& m@.len() == rows
                &&& parse_word_rows(bytes@.skip(pos as int), rows as nat, cols as nat) == Some(
                    (m@.map_values(|row: Vec<u32>| row@), bytes@.skip(p2 as int)),
                )
            },
            None => parse_word_rows(bytes@.skip(pos as int), rows as nat, cols as nat) is None,
        },
{
    let ghost pos0 = pos as int;
    let mut acc: Vec<Vec<u32>> = Vec::new();
    let mut cur: usize = pos;
    let mut j: usize = 0;
    while j < rows
        invariant
            j <= rows,
            pos0 == pos as int,
            cur <= bytes@.len(),
            acc@.len() == j,
            seq_step(
                acc@.map_values(|row: Vec<u32>| row@),
                parse_word_rows(bytes@.skip(cur as int), (rows - j) as nat, cols as nat),
            ) == parse_word_rows(bytes@.skip(pos0), rows as nat, cols as nat),
        decreases rows - j,
    {
        let ghost old_acc = acc@.map_values(|row: Vec<u32>| row@);
        let ghost old_cur = cur as int;
        match read_words(bytes, cur, cols) {
            None => {
                proof {
                    assert(parse_word_rows(
                        bytes@.skip(old_cur),
                        (rows - j) as nat,
                        cols as nat,
                    ) is None);
                }
                return None;
            },
            Some((v, p2)) => {
                let ghost vv = v@;
                acc.push(v);
                proof {
                    assert(acc@.map_values(|row: Vec<u32>| row@) =~= old_acc.push(vv));
                    let tail = parse_word_rows(
                        bytes@.skip(p2 as int),
                        (rows - j - 1) as nat,
                        cols as nat,
                    );
                    match tail {
                        Option::Some((s, rest)) => {
                            assert(parse_word_rows(
                                bytes@.skip(old_cur),
                                (rows - j) as nat,
                                cols as nat,
                            ) == Some((seq![vv] + s, rest)));
                            assert(old_acc + (seq![vv] + s) =~= old_acc.push(vv) + s);
                        },
                        Option::None => {
                            assert(parse_word_rows(
                                bytes@.skip(old_cur),
                                (rows - j) as nat,
                                cols as nat,
                            ) is None);
                        },
                    }
                }
                cur = p2;
                j = j + 1;
            },
        }
    }
    proof {
        assert(parse_word_rows(bytes@.skip(cur as int), 0, cols as nat) == Some(
            (Seq::<Seq<u32>>::empty(), bytes@.skip(cur as int)),
        ));
        assert(acc@.map_values(|row: Vec<u32>| row@) + Seq::<Seq<u32>>::empty() =~= acc@.map_values(
            |row: Vec<u32>| row@,
        ));
    }
    Some((acc, cur))
}

fn read_byte_rows(bytes: &Vec<u8>, pos: usize, rows: usize, cols: usize) -> (r: Option<
    (Vec<Vec<i8>>, usize),
>)
    requires
        pos <= bytes@.len(),
    ensures
        match r {
            Some((m, p2)) => {
                &&& p2 <= bytes@.len()
                &&& m@.len() == rows
                &&& parse_byte_rows(bytes@.skip(pos as int), rows as nat, cols as nat) == Some(
                    (m@.map_values(|row: Vec<i8>| row@), bytes@.skip(p2 as int)),
                )
            },
            None => parse_byte_rows(bytes@.skip(pos as int), rows as nat, cols as nat) is None,
        },
{
    let ghost pos0 = pos as int;
    let mut acc: Vec<Vec<i8>> = Vec::new();
    let mut cur: usize = pos;
    let mut j: usize = 0;
    while j < rows
        invariant
            j <= rows,
            pos0 == pos as int,
            cur <= bytes@.len(),
            acc@.len() == j,
            seq_step(
                acc@.map_values(|row: Vec<i8>| row@),
                parse_byte_rows(bytes@.skip(cur as int), (rows - j) as nat, cols as nat),
            ) == parse_byte_rows(bytes@.skip(pos0), rows as nat, cols as nat),
        decreases rows - j,
    {
        let ghost old_acc = acc@.map_values(|row: Vec<i8>| row@);
        let ghost old_cur = cur as int;
        match read_byte_row(bytes, cur, cols) {
            None => {
                proof {
                    assert(parse_byte_rows(
                        bytes@.skip(old_cur),
                        (rows - j) as nat,
                        cols as nat,
                    ) is None);
                }
                return None;
            },
            Some((v, p2)) => {
                let ghost vv = v@;
                acc.push(v);
                proof {
                    assert(acc@.map_values(|row: Vec<i8>| row@) =~= old_acc.push(vv));
                    let tail = parse_byte_rows(
                        bytes@.skip(p2 as int),
                        (rows - j - 1) as nat,
                        cols as nat,
                    );
                    match tail {
                        Option::Some((s, rest)) => {
                            assert(parse_byte_rows(
                                bytes@.skip(old_cur),
                                (rows - j) as nat,
                                cols as nat,
                            ) == Some((seq![vv] + s, rest)));
                            assert(old_acc + (seq![vv] + s) =~= old_acc.push(vv) + s);
                        },
                        Option::None => {
                            assert(parse_byte_rows(
                                bytes@.skip(old_cur),
                                (rows - j) as nat,
                                cols as nat,
                            ) is None);
                        },
                    }
                }
                cur = p2;
                j = j + 1;
            },
        }
    }
    proof {
        assert(parse_byte_rows(bytes@.skip(cur as int), 0, cols as nat) == Some(
            (Seq::<Seq<i8>>::empty(), bytes@.skip(cur as int)),
        ));
        assert(acc@.map_values(|row: Vec<i8>| row@) + Seq::<Seq<i8>>::empty() =~= acc@.map_values(
            |row: Vec<i8>| row@,
        ));
    }
    Some((acc, cur))
}

fn read_flayer(bytes: &Vec<u8>, pos: usize) -> (r: Option<(Layer, usize)>)
    requires
        pos <= bytes@.len(),
    ensures
        match r {
            Some((l, p2)) => {
                &&& p2 <= bytes@.len()
                &&& parse_flayer(bytes@.skip(pos as int)) == Some(
                    (flayer_model(l), bytes@.skip(p2 as int)),
                )
            },
            None => parse_flayer(bytes@.skip(pos as int)) is None,
        },
{
    let (rows64, p1) = match read_u64(bytes, pos) {
        None => {
            return None;
        },
        Some(t) => t,
    };
    let (cols64, p2) = match read_u64(bytes, p1) {
        None => {
            return None;
        },
        Some(t) => t,
    };
    if rows64 > usize::MAX as u64 || cols64 > usize::MAX as u64 || (rows64 == 0 && cols64 != 0) {
        return None;
    }
    let rows = rows64 as usize;
    let cols = cols64 as usize;
    let (w, p3) = match read_word_rows(bytes, p2, rows, cols) {
        None => {
            return None;
        },
        Some(t) => t,
    };
    let (bs, p4) = match read_words(bytes, p3, rows) {
        None => {
            return None;
        },
        Some(t) => t,
    };
    let (tag, p5) = match read_u32(bytes, p4) {
        None => {
            return None;
        },
        Some(t) => t,
    };
    let act = match ActivationFunction::from_tag(tag) {
        None => {
            return None;
        },
        Some(a) => a,
    };
    let l = Layer { weights: w, biases: bs, activation: act };
    proof {
        assert(flayer_model(l) =~= FLayerModel {
            weights: w@.map_values(|row: Vec<u32>| row@),
            biases: bs@,
            activation: act,
        });
    }
    Some((l, p5))
}

fn read_qlayer(bytes: &Vec<u8>, pos: usize) -> (r: Option<(QuantizedLayer, usize)>)
    requires
        pos <= bytes@.len(),
    ensures
        match r {
            Some((l, p2)) => {
                &&& p2 <= bytes@.len()
                &&& parse_qlayer(bytes@.skip(pos as int)) == Some(
                    (qlayer_model(l), bytes@.skip(p2 as int)),
                )
            },
            None => parse_qlayer(bytes@.skip(pos as int)) is None,
        },
{
    let (rows64, p1) = match read_u64(bytes, pos) {
        None => {
            return None;
        },
        Some(t) => t,
    };
    let (cols64, p2) = match read_u64(bytes, p1) {
        None => {
            return None;
        },
        Some(t) => t,
    };
    if rows64 > usize::MAX as u64 || cols64 > usize::MAX as u64 || (rows64 == 0 && cols64 != 0) {
        return None;
    }
    let rows = rows64 as usize;
    let cols = cols64 as usize;
    let (w, p3) = match read_byte_rows(bytes, p2, rows, cols) {
        None => {
            return None;
        },
        Some(t) => t,
    };
    let (bs, p4) = match read_i32s(bytes, p3, rows) {
        None => {
            return None;
        },
        Some(t) => t,
    };
    let (tag, p5) = match read_u32(bytes, p4) {
        None => {
            return None;
        },
        Some(t) => t,
    };
    let act = match ActivationFunction::from_tag(tag) {
        None => {
            return None;
        },
        Some(a) => a,
    };
    let (wsb, p6) = match read_u32(bytes, p5) {
        None => {
            return None;
        },
        Some(t) => t,
    };
    let (bsb, p7) = match read_u32(bytes, p6) {
        None => {
            return None;
        },
        Some(t) => t,
    };
    let l = QuantizedLayer {
        weights: w,
        biases: bs,
        activation: act,
        weight_scale_bits: wsb,
        bias_scale_bits: bsb,
    };
    proof {
        assert(qlayer_model(l) =~= QLayerModel {
            weights: w@.map_values(|row: Vec<i8>| row@),
            biases: bs@,
            activation: act,
            weight_scale_bits: wsb,
            bias_scale_bits: bsb,
        });
    }
    Some((l, p7))
}

fn read_flayers(bytes: &Vec<u8>, pos: usize, k: usize) -> (r: Option<(Vec<Layer>, usize)>)
    requires
        pos <= bytes@.len(),
    ensures
        match r {
            Some((v, p2)) => {
                &&& p2 <= bytes@.len()
                &&& v@.len() == k
                &&& parse_flayers(bytes@.skip(pos as int), k as nat) == Some(
                    (v@.map_values(|l: Layer| flayer_model(l)), bytes@.skip(p2 as int)),
                )
            },
            None => parse_flayers(bytes@.skip(pos as int), k as nat) is None,
        },
{
    let ghost pos0 = pos as int;
    let mut acc: Vec<Layer> = Vec::new();
    let mut cur: usize = pos;
    let mut j: usize = 0;
    while j < k
        invariant
            j <= k,
            pos0 == pos as int,
            cur <= bytes@.len(),
            acc@.len() == j,
            seq_step(
                acc@.map_values(|l: Layer| flayer_model(l)),
                parse_flayers(bytes@.skip(cur as int), (k - j) as nat),
            ) == parse_flayers(bytes@.skip(pos0), k as nat),
        decreases k - j,
    {
        let ghost old_acc = acc@.map_values(|l: Layer| flayer_model(l));
        let ghost old_cur = cur as int;
        match read_flayer(bytes, cur) {
            None => {
                proof {
                    assert(parse_flayers(bytes@.skip(old_cur), (k - j) as nat) is None);
                }
                return None;
            },
            Some((l, p2)) => {
                let ghost lm = flayer_model(l);
                acc.push(l);
                proof {
                    assert(acc@.map_values(|x: Layer| flayer_model(x)) =~= old_acc.push(lm));
                    let tail = parse_flayers(bytes@.skip(p2 as int), (k - j - 1) as nat);
                    match tail {
                        Option::Some((s, rest)) => {
                            assert(parse_flayers(bytes@.skip(old_cur), (k - j) as nat) == Some(
                                (seq![lm] + s, rest),
                            ));
                            assert(old_acc + (seq![lm] + s) =~= old_acc.push(lm) + s);
                        },
                        Option::None => {
                            assert(parse_flayers(bytes@.skip(old_cur), (k - j) as nat) is None);
                        },
                    }
                }
                cur = p2;
                j = j + 1;
            },
        }
    }
    proof {
        assert(parse_flayers(bytes@.skip(cur as int), 0) == Some(
            (Seq::<FLayerModel>::empty(), bytes@.skip(cur as int)),
        ));
        assert(acc@.map_values(|l: Layer| flayer_model(l)) + Seq::<FLayerModel>::empty()
            =~= acc@.map_values(|l: Layer| flayer_model(l)));
    }
    Some((acc, cur))
}

fn read_qlayers(bytes: &Vec<u8>, pos: usize, k: usize) -> (r: Option<
    (Vec<QuantizedLayer>, usize),
>)
    requires
        pos <= bytes@.len(),
    ensures
        match r {
            Some((v, p2)) => {
                &&& p2 <= bytes@.len()
                &&& v@.len() == k
                &&& parse_qlayers(bytes@.skip(pos as int), k as nat) == Some(
                    (v@.map_values(|l: QuantizedLayer| qlayer_model(l)), bytes@.skip(p2 as int)),
                )
            },
            None => parse_qlayers(bytes@.skip(pos as int), k as nat) is None,
        },
{
    let ghost pos0 = pos as int;
    let mut acc: Vec<QuantizedLayer> = Vec::new();
    let mut cur: usize = pos;
    let mut j: usize = 0;
    while j < k
        invariant
            j <= k,
            pos0 == pos as int,
            cur <= bytes@.len(),
            acc@.len() == j,
            seq_step(
                acc@.map_values(|l: QuantizedLayer| qlayer_model(l)),
                parse_qlayers(bytes@.skip(cur as int), (k - j) as nat),
            ) == parse_qlayers(bytes@.skip(pos0), k as nat),
        decreases k - j,
    {
        let ghost old_acc = acc@.map_values(|l: QuantizedLayer| qlayer_model(l));
        let ghost old_cur = cur as int;
        match read_qlayer(bytes, cur) {
            None => {
                proof {
                    assert(parse_qlayers(bytes@.skip(old_cur), (k - j) as nat) is None);
                }
                return None;
            },
            Some((l, p2)) => {
                let ghost lm = qlayer_model(l);
                acc.push(l);
                proof {
                    assert(acc@.map_values(|x: QuantizedLayer| qlayer_model(x)) =~= old_acc.push(
                        lm,
                    ));
                    let tail = parse_qlayers(bytes@.skip(p2 as int), (k - j - 1) as nat);
                    match tail {
                        Option::Some((s, rest)) => {
                            assert(parse_qlayers(bytes@.skip(old_cur), (k - j) as nat) == Some(
                                (seq![lm] + s, rest),
                            ));
                            assert(old_acc + (seq![lm] + s) =~= old_acc.push(lm) + s);
                        },
                        Option::None => {
                            assert(parse_qlayers(bytes@.skip(old_cur), (k - j) as nat) is None);
                        },
                    }
                }
                cur = p2;
                j = j + 1;
            },
        }
    }
    proof {
        assert(parse_qlayers(bytes@.skip(cur as int), 0) == Some(
            (Seq::<QLayerModel>::empty(), bytes@.skip(cur as int)),
        ));
        assert(acc@.map_values(|l: QuantizedLayer| qlayer_model(l)) + Seq::<QLayerModel>::empty()
            =~= acc@.map_values(|l: QuantizedLayer| qlayer_model(l)));
    }
    Some((acc, cur))
}

impl NeuralNetwork {
    /// Restores a float network from its byte encoding. Succeeds with
    /// exactly the content that `parse_fnet` gives the bytes, and fails
    /// with a decode error exactly when the bytes are not a float-network
    /// encoding.
    pub fn from_bytes(bytes: &Vec<u8>) -> (r: Result<NeuralNetwork, NetworkError>)
        ensures
            match r {
                Ok(n) => {
                    &&& parse_fnet(bytes@) == Some(fnet_model(n))
                    &&& bytes@ == enc_fnet(fnet_model(n))
                    &&& n.rect()
                },
                Err(e) => {
                    &&& e == NetworkError::Decode
                    &&& parse_fnet(bytes@) is None
                },
            },
    {
        proof {
            assert(bytes@.skip(0) =~= bytes@);
        }
        let (count, p1) = match read_u64(bytes, 0) {
            None => {
                return Err(NetworkError::Decode);
            },
            Some(t) => t,
        };
        if count > usize::MAX as u64 {
            return Err(NetworkError::Decode);
        }
        let (layers, p2) = match read_flayers(bytes, p1, count as usize) {
            None => {
                return Err(NetworkError::Decode);
            },
            Some(t) => t,
        };
        if p2 != bytes.len() {
            proof {
                assert(bytes@.skip(p2 as int).len() > 0);
            }
            return Err(NetworkError::Decode);
        }
        proof {
            assert(bytes@.skip(p2 as int).len() == 0);
        }
        let n = NeuralNetwork { layers };
        proof {
            let ms = fnet_model(n);
            assert(parse_fnet(bytes@) == Some(ms));
            lemma_parse_fnet_sound(bytes@, ms);
            assert forall|i: int| 0 <= i < n.layers@.len() implies flayer_rect(
                #[trigger] n.layers@[i],
            ) by {
                assert(ms[i] == flayer_model(n.layers@[i]));
                assert(flayer_model_wf(ms[i]));
                let l = n.layers@[i];
                assert forall|r2: int| 0 <= r2 < l.weights@.len() implies (
                #[trigger] l.weights@[r2])@.len() == flayer_cols(l) by {
                    assert(ms[i].weights[r2] == l.weights@[r2]@);
                    if l.weights@.len() > 0 {
                        assert(ms[i].weights[0] == l.weights@[0]@);
                    }
                }
            }
        }
        Ok(n)
    }
}

impl QuantizedNeuralNetwork {
    /// Restores a quantized network from its byte encoding, scale-factor
    /// bit patterns included. Succeeds with exactly the content that
    /// `parse_qnet` gives the bytes, and fails with a decode error exactly
    /// when the bytes are not a quantized-network encoding.
    pub fn from_bytes(bytes: &Vec<u8>) -> (r: Result<QuantizedNeuralNetwork, NetworkError>)
        ensures
            match r {
                Ok(n) => {
                    &&& parse_qnet(bytes@) == Some(qnet_model(n))
                    &&& bytes@ == enc_qnet(qnet_model(n))
                    &&& n.rect()
                },
                Err(e) => {
                    &&& e == NetworkError::Decode
                    &&& parse_qnet(bytes@) is None
                },
            },
    {
        proof {
            assert(bytes@.skip(0) =~= bytes@);
        }
        let (count, p1) = match read_u64(bytes, 0) {
            None => {
                return Err(NetworkError::Decode);
            },
            Some(t) => t,
        };
        if count > usize::MAX as u64 {
            return Err(NetworkError::Decode);
        }
        let (layers, p2) = match read_qlayers(bytes, p1, count as usize) {
            None => {
                return Err(NetworkError::Decode);
            },
            Some(t) => t,
        };
        if p2 != bytes.len() {
            proof {
                assert(bytes@.skip(p2 as int).len() > 0);
            }
            return Err(NetworkError::Decode);
        }
        proof {
            assert(bytes@.skip(p2 as int).len() == 0);
        }
        let n = QuantizedNeuralNetwork { layers };
        proof {
            let ms = qnet_model(n);
            assert(parse_qnet(bytes@) == Some(ms));
            lemma_parse_qnet_sound(bytes@, ms);
            assert forall|i: int| 0 <= i < n.layers@.len() implies crate::quantized::qlayer_rect(
                #[trigger] n.layers@[i],
            ) by {
                assert(ms[i] == qlayer_model(n.layers@[i]));
                assert(qlayer_model_wf(ms[i]));
                let l = n.layers@[i];
                assert forall|r2: int| 0 <= r2 < l.weights@.len() implies (
                #[trigger] l.weights@[r2])@.len() == crate::quantized::qlayer_cols(l) by {
                    assert(ms[i].weights[r2] == l.weights@[r2]@);
                    if l.weights@.len() > 0 {
                        assert(ms[i].weights[0] == l.weights@[0]@);
                    }
                }
            }
        }
        Ok(n)
    }
}

// ------------------------------------------------------------------
// Soundness: whatever parses was an encoding. Together with the round
// trip above, the encoders and parsers are exact inverses.
// ------------------------------------------------------------------

pub proof fn lemma_i8_load_round_trip(b: u8)
    ensures
        u8_of_i8(i8_of_u8(b)) == b,
{
}

pub proof fn lemma_i32_load_round_trip(w: u32)
    ensures
        u32_of_i32(i32_of_u32(w)) == w,
{
}

proof fn lemma_parse_u64_sound(b: Seq<u8>, x: u64, r: Seq<u8>)
    requires
        parse_u64(b) == Some((x, r)),
    ensures
        b == enc_u64(x) + r,
{
    lemma_auto_spec_u64_to_from_le_bytes();
    assert(b.take(8).len() == 8);
    assert(enc_u64(x) == b.take(8));
    assert(b =~= b.take(8) + b.skip(8));
}

proof fn lemma_parse_u32_sound(b: Seq<u8>, x: u32, r: Seq<u8>)
    requires
        parse_u32(b) == Some((x, r)),
    ensures
        b == enc_u32(x) + r,
{
    lemma_auto_spec_u32_to_from_le_bytes();
    assert(b.take(4).len() == 4);
    assert(enc_u32(x) == b.take(4));
    assert(b =~= b.take(4) + b.skip(4));
}

proof fn lemma_parse_words_sound(b: Seq<u8>, k: nat, s: Seq<u32>, r: Seq<u8>)
    requires
        parse_words(b, k) == Some((s, r)),
    ensures
        s.len() == k,
        b == enc_words(s) + r,
    decreases k,
{
    if k == 0 {
        assert(b =~= enc_words(s) + r);
    } else {
        match parse_u32(b) {
            Option::None => {
                assert(false);
            },
            Option::Some((w, rest)) => {
                match parse_words(rest, (k - 1) as nat) {
                    Option::None => {
                        assert(false);
                    },
                    Option::Some((s1, r1)) => {
                        assert(s == seq![w] + s1);
                        assert(r == r1);
                        lemma_parse_u32_sound(b, w, rest);
                        lemma_parse_words_sound(rest, (k - 1) as nat, s1, r1);
                        assert(s[0] == w);
                        assert(s.drop_first() =~= s1);
                        assert(enc_words(s) == enc_u32(w) + enc_words(s1));
                        assert(b =~= (enc_u32(w) + enc_words(s1)) + r);
                    },
                }
            },
        }
    }
}

proof fn lemma_parse_i32s_sound(b: Seq<u8>, k: nat, s: Seq<i32>, r: Seq<u8>)
    requires
        parse_i32s(b, k) == Some((s, r)),
    ensures
        s.len() == k,
        b == enc_i32s(s) + r,
    decreases k,
{
    if k == 0 {
        assert(b =~= enc_i32s(s) + r);
    } else {
        match parse_u32(b) {
            Option::None => {
                assert(false);
            },
            Option::Some((w, rest)) => {
                match parse_i32s(rest, (k - 1) as nat) {
                    Option::None => {
                        assert(false);
                    },
                    Option::Some((s1, r1)) => {
                        assert(s == seq![i32_of_u32(w)] + s1);
                        assert(r == r1);
                        lemma_parse_u32_sound(b, w, rest);
                        lemma_parse_i32s_sound(rest, (k - 1) as nat, s1, r1);
                        lemma_i32_load_round_trip(w);
                        assert(s[0] == i32_of_u32(w));
                        assert(s.drop_first() =~= s1);
                        assert(enc_i32s(s) == enc_u32(u32_of_i32(i32_of_u32(w))) + enc_i32s(s1));
                        assert(b =~= (enc_u32(w) + enc_i32s(s1)) + r);
                    },
                }
            },
        }
    }
}

proof fn lemma_parse_byte_row_sound(b: Seq<u8>, cols: nat, s: Seq<i8>, r: Seq<u8>)
    requires
        parse_byte_row(b, cols) == Some((s, r)),
    ensures
        s.len() == cols,
        b == enc_byte_row(s) + r,
{
    assert forall|t: int| 0 <= t < cols implies enc_byte_row(s)[t] == b.take(cols as int)[t] by {
        assert(s[t] == i8_of_u8(b.take(cols as int)[t]));
        lemma_i8_load_round_trip(b.take(cols as int)[t]);
    }
    assert(enc_byte_row(s) =~= b.take(cols as int));
    assert(b =~= b.take(cols as int) + b.skip(cols as int));
}

proof fn lemma_parse_word_rows_sound(b: Seq<u8>, rows: nat, cols: nat, m: Seq<Seq<u32>>, r: Seq<
    u8,
>)
    requires
        parse_word_rows(b, rows, cols) == Some((m, r)),
    ensures
        m.len() == rows,
        forall|i: int| 0 <= i < m.len() ==> (#[trigger] m[i]).len() == cols,
        b == enc_word_rows(m) + r,
    decreases rows,
{
    if rows == 0 {
        assert(b =~= enc_word_rows(m) + r);
    } else {
        match parse_words(b, cols) {
            Option::None => {
                assert(false);
            },
            Option::Some((row, rest)) => {
                match parse_word_rows(rest, (rows - 1) as nat, cols) {
                    Option::None => {
                        assert(false);
                    },
                    Option::Some((m1, r1)) => {
                        assert(m == seq![row] + m1);
                        assert(r == r1);
                        lemma_parse_words_sound(b, cols, row, rest);
                        lemma_parse_word_rows_sound(rest, (rows - 1) as nat, cols, m1, r1);
                        assert(m[0] == row);
                        assert(m.drop_first() =~= m1);
                        assert(enc_word_rows(m) == enc_words(row) + enc_word_rows(m1));
                        assert(b =~= (enc_words(row) + enc_word_rows(m1)) + r);
                    },
                }
            },
        }
    }
}

proof fn lemma_parse_byte_rows_sound(b: Seq<u8>, rows: nat, cols: nat, m: Seq<Seq<i8>>, r: Seq<
    u8,
>)
    requires
        parse_byte_rows(b, rows, cols) == Some((m, r)),
    ensures
        m.len() == rows,
        forall|i: int| 0 <= i < m.len() ==> (#[trigger] m[i]).len() == cols,
        b == enc_byte_rows(m) + r,
    decreases rows,
{
    if rows == 0 {
        assert(b =~= enc_byte_rows(m) + r);
    } else {
        match parse_byte_row(b, cols) {
            Option::None => {
                assert(false);
            },
            Option::Some((row, rest)) => {
                match parse_byte_rows(rest, (rows - 1) as nat, cols) {
                    Option::None => {
                        assert(false);
                    },
                    Option::Some((m1, r1)) => {
                        assert(m == seq![row] + m1);
                        assert(r == r1);
                        lemma_parse_byte_row_sound(b, cols, row, rest);
                        lemma_parse_byte_rows_sound(rest, (rows - 1) as nat, cols, m1, r1);
                        assert(m[0] == row);
                        assert(m.drop_first() =~= m1);
                        assert(enc_byte_rows(m) == enc_byte_row(row) + enc_byte_rows(m1));
                        assert(b =~= (enc_byte_row(row) + enc_byte_rows(m1)) + r);
                    },
                }
            },
        }
    }
}

#[verifier::spinoff_prover]
#[verifier::rlimit(100)]
proof fn lemma_parse_flayer_sound(b: Seq<u8>, l: FLayerModel, r: Seq<u8>)
    requires
        parse_flayer(b) == Some((l, r)),
    ensures
        flayer_model_wf(l),
        b == enc_flayer(l) + r,
{
    match parse_u64(b) {
        Option::None => {
            assert(false);
        },
        Option::Some((rows, b1)) => {
            match parse_u64(b1) {
                Option::None => {
                    assert(false);
                },
                Option::Some((cols, b2)) => {
                    match parse_word_rows(b2, rows as nat, cols as nat) {
                        Option::None => {
                            assert(false);
                        },
                        Option::Some((w, b3)) => {
                            match parse_words(b3, rows as nat) {
                                Option::None => {
                                    assert(false);
                                },
                                Option::Some((bs, b4)) => {
                                    match parse_u32(b4) {
                                        Option::None => {
                                            assert(false);
                                        },
                                        Option::Some((tag, b5)) => {
                                            lemma_parse_u64_sound(b, rows, b1);
                                            lemma_parse_u64_sound(b1, cols, b2);
                                            lemma_parse_word_rows_sound(
                                                b2,
                                                rows as nat,
                                                cols as nat,
                                                w,
                                                b3,
                                            );
                                            lemma_parse_words_sound(b3, rows as nat, bs, b4);
                                            lemma_parse_u32_sound(b4, tag, b5);
                                            let act =
                                                ActivationFunction::from_tag_spec(tag)->Some_0;
                                            assert(l == FLayerModel {
                                                weights: w,
                                                biases: bs,
                                                activation: act,
                                            });
                                            assert(act.tag_spec() == tag);
                                            assert(l.weights.len() == rows as nat);
                                            assert(model_cols(l.weights) == cols as int);
                                            assert((l.weights.len() as u64) == rows);
                                            assert((model_cols(l.weights) as u64) == cols);
                                            assert(flayer_model_wf(l));
                                            assert(b =~= enc_u64(rows) + (enc_u64(cols) + (
                                            enc_word_rows(w) + (enc_words(bs) + (enc_u32(tag)
                                                + b5)))));
                                            assert(enc_flayer(l) + r =~= enc_u64(rows) + (enc_u64(
                                                cols,
                                            ) + (enc_word_rows(w) + (enc_words(bs) + (enc_u32(tag)
                                                + b5)))));
                                        },
                                    }
                                },
                            }
                        },
                    }
                },
            }
        },
    }
}

#[verifier::spinoff_prover]
#[verifier::rlimit(100)]
proof fn lemma_parse_qlayer_sound(b: Seq<u8>, l: QLayerModel, r: Seq<u8>)
    requires
        parse_qlayer(b) == Some((l, r)),
    ensures
        qlayer_model_wf(l),
        b == enc_qlayer(l) + r,
{
    match parse_u64(b) {
        Option::None => {
            assert(false);
        },
        Option::Some((rows, b1)) => {
            match parse_u64(b1) {
                Option::None => {
                    assert(false);
                },
                Option::Some((cols, b2)) => {
                    match parse_byte_rows(b2, rows as nat, cols as nat) {
                        Option::None => {
                            assert(false);
                        },
                        Option::Some((w, b3)) => {
                            match parse_i32s(b3, rows as nat) {
                                Option::None => {
                                    assert(false);
                                },
                                Option::Some((bs, b4)) => {
                                    match parse_u32(b4) {
                                        Option::None => {
                                            assert(false);
                                        },
                                        Option::Some((tag, b5)) => {
                                            match parse_u32(b5) {
                                                Option::None => {
                                                    assert(false);
                                                },
                                                Option::Some((wsb, b6)) => {
                                                    match parse_u32(b6) {
                                                        Option::None => {
                                                            assert(false);
                                                        },
                                                        Option::Some((bsb, b7)) => {
                                                            lemma_parse_u64_sound(b, rows, b1);
                                                            lemma_parse_u64_sound(b1, cols, b2);
                                                            lemma_parse_byte_rows_sound(
                                                                b2,
                                                                rows as nat,
                                                                cols as nat,
                                                                w,
                                                                b3,
                                                            );
                                                            lemma_parse_i32s_sound(
                                                                b3,
                                                                rows as nat,
                                                                bs,
                                                                b4,
                                                            );
                                                            lemma_parse_u32_sound(b4, tag, b5);
                                                            lemma_parse_u32_sound(b5, wsb, b6);
                                                            lemma_parse_u32_sound(b6, bsb, b7);
                                                            let act =
                                                                ActivationFunction::from_tag_spec(
                                                                tag,
                                                            )->Some_0;
                                                            assert(l == QLayerModel {
                                                                weights: w,
                                                                biases: bs,
                                                                activation: act,
                                                                weight_scale_bits: wsb,
                                                                bias_scale_bits: bsb,
                                                            });
                                                            assert(act.tag_spec() == tag);
                                                            assert(l.weights.len() == rows as nat);
                                                            assert(model_cols(l.weights)
                                                                == cols as int);
                                                            assert((l.weights.len() as u64)
                                                                == rows);
                                                            assert((model_cols(l.weights) as u64)
                                                                == cols);
                                                            assert(qlayer_model_wf(l));
                                                            assert(b =~= enc_u64(rows) + (enc_u64(
                                                                cols,
                                                            ) + (enc_byte_rows(w) + (enc_i32s(bs)
                                                                + (enc_u32(tag) + (enc_u32(wsb) + (
                                                            enc_u32(bsb) + b7)))))));
                                                            assert(enc_qlayer(l) + r =~= enc_u64(
                                                                rows,
                                                            ) + (enc_u64(cols) + (enc_byte_rows(w)
                                                                + (enc_i32s(bs) + (enc_u32(tag) + (
                                                            enc_u32(wsb) + (enc_u32(bsb)
                                                                + b7)))))));
                                                        },
                                                    }
                                                },
                                            }
                                        },
                                    }
                                },
                            }
                        },
                    }
                },
            }
        },
    }
}

proof fn lemma_parse_flayers_sound(b: Seq<u8>, k: nat, ms: Seq<FLayerModel>, r: Seq<u8>)
    requires
        parse_flayers(b, k) == Some((ms, r)),
    ensures
        ms.len() == k,
        forall|i: int| 0 <= i < ms.len() ==> flayer_model_wf(#[trigger] ms[i]),
        b == enc_flayers(ms) + r,
    decreases k,
{
    if k == 0 {
        assert(b =~= enc_flayers(ms) + r);
    } else {
        match parse_flayer(b) {
            Option::None => {
                assert(false);
            },
            Option::Some((l, rest)) => {
                match parse_flayers(rest, (k - 1) as nat) {
                    Option::None => {
                        assert(false);
                    },
                    Option::Some((ms1, r1)) => {
                        assert(ms == seq![l] + ms1);
                        assert(r == r1);
                        lemma_parse_flayer_sound(b, l, rest);
                        lemma_parse_flayers_sound(rest, (k - 1) as nat, ms1, r1);
                        assert(ms[0] == l);
                        assert(ms.drop_first() =~= ms1);
                        assert(enc_flayers(ms) == enc_flayer(l) + enc_flayers(ms1));
                        assert(b =~= (enc_flayer(l) + enc_flayers(ms1)) + r);
                    },
                }
            },
        }
    }
}

proof fn lemma_parse_qlayers_sound(b: Seq<u8>, k: nat, ms: Seq<QLayerModel>, r: Seq<u8>)
    requires
        parse_qlayers(b, k) == Some((ms, r)),
    ensures
        ms.len() == k,
        forall|i: int| 0 <= i < ms.len() ==> qlayer_model_wf(#[trigger] ms[i]),
        b == enc_qlayers(ms) + r,
    decreases k,
{
    if k == 0 {
        assert(b =~= enc_qlayers(ms) + r);
    } else {
        match parse_qlayer(b) {
            Option::None => {
                assert(false);
            },
            Option::Some((l, rest)) => {
                match parse_qlayers(rest, (k - 1) as nat) {
                    Option::None => {
                        assert(false);
                    },
                    Option::Some((ms1, r1)) => {
                        assert(ms == seq![l] + ms1);
                        assert(r == r1);
                        lemma_parse_qlayer_sound(b, l, rest);
                        lemma_parse_qlayers_sound(rest, (k - 1) as nat, ms1, r1);
                        assert(ms[0] == l);
                        assert(ms.drop_first() =~= ms1);
                        assert(enc_qlayers(ms) == enc_qlayer(l) + enc_qlayers(ms1));
                        assert(b =~= (enc_qlayer(l) + enc_qlayers(ms1)) + r);
                    },
                }
            },
        }
    }
}

/// Whatever parses as a float network was the encoding of exactly that
/// content: parsing is the inverse of encoding in both directions.
pub proof fn lemma_parse_fnet_sound(b: Seq<u8>, ms: Seq<FLayerModel>)
    requires
        parse_fnet(b) == Some(ms),
    ensures
        forall|i: int| 0 <= i < ms.len() ==> flayer_model_wf(#[trigger] ms[i]),
        b == enc_fnet(ms),
{
    match parse_u64(b) {
        Option::None => {
            assert(false);
        },
        Option::Some((count, b1)) => {
            match parse_flayers(b1, count as nat) {
                Option::None => {
                    assert(false);
                },
                Option::Some((ms1, rest)) => {
                    assert(ms == ms1);
                    assert(rest.len() == 0);
                    lemma_parse_u64_sound(b, count, b1);
                    lemma_parse_flayers_sound(b1, count as nat, ms1, rest);
                    assert((ms.len() as u64) == count);
                    assert(enc_flayers(ms) + rest =~= enc_flayers(ms));
                    assert(b =~= enc_u64(count) + enc_flayers(ms));
                },
            }
        },
    }
}

/// Whatever parses as a quantized network was the encoding of exactly that
/// content.
pub proof fn lemma_parse_qnet_sound(b: Seq<u8>, ms: Seq<QLayerModel>)
    requires
        parse_qnet(b) == Some(ms),
    ensures
        forall|i: int| 0 <= i < ms.len() ==> qlayer_model_wf(#[trigger] ms[i]),
        b == enc_qnet(ms),
{
    match parse_u64(b) {
        Option::None => {
            assert(false);
        },
        Option::Some((count, b1)) => {
            match parse_qlayers(b1, count as nat) {
                Option::None => {
                    assert(false);
                },
                Option::Some((ms1, rest)) => {
                    assert(ms == ms1);
                    assert(rest.len() == 0);
                    lemma_parse_u64_sound(b, count, b1);
                    lemma_parse_qlayers_sound(b1, count as nat, ms1, rest);
                    assert((ms.len() as u64) == count);
                    assert(enc_qlayers(ms) + rest =~= enc_qlayers(ms));
                    assert(b =~= enc_u64(count) + enc_qlayers(ms));
                },
            }
        },
    }
}

/// Save-then-load of a float network reproduces its parameters bit for bit:
/// the byte encoding of any rectangular network parses back to exactly the
/// network's own content.
pub proof fn lemma_float_network_round_trip(n: NeuralNetwork)
    requires
        n.rect(),
    ensures
        parse_fnet(enc_fnet(fnet_model(n))) == Some(fnet_model(n)),
{
    vstd::std_specs::vec::axiom_spec_len(&n.layers);
    let ms = fnet_model(n);
    assert forall|i: int| 0 <= i < ms.len() implies flayer_model_wf(#[trigger] ms[i]) by {
        let l = n.layers@[i];
        assert(flayer_rect(l));
        assert(ms[i] == flayer_model(l));
        vstd::std_specs::vec::axiom_spec_len(&l.weights);
        vstd::std_specs::vec::axiom_spec_len(&l.biases);
        if l.weights@.len() > 0 {
            vstd::std_specs::vec::axiom_spec_len(&l.weights@[0]);
        }
        assert(ms[i].weights.len() == l.weights@.len());
        assert forall|r: int| 0 <= r < ms[i].weights.len() implies (#[trigger] ms[i].weights[r]).len()
            == model_cols(ms[i].weights) by {
            assert(ms[i].weights[r] == l.weights@[r]@);
            assert(l.weights@[r]@.len() == flayer_cols(l));
        }
    }
    lemma_parse_fnet_enc(ms);
}

/// Save-then-load of a quantized network reproduces its parameters bit for
/// bit, the scale-factor bit patterns included.
pub proof fn lemma_quantized_network_round_trip(n: QuantizedNeuralNetwork)
    requires
        n.rect(),
    ensures
        parse_qnet(enc_qnet(qnet_model(n))) == Some(qnet_model(n)),
{
    vstd::std_specs::vec::axiom_spec_len(&n.layers);
    let ms = qnet_model(n);
    assert forall|i: int| 0 <= i < ms.len() implies qlayer_model_wf(#[trigger] ms[i]) by {
        let l = n.layers@[i];
        assert(crate::quantized::qlayer_rect(l));
        assert(ms[i] == qlayer_model(l));
        vstd::std_specs::vec::axiom_spec_len(&l.weights);
        vstd::std_specs::vec::axiom_spec_len(&l.biases);
        if l.weights@.len() > 0 {
            vstd::std_specs::vec::axiom_spec_len(&l.weights@[0]);
        }
        assert(ms[i].weights.len() == l.weights@.len());
        assert forall|r: int| 0 <= r < ms[i].weights.len() implies (#[trigger] ms[i].weights[r]).len()
            == model_cols(ms[i].weights) by {
            assert(ms[i].weights[r] == l.weights@[r]@);
            assert(l.weights@[r]@.len() == crate::quantized::qlayer_cols(l));
        }
    }
    lemma_parse_qnet_enc(ms);
}

} // verus!
