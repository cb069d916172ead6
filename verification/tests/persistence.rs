use ray_ml::{ActivationFunction, Layer, NetworkError, NeuralNetwork};
use ray_ml::{QuantizedLayer, QuantizedNeuralNetwork};

fn float_net() -> NeuralNetwork {
    NeuralNetwork {
        layers: vec![
            Layer {
                weights: vec![
                    vec![(0.5f32).to_bits(), (-1.25f32).to_bits()],
                    vec![(3.0f32).to_bits(), (0.0f32).to_bits()],
                ],
                biases: vec![(0.1f32).to_bits(), (-0.1f32).to_bits()],
                activation: ActivationFunction::Sigmoid,
            },
            Layer {
                weights: vec![vec![(2.0f32).to_bits(), (-2.0f32).to_bits()]],
                biases: vec![(1e-6f32).to_bits()],
                activation: ActivationFunction::Linear,
            },
        ],
    }
}

fn quant_net() -> QuantizedNeuralNetwork {
    QuantizedNeuralNetwork {
        layers: vec![
            QuantizedLayer {
                weights: vec![vec![1, -2], vec![127, -128]],
                biases: vec![100, -100],
                activation: ActivationFunction::ReLU,
                weight_scale_bits: (1e-6f32).to_bits(),
                bias_scale_bits: (1e-6f32).to_bits(),
            },
            QuantizedLayer {
                weights: vec![vec![5, 6]],
                biases: vec![i32::MIN],
                activation: ActivationFunction::Sigmoid,
                weight_scale_bits: (0.25f32).to_bits(),
                bias_scale_bits: (0.25f32).to_bits(),
            },
        ],
    }
}

#[test]
fn float_network_save_load_is_bit_identical() {
    let net = float_net();
    let bytes = net.to_bytes();
    let back = NeuralNetwork::from_bytes(&bytes).unwrap();
    assert_eq!(back.layers.len(), net.layers.len());
    for (a, b) in net.layers.iter().zip(back.layers.iter()) {
        assert_eq!(a.weights, b.weights);
        assert_eq!(a.biases, b.biases);
        assert_eq!(a.activation, b.activation);
    }
}

#[test]
fn quantized_network_save_load_is_bit_identical() {
    let net = quant_net();
    let bytes = net.to_bytes();
    let back = QuantizedNeuralNetwork::from_bytes(&bytes).unwrap();
    assert_eq!(back.layers.len(), net.layers.len());
    for (a, b) in net.layers.iter().zip(back.layers.iter()) {
        assert_eq!(a.weights, b.weights);
        assert_eq!(a.biases, b.biases);
        assert_eq!(a.activation, b.activation);
        assert_eq!(a.weight_scale_bits, b.weight_scale_bits);
        assert_eq!(a.bias_scale_bits, b.bias_scale_bits);
    }
}

#[test]
fn float_encoding_has_documented_length() {
    // One 1-by-1 layer: 8 (count) + 8 + 8 (shape) + 4 (weight) + 4 (bias)
    // + 4 (tag) bytes.
    let net = NeuralNetwork {
        layers: vec![Layer {
            weights: vec![vec![(1.0f32).to_bits()]],
            biases: vec![(0.0f32).to_bits()],
            activation: ActivationFunction::ReLU,
        }],
    };
    assert_eq!(net.to_bytes().len(), 36);
}

#[test]
fn quantized_encoding_layout_is_little_endian() {
    let net = QuantizedNeuralNetwork {
        layers: vec![QuantizedLayer {
            weights: vec![vec![-1]],
            biases: vec![-2],
            activation: ActivationFunction::Sigmoid,
            weight_scale_bits: (1.0f32).to_bits(),
            bias_scale_bits: (1.0f32).to_bits(),
        }],
    };
    let expected: Vec<u8> = [
        1u64.to_le_bytes().to_vec(),               // layer count
        1u64.to_le_bytes().to_vec(),               // rows
        1u64.to_le_bytes().to_vec(),               // cols
        vec![0xFF],                                // the weight -1
        (-2i32).to_le_bytes().to_vec(),            // the bias
        1u32.to_le_bytes().to_vec(),               // the sigmoid tag
        (1.0f32).to_bits().to_le_bytes().to_vec(), // weight scale
        (1.0f32).to_bits().to_le_bytes().to_vec(), // bias scale
    ]
    .concat();
    assert_eq!(net.to_bytes(), expected);
}

#[test]
fn truncated_bytes_fail_to_decode() {
    let net = float_net();
    let mut bytes = net.to_bytes();
    bytes.pop();
    assert_eq!(NeuralNetwork::from_bytes(&bytes).unwrap_err(), NetworkError::Decode);
    assert_eq!(NeuralNetwork::from_bytes(&vec![]).unwrap_err(), NetworkError::Decode);
}

#[test]
fn trailing_bytes_fail_to_decode() {
    let net = quant_net();
    let mut bytes = net.to_bytes();
    bytes.push(0);
    assert_eq!(QuantizedNeuralNetwork::from_bytes(&bytes).unwrap_err(), NetworkError::Decode);
}

#[test]
fn bad_activation_tag_fails_to_decode() {
    let net = NeuralNetwork {
        layers: vec![Layer {
            weights: vec![vec![(1.0f32).to_bits()]],
            biases: vec![(0.0f32).to_bits()],
            activation: ActivationFunction::Linear,
        }],
    };
    let mut bytes = net.to_bytes();
    // The activation tag is the last 32-bit word of the single layer.
    let n = bytes.len();
    bytes[n - 4] = 9;
    assert_eq!(NeuralNetwork::from_bytes(&bytes).unwrap_err(), NetworkError::Decode);
}

#[test]
fn decoded_network_feeds_forward_like_the_original() {
    let net = QuantizedNeuralNetwork {
        layers: vec![QuantizedLayer {
            weights: vec![vec![2, -1], vec![0, 4]],
            biases: vec![1, -3],
            activation: ActivationFunction::Linear,
            weight_scale_bits: (0.5f32).to_bits(),
            bias_scale_bits: (0.5f32).to_bits(),
        }],
    };
    let back = QuantizedNeuralNetwork::from_bytes(&net.to_bytes()).unwrap();
    assert!(back.validate_for_inference(2));
    let input = vec![10, 20];
    assert_eq!(back.feedforward(&input), net.feedforward(&input));
    assert_eq!(back.feedforward(&input), vec![1, 77]);
}
