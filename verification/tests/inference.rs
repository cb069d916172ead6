use ray_ml::{ActivationFunction, Class, NetworkError, QuantizedLayer, QuantizedNeuralNetwork};
use ray_ml::{layer_dimensions, should_report};

fn linear_layer(weights: Vec<Vec<i8>>, biases: Vec<i32>) -> QuantizedLayer {
    QuantizedLayer {
        weights,
        biases,
        activation: ActivationFunction::Linear,
        weight_scale_bits: 0,
        bias_scale_bits: 0,
    }
}

#[test]
fn class_label_round_trip() {
    assert_eq!(Class::from_i8(0), Class::Normal);
    assert_eq!(Class::from_i8(1), Class::Faint);
    assert_eq!(Class::from_i8(2), Class::Seizure);
    assert_eq!(Class::from_i8(0).to_usize(), 0);
    assert_eq!(Class::from_i8(1).to_usize(), 1);
    assert_eq!(Class::from_i8(2).to_usize(), 2);
}

#[test]
fn feedforward_single_linear_layer() {
    let net = QuantizedNeuralNetwork {
        layers: vec![linear_layer(vec![vec![2]], vec![3])],
    };
    assert!(net.validate_for_inference(1));
    let out = net.feedforward(&vec![5]);
    assert_eq!(out, vec![13]);
}

#[test]
fn feedforward_linear_clamps_both_ways() {
    let net = QuantizedNeuralNetwork {
        layers: vec![linear_layer(vec![vec![100], vec![-100]], vec![0, 0])],
    };
    assert!(net.validate_for_inference(1));
    let out = net.feedforward(&vec![100]);
    assert_eq!(out, vec![127, -128]);
}

#[test]
fn feedforward_relu_clamps_to_zero_and_top() {
    let net = QuantizedNeuralNetwork {
        layers: vec![QuantizedLayer {
            weights: vec![vec![1], vec![1], vec![1]],
            biases: vec![-200, -50, 300],
            activation: ActivationFunction::ReLU,
            weight_scale_bits: 0,
            bias_scale_bits: 0,
        }],
    };
    assert!(net.validate_for_inference(1));
    let out = net.feedforward(&vec![100]);
    // row accumulators are -100, 50 and 400
    assert_eq!(out, vec![0, 50, 127]);
}

#[test]
fn feedforward_sigmoid_table_values() {
    // One sigmoid row per probe value; the weights are zero, so each row's
    // accumulator is exactly its bias.
    let net = QuantizedNeuralNetwork {
        layers: vec![QuantizedLayer {
            weights: vec![vec![0], vec![0], vec![0], vec![0], vec![0]],
            biases: vec![0, -1, 128, 2000, -2000],
            activation: ActivationFunction::Sigmoid,
            weight_scale_bits: 0,
            bias_scale_bits: 0,
        }],
    };
    assert!(net.validate_for_inference(1));
    let out = net.feedforward(&vec![0]);
    // floor(0/128)=0 -> entry 8; floor(-1/128)=-1 -> entry 7;
    // floor(128/128)=1 -> entry 9; 2000>>7 clamps to 8 -> entry 16;
    // -2000>>7 clamps to -8 -> entry 0.
    assert_eq!(out, vec![103, 81, 122, 127, 0]);
}

#[test]
fn feedforward_two_layer_composition() {
    // First layer: Linear, turns [a, b] into [a + b, a - b].
    // Second layer: Linear, turns [x, y] into [2x + y].
    let net = QuantizedNeuralNetwork {
        layers: vec![
            linear_layer(vec![vec![1, 1], vec![1, -1]], vec![0, 0]),
            linear_layer(vec![vec![2, 1]], vec![0]),
        ],
    };
    assert!(net.validate_for_inference(2));
    let out = net.feedforward(&vec![10, 3]);
    // [13, 7] then 2*13 + 7 = 33
    assert_eq!(out, vec![33]);
}

#[test]
fn feedforward_output_length_matches_last_layer_width() {
    let net = QuantizedNeuralNetwork {
        layers: vec![
            linear_layer(vec![vec![1, 0], vec![0, 1], vec![1, 1], vec![1, -1]], vec![0; 4]),
            linear_layer(vec![vec![1, 1, 1, 1]], vec![0]),
        ],
    };
    assert!(net.validate_for_inference(2));
    let out = net.feedforward(&vec![4, 7]);
    assert_eq!(out.len(), 1);
    let mid = QuantizedNeuralNetwork {
        layers: vec![linear_layer(vec![vec![1, 0], vec![0, 1], vec![1, 1], vec![1, -1]], vec![0; 4])],
    };
    assert_eq!(mid.feedforward(&vec![4, 7]).len(), 4);
}

#[test]
fn validate_rejects_bad_shapes() {
    // No layers at all.
    let empty = QuantizedNeuralNetwork { layers: vec![] };
    assert!(!empty.validate_for_inference(0));

    // Input length differs from the first layer's width.
    let net = QuantizedNeuralNetwork {
        layers: vec![linear_layer(vec![vec![1, 2]], vec![0])],
    };
    assert!(!net.validate_for_inference(1));
    assert!(net.validate_for_inference(2));

    // A ragged weight matrix.
    let ragged = QuantizedNeuralNetwork {
        layers: vec![linear_layer(vec![vec![1, 2], vec![3]], vec![0, 0])],
    };
    assert!(!ragged.validate_for_inference(2));

    // Bias count differs from the row count.
    let lop = QuantizedNeuralNetwork {
        layers: vec![linear_layer(vec![vec![1]], vec![0, 0])],
    };
    assert!(!lop.validate_for_inference(1));

    // Mismatched consecutive layers.
    let chain = QuantizedNeuralNetwork {
        layers: vec![
            linear_layer(vec![vec![1], vec![1]], vec![0, 0]),
            linear_layer(vec![vec![1, 1, 1]], vec![0]),
        ],
    };
    assert!(!chain.validate_for_inference(1));

    // A bias so large that the accumulator could leave the 32-bit range.
    let hot = QuantizedNeuralNetwork {
        layers: vec![linear_layer(vec![vec![1]], vec![i32::MAX])],
    };
    assert!(!hot.validate_for_inference(1));
}

#[test]
fn export_describes_network() {
    let net = QuantizedNeuralNetwork {
        layers: vec![
            linear_layer(vec![vec![1, -2], vec![3, 4]], vec![5, -6]),
            linear_layer(vec![vec![-7, 8]], vec![9]),
        ],
    };
    let desc = net.export_raysoc_network().unwrap();
    assert_eq!(desc.layers, vec![2, 2, 1]);
    assert_eq!(desc.weights, vec![vec![vec![1, -2], vec![3, 4]], vec![vec![-7, 8]]]);
    assert_eq!(desc.biases, vec![vec![5, -6], vec![9]]);
}

#[test]
fn export_fails_on_empty_network() {
    let net = QuantizedNeuralNetwork { layers: vec![] };
    assert_eq!(net.export_raysoc_network().unwrap_err(), NetworkError::Configuration);
}

#[test]
fn layer_dimensions_accepts_valid_configuration() {
    let dims = layer_dimensions(&vec![60, 30, 15, 3], 3).unwrap();
    assert_eq!(dims, vec![(60, 30), (30, 15), (15, 3)]);
}

#[test]
fn layer_dimensions_rejects_bad_configurations() {
    assert_eq!(layer_dimensions(&vec![5], 0).unwrap_err(), NetworkError::Configuration);
    assert_eq!(layer_dimensions(&vec![], 0).unwrap_err(), NetworkError::Configuration);
    assert_eq!(layer_dimensions(&vec![4, 2], 2).unwrap_err(), NetworkError::Configuration);
}

#[test]
fn argmax_last_picks_greatest_and_breaks_ties_late() {
    assert_eq!(ray_ml::argmax_last(&vec![]), None);
    assert_eq!(ray_ml::argmax_last(&vec![7]), Some(0));
    assert_eq!(ray_ml::argmax_last(&vec![3, -5, 9, 2]), Some(2));
    assert_eq!(ray_ml::argmax_last(&vec![9, 1, 9, 2]), Some(2));
    assert_eq!(ray_ml::argmax_last(&vec![-3, -1, -2]), Some(1));
}

#[test]
fn zero_weight_layer_gets_unit_scale() {
    let max: f32 = 0.0;
    let raw = max / 127.0;
    let bits = ray_ml::select_weight_scale_bits(max.to_bits(), raw.to_bits());
    assert_eq!(f32::from_bits(bits), 1.0);
    // The negative zero pattern counts as zero too.
    let bits2 = ray_ml::select_weight_scale_bits((-0.0f32).to_bits(), raw.to_bits());
    assert_eq!(f32::from_bits(bits2), 1.0);
}

#[test]
fn tiny_weights_get_the_scale_floor_exactly() {
    let max: f32 = 1e-5;
    let raw = max / 127.0;
    assert!(raw < 1e-6);
    let bits = ray_ml::select_weight_scale_bits(max.to_bits(), raw.to_bits());
    assert_eq!(bits, (1e-6f32).to_bits());
    assert_eq!(f32::from_bits(bits), 1e-6);
}

#[test]
fn ordinary_weights_keep_their_computed_scale() {
    let max: f32 = 2.54;
    let raw = max / 127.0;
    let bits = ray_ml::select_weight_scale_bits(max.to_bits(), raw.to_bits());
    assert_eq!(bits, raw.to_bits());
}

#[test]
fn report_cadence() {
    assert!(should_report(0, 10));
    assert!(!should_report(1, 10));
    assert!(!should_report(4, 10));
    assert!(should_report(5, 10));
    assert!(!should_report(8, 10));
    assert!(should_report(9, 10));
    assert!(should_report(10, 10000));
}
