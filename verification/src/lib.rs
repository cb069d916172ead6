//! A feed-forward neural-network engine: network representation, integer-only
//! inference over quantized networks, persistence of both the float and the
//! quantized network forms as a verified byte format, dataset shuffling and
//! splitting, and export of a quantized network as a plain numeric
//! description for an embedded consumer.
//!
//! Floating-point arithmetic (training, float inference, the quantization
//! arithmetic itself) lives outside this crate; here float parameters are
//! carried as their 32-bit patterns, which is all that the verified logic
//! (shape handling, persistence, integer inference) reads.

pub mod activation;
pub mod codec;
pub mod dataset;
pub mod error;
pub mod network;
pub mod quantized;

pub use activation::ActivationFunction;
pub use dataset::Class;
pub use dataset::merge_and_shuffle_datasets;
pub use dataset::pick_test_data;
pub use error::NetworkError;
pub use network::Layer;
pub use network::NeuralNetwork;
pub use network::layer_dimensions;
pub use network::should_report;
pub use quantized::QuantizedLayer;
pub use quantized::QuantizedNeuralNetwork;
pub use quantized::RaySocQuantizedFormat;
pub use quantized::argmax_last;
pub use quantized::select_weight_scale_bits;
