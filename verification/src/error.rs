use vstd::prelude::*;

verus! {

/// The error kinds that the engine surfaces to callers.
///
/// File-system failures are reported by the surrounding I/O layer with its
/// own error type; the engine itself only ever rejects an invalid
/// configuration or a byte stream that does not match the model schema.
#[derive(Clone, Copy, Debug, PartialEq, Eq, Structural)]
pub enum NetworkError {
    /// Invalid layer or activation counts at construction, or an attempt to
    /// export a network with no layers.
    Configuration,
    /// Stored bytes do not match the expected model schema.
    Decode,
}

} // verus!
