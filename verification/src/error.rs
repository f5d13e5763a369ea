use vstd::prelude::*;

verus! {

/// `std::io::Error`, carried opaquely by `XimError::Io`.
#[verifier::external_type_specification]
#[verifier::external_body]
pub struct ExIoError(std::io::Error);

/// Errors of the XIM engine.
#[derive(Debug)]
pub enum XimError {
    /// An I/O failure reported by the host.
    Io(std::io::Error),
    /// A graph could not be encoded or decoded.
    Serialization(String),
    /// A value could not be quantized.
    Quantization(String),
    /// An instruction could not be executed (for example an arithmetic
    /// overflow in an optimizer step, or a step that needs the host).
    Execution(String),
    /// A graph or a pipeline is malformed.
    InvalidGraph(String),
    /// An instruction addresses memory outside the buffers it names.
    Memory(String),
    /// A buffer does not have the expected length.
    ShapeMismatch { expected: usize, found: usize },
    /// Any other failure.
    Other(String),
}

} // verus!
