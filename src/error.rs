use vstd::prelude::*;

verus! {

/// Why an operation on hashes could not produce a result.
#[derive(Debug, Clone, Copy, PartialEq, Eq, Structural)]
pub enum HashError {
    /// Two bit-bearing values have different flattened bit counts.
    LengthMismatch { expected: usize, actual: usize },
    /// An aggregate comparison was asked of an image hash with no orientations.
    EmptyOperand,
    /// A character outside the hex alphabet, or an unsupported version field.
    InvalidEncoding,
}

} // verus!
