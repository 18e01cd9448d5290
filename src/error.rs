//! Errors reported by the analyses.
use vstd::prelude::*;

verus! {

/// Why an input was rejected.
#[derive(Debug, Clone, Copy, PartialEq, Eq, Structural)]
pub enum CryptError {
    /// A character outside the expected letter range was given as ciphertext.
    InvalidAlphabetSymbol,
    /// The ciphertext is too short for the requested key lengths, or the
    /// requested range of key lengths is empty or starts at zero.
    DegenerateInput,
}

} // verus!
