//! The three key-length estimators behind one interface.
use vstd::prelude::*;
use crate::error::CryptError;
use crate::frequency::MAX_CIPHER_LEN;
use crate::friedman::{freidman_1, freidman_2, friedman_estimate, friedman_range_ok, is_friedman_choice};
use crate::kasiski::{is_kasiski_choice, kasiski, kasiski_range_ok};
use crate::symbols::is_symbols;

verus! {

/// A key-length estimator.
#[derive(Debug, Clone, Copy, PartialEq, Eq, Structural)]
pub enum KeyLengthEstimator {
    /// Repeated-substring distances.
    Kasiski,
    /// Mean coset coincidence, searched over the range.
    FriedmanA,
    /// Closed form from the whole text's coincidence; ignores the range.
    FriedmanB,
}

/// `r` is what `estimator` reports for `c` over `[lo, hi)`.
pub open spec fn estimate_spec(estimator: KeyLengthEstimator, c: Seq<u8>, lo: int, hi: int, r: Result<usize, CryptError>) -> bool {
    match estimator {
        KeyLengthEstimator::Kasiski => {
            &&& (r is Ok <==> kasiski_range_ok(c.len() as int, lo, hi))
            &&& (r matches Ok(k) ==> is_kasiski_choice(c, lo, hi, k as int))
        },
        KeyLengthEstimator::FriedmanA => {
            &&& (r is Ok <==> friedman_range_ok(c.len() as int, lo, hi))
            &&& (r matches Ok(k) ==> is_friedman_choice(c, lo, hi, k as int))
        },
        KeyLengthEstimator::FriedmanB => {
            &&& (r is Ok <==> c.len() >= 2)
            &&& (r matches Ok(k) ==> k == friedman_estimate(c))
        },
    }
}

impl KeyLengthEstimator {
    /// Estimates the key length of `cipher` over `[min_keylength, max_keylength)`.
    pub fn estimate(&self, cipher: &Vec<u8>, min_keylength: usize, max_keylength: usize) -> (r: Result<usize, CryptError>)
        requires
            cipher@.len() <= MAX_CIPHER_LEN,
            is_symbols(cipher@),
        ensures
            estimate_spec(*self, cipher@, min_keylength as int, max_keylength as int, r),
            r matches Err(e) ==> e == CryptError::DegenerateInput,
    {
        match self {
            KeyLengthEstimator::Kasiski => kasiski(cipher, min_keylength, max_keylength),
            KeyLengthEstimator::FriedmanA => freidman_1(cipher, min_keylength, max_keylength),
            KeyLengthEstimator::FriedmanB => freidman_2(cipher),
        }
    }
}

} // verus!
