//! Key recovery for a chosen key length, and the full analysis of a ciphertext.
use vstd::prelude::*;
use crate::error::CryptError;
use crate::frequency::{is_best_shift, LetterFreq, MAX_CIPHER_LEN};
use crate::friedman::{
    freidman_1, freidman_2, friedman_estimate, friedman_range_ok, is_friedman_choice,
};
use crate::histogram::{coset, coset_histogram, histogram, lemma_histogram_total};
use crate::kasiski::{is_kasiski_choice, kasiski, kasiski_range_ok};
use crate::symbols::{
    de_vig, int_to_str_lower, is_symbols, is_upper_text, lower_letters, str_upper_to_int,
    upper_symbols, vig_decrypt,
};

verus! {

/// `key` is the key recovered from `c` for key length `k`: entry `r` is the
/// best Caesar shift of the letter histogram of coset `r`.
pub open spec fn is_recovered_key(c: Seq<u8>, k: int, key: Seq<u8>) -> bool {
    &&& key.len() == k
    &&& forall|r: int| 0 <= r < k ==> is_best_shift(histogram(coset(c, k, r)), #[trigger] key[r] as int)
}

/// Recovers the key of length `keysize` coset by coset and decrypts the
/// ciphertext with it, giving the key and the lower-case plaintext. The key
/// length must be at least 1 and at most the ciphertext's length.
pub fn solve_vig(cipher: &Vec<u8>, keysize: usize) -> (r: Result<(Vec<u8>, String), CryptError>)
    requires
        cipher@.len() <= MAX_CIPHER_LEN,
        is_symbols(cipher@),
    ensures
        r is Ok <==> 1 <= keysize <= cipher@.len(),
        r matches Ok((key, text)) ==> is_recovered_key(cipher@, keysize as int, key@)
            && is_symbols(key@) && text@ == lower_letters(vig_decrypt(cipher@, key@)),
        r matches Err(e) ==> e == CryptError::DegenerateInput,
{
    let n = cipher.len();
    if keysize == 0 || keysize > n {
        return Err(CryptError::DegenerateInput);
    }
    let lf = LetterFreq::new();
    let mut key: Vec<u8> = Vec::new();
    let mut r: usize = 0;
    while r < keysize
        invariant
            n == cipher@.len() <= MAX_CIPHER_LEN,
            is_symbols(cipher@),
            1 <= keysize <= n,
            r <= keysize,
            key@.len() == r,
            is_symbols(key@),
            forall|t: int|
                0 <= t < r ==> is_best_shift(histogram(coset(cipher@, keysize as int, t)), #[trigger] key@[t] as int),
        decreases keysize - r,
    {
        let h = coset_histogram(cipher, keysize, r);
        proof {
            let cs = coset(cipher@, keysize as int, r as int);
            assert(is_symbols(cs)) by {
                assert forall|i: int| 0 <= i < cs.len() implies #[trigger] cs[i] < 26 by {
                    crate::histogram::lemma_coset_index(n as int, keysize as int, r as int, i);
                    assert(0 <= i * keysize) by (nonlinear_arith)
                        requires
                            0 <= i,
                            1 <= keysize,
                    ;
                }
            }
            lemma_histogram_total(cs);
        }
        let shift = lf.get_best_x2_shift(h);
        key.push(shift);
        r += 1;
    }
    let mut plain = cipher.clone();
    assert(plain@ =~= cipher@);
    de_vig(&mut plain, &key);
    let text = int_to_str_lower(&plain);
    Ok((key, text))
}

/// Outcome of a full analysis: the three key-length estimates, and the key
/// and plaintext recovered with the Kasiski estimate.
pub struct Analysis {
    pub kasiski: usize,
    pub friedman_a: usize,
    pub friedman_b: usize,
    pub key: Vec<u8>,
    pub plaintext: String,
}

/// Analyses an upper-case ciphertext: estimates the key length in
/// `[min_keylength, max_keylength)` with Kasiski's method and both of
/// Friedman's, then recovers the key and plaintext for the Kasiski estimate,
/// which is the direct structural evidence. A character that is not an
/// upper-case letter is rejected first; a range that does not suit every
/// estimator is then rejected as degenerate.
pub fn analyze(text: &str, min_keylength: usize, max_keylength: usize) -> (r: Result<Analysis, CryptError>)
    requires
        text@.len() <= MAX_CIPHER_LEN,
    ensures
        !is_upper_text(text@) ==> r == Err::<Analysis, CryptError>(CryptError::InvalidAlphabetSymbol),
        is_upper_text(text@) ==> (r is Ok <==> friedman_range_ok(
            text@.len() as int,
            min_keylength as int,
            max_keylength as int,
        )),
        r matches Err(e) ==> is_upper_text(text@) ==> e == CryptError::DegenerateInput,
        r matches Ok(a) ==> {
            let c = upper_symbols(text@);
            let lo = min_keylength as int;
            let hi = max_keylength as int;
            &&& is_kasiski_choice(c, lo, hi, a.kasiski as int)
            &&& is_friedman_choice(c, lo, hi, a.friedman_a as int)
            &&& a.friedman_b == friedman_estimate(c)
            &&& is_recovered_key(c, a.kasiski as int, a.key@)
            &&& a.plaintext@ == lower_letters(vig_decrypt(c, a.key@))
        },
{
    let cipher = match str_upper_to_int(text) {
        Ok(v) => v,
        Err(e) => {
            return Err(e);
        },
    };
    let friedman_a = match freidman_1(&cipher, min_keylength, max_keylength) {
        Ok(k) => k,
        Err(e) => {
            return Err(e);
        },
    };
    let kasiski_m = match kasiski(&cipher, min_keylength, max_keylength) {
        Ok(k) => k,
        Err(e) => {
            return Err(e);
        },
    };
    let friedman_b = match freidman_2(&cipher) {
        Ok(k) => k,
        Err(e) => {
            return Err(e);
        },
    };
    match solve_vig(&cipher, kasiski_m) {
        Ok((key, plaintext)) => Ok(Analysis { kasiski: kasiski_m, friedman_a, friedman_b, key, plaintext }),
        Err(e) => Err(e),
    }
}

} // verus!
