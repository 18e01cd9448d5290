//! Friedman's key-length estimators, on exact rational arithmetic: the
//! per-length search over mean coset coincidence (variant A) and the closed-form
//! estimate from the whole text's coincidence (variant B).
use vstd::prelude::*;
use crate::error::CryptError;
use crate::frequency::MAX_CIPHER_LEN;
use crate::histogram::{
    coincidence_sum, coincidences, coset, coset_histogram, coset_len, histogram,
    lemma_coincidences_bound,
};
use crate::symbols::is_symbols;

verus! {

/// Index of coincidence of English text, in ten-thousandths (0.0667).
pub const ENGLISH_IC: u64 = 667;

/// Common denominator of the coincidence fractions of the `k` cosets of a text
/// of length `n`: with `q = n / k` every coset holds `q` or `q + 1` symbols, so
/// `(q - 1) q (q + 1)` is a multiple of every `len (len - 1)`.
pub open spec fn common_den(n: int, k: int) -> int {
    let q = n / k;
    (q - 1) * q * (q + 1)
}

/// Factor that brings the coincidence fraction of coset `r` to the common denominator.
pub open spec fn coset_weight(n: int, k: int, r: int) -> int {
    let l = coset_len(n, k, r);
    common_den(n, k) / (l * (l - 1))
}

/// Sum over the cosets `0..upto` of their index of coincidence, each scaled to
/// the common denominator.
pub open spec fn ic_sum_upto(c: Seq<u8>, k: int, upto: int) -> int
    decreases upto,
{
    if upto <= 0 {
        0
    } else {
        ic_sum_upto(c, k, upto - 1) + coincidences(histogram(coset(c, k, upto - 1))) * coset_weight(
            c.len() as int,
            k,
            upto - 1,
        )
    }
}

/// Numerator of the mean index of coincidence of the `k` cosets.
pub open spec fn mean_ic_num(c: Seq<u8>, k: int) -> int {
    ic_sum_upto(c, k, k)
}

/// Denominator of the mean index of coincidence of the `k` cosets.
pub open spec fn mean_ic_den(n: int, k: int) -> int {
    k * common_den(n, k)
}

/// `|mean_ic - 0.0667|` for key length `k`, times `10000 * mean_ic_den`.
pub open spec fn ic_gap(c: Seq<u8>, k: int) -> int {
    let d = 10000 * mean_ic_num(c, k) - ENGLISH_IC * mean_ic_den(c.len() as int, k);
    if d >= 0 {
        d
    } else {
        -d
    }
}

/// Key length `a` brings the mean coset coincidence strictly closer to English than `b`.
pub open spec fn closer_to_english(c: Seq<u8>, a: int, b: int) -> bool {
    ic_gap(c, a) * mean_ic_den(c.len() as int, b) < ic_gap(c, b) * mean_ic_den(c.len() as int, a)
}

/// Every key length in `[lo, hi)` splits the text into cosets of two symbols or more.
pub open spec fn friedman_range_ok(n: int, lo: int, hi: int) -> bool {
    1 <= lo < hi && 2 * (hi - 1) <= n
}

/// `r` is the key length in `[lo, hi)` whose mean coset coincidence is closest
/// to English, the smallest one on ties.
pub open spec fn is_friedman_choice(c: Seq<u8>, lo: int, hi: int, r: int) -> bool {
    &&& lo <= r < hi
    &&& forall|m: int| lo <= m < hi ==> !#[trigger] closer_to_english(c, m, r)
    &&& forall|m: int| lo <= m < r ==> #[trigger] closer_to_english(c, r, m)
}

/// With `q = n / k >= 2`, every coset of residue `r < k` holds `q` or `q + 1` symbols.
pub proof fn lemma_coset_sizes(n: int, k: int, r: int)
    requires
        1 <= k,
        2 * k <= n,
        0 <= r < k,
    ensures
        n / k >= 2,
        coset_len(n, k, r) == n / k || coset_len(n, k, r) == n / k + 1,
{
    let q = n / k;
    let m = n % k;
    vstd::arithmetic::div_mod::lemma_fundamental_div_mod(n, k);
    vstd::arithmetic::div_mod::lemma_div_is_ordered(2 * k, n, k);
    vstd::arithmetic::div_mod::lemma_div_by_multiple(2, k);
    let t = m - r + k - 1;
    assert(n - r + k - 1 == k * q + t);
    vstd::arithmetic::mul::lemma_mul_is_commutative(k, q);
    vstd::arithmetic::mul::lemma_mul_is_commutative(k, q + 1);
    if t < k {
        vstd::arithmetic::div_mod::lemma_fundamental_div_mod_converse(n - r + k - 1, k, q, t);
    } else {
        assert(n - r + k - 1 == (q + 1) * k + (t - k)) by (nonlinear_arith)
            requires
                n - r + k - 1 == k * q + t,
        ;
        vstd::arithmetic::div_mod::lemma_fundamental_div_mod_converse(
            n - r + k - 1,
            k,
            q + 1,
            t - k,
        );
    }
}

/// The scaling is exact: each coset's weight times its own denominator
/// `len (len - 1)` is the common denominator, so the scaled sum divided by
/// `mean_ic_den` is the mean of the cosets' indices of coincidence.
pub proof fn lemma_coset_weight_exact(n: int, k: int, r: int)
    requires
        1 <= k,
        2 * k <= n,
        0 <= r < k,
    ensures
        ({
            let l = coset_len(n, k, r);
            coset_weight(n, k, r) * (l * (l - 1)) == common_den(n, k)
        }),
        coset_weight(n, k, r) == n / k + 1 || coset_weight(n, k, r) == n / k - 1,
{
    lemma_coset_sizes(n, k, r);
    let q = n / k;
    let l = coset_len(n, k, r);
    if l == q {
        assert(common_den(n, k) == (q + 1) * (l * (l - 1))) by (nonlinear_arith)
            requires
                l == q,
                common_den(n, k) == (q - 1) * q * (q + 1),
        ;
        assert(l * (l - 1) > 0) by (nonlinear_arith)
            requires
                l >= 2,
        ;
        vstd::arithmetic::div_mod::lemma_div_by_multiple(q + 1, l * (l - 1));
    } else {
        assert(common_den(n, k) == (q - 1) * (l * (l - 1))) by (nonlinear_arith)
            requires
                l == q + 1,
                common_den(n, k) == (q - 1) * q * (q + 1),
        ;
        assert(l * (l - 1) > 0) by (nonlinear_arith)
            requires
                l >= 2,
        ;
        vstd::arithmetic::div_mod::lemma_div_by_multiple(q - 1, l * (l - 1));
    }
}

/// Numerator and denominator of the mean index of coincidence of the `k`
/// cosets of `c`.
fn mean_ic(c: &Vec<u8>, k: usize) -> (r: (u128, u128))
    requires
        1 <= k,
        2 * k <= c@.len() <= MAX_CIPHER_LEN,
        is_symbols(c@),
    ensures
        r.0 == mean_ic_num(c@, k as int),
        r.1 == mean_ic_den(c@.len() as int, k as int),
        r.0 <= 208 * (65536 * 65536 * 65536),
        0 < r.1 <= 65536 * 65536 * 65536,
{
    let n = c.len();
    let q = n / k;
    proof {
        lemma_coset_sizes(n as int, k as int, 0);
        assert(q * k <= n) by {
            vstd::arithmetic::div_mod::lemma_fundamental_div_mod(n as int, k as int);
            vstd::arithmetic::div_mod::lemma_mod_pos_bound(n as int, k as int);
        }
        assert(0 <= (q - 1) * q <= 65536 * 65536) by (nonlinear_arith)
            requires
                2 <= q <= 65536,
        ;
        assert((q - 1) * q * (q + 1) <= 65536 * 65536 * 65537) by (nonlinear_arith)
            requires
                0 <= (q - 1) * q <= 65536 * 65536,
                2 <= q <= 65536,
        ;
    }
    let den_all: u128 = ((q - 1) as u128) * (q as u128) * ((q + 1) as u128);
    let mut acc: u128 = 0;
    let mut r: usize = 0;
    while r < k
        invariant
            n == c@.len(),
            1 <= k,
            2 * k <= n <= MAX_CIPHER_LEN,
            is_symbols(c@),
            q == n / k,
            2 <= q,
            q * k <= n,
            den_all == common_den(n as int, k as int),
            r <= k,
            acc == ic_sum_upto(c@, k as int, r as int),
            acc <= r * (26 * ((q + 1) * (q + 1) * (q + 1))),
        decreases k - r,
    {
        let h = coset_histogram(c, k, r);
        let s = coincidence_sum(&h);
        let l = (n - r + k - 1) / k;
        proof {
            assert(l as int == coset_len(n as int, k as int, r as int));
            lemma_coset_sizes(n as int, k as int, r as int);
            assert(2 <= l <= q + 1);
            lemma_coset_weight_exact(n as int, k as int, r as int);
            lemma_coincidences_bound(h@, l as int, 26);
            assert(26 * (l * l) <= 26 * ((q + 1) * (q + 1))) by (nonlinear_arith)
                requires
                    l <= q + 1,
                    0 <= l,
            ;
            assert(2 <= l * (l - 1) <= 65537 * 65536) by (nonlinear_arith)
                requires
                    2 <= l <= q + 1,
                    q <= 65536,
            ;
        }
        let w = den_all / ((l as u128) * ((l - 1) as u128));
        proof {
            let x = 26 * ((q + 1) * (q + 1) * (q + 1));
            assert(w == coset_weight(n as int, k as int, r as int));
            assert(s * w <= x) by (nonlinear_arith)
                requires
                    s <= 26 * ((q + 1) * (q + 1)),
                    w <= q + 1,
                    0 <= w,
                    0 <= s,
                    x == 26 * ((q + 1) * (q + 1) * (q + 1)),
            ;
            assert((r + 1) * x == r * x + x) by (nonlinear_arith);
            assert(r * x + x <= 65536 * (26 * (65537 * 65537 * 65537))) by (nonlinear_arith)
                requires
                    r + 1 <= 65536,
                    q <= 65536,
                    x == 26 * ((q + 1) * (q + 1) * (q + 1)),
            ;
        }
        acc = acc + (s as u128) * w;
        r += 1;
    }
    proof {
        let nn = n as int;
        assert(k * (26 * ((q + 1) * (q + 1) * (q + 1))) <= 208 * (nn * nn * nn)) by (nonlinear_arith)
            requires
                2 <= q,
                1 <= k,
                q * k <= nn,
        ;
        assert(k * ((q - 1) * q * (q + 1)) <= nn * nn * nn) by (nonlinear_arith)
            requires
                2 <= q,
                1 <= k,
                q * k <= nn,
        ;
        assert(nn * nn * nn <= 65536 * 65536 * 65536) by (nonlinear_arith)
            requires
                0 <= nn <= 65536,
        ;
        assert(208 * (nn * nn * nn) <= 208 * (65536 * 65536 * 65536));
        assert(k * ((q - 1) * q * (q + 1)) > 0) by (nonlinear_arith)
            requires
                2 <= q,
                1 <= k,
        ;
    }
    (acc, (k as u128) * den_all)
}

proof fn lemma_mean_ic_den_pos(n: int, k: int)
    requires
        1 <= k,
        2 * k <= n,
    ensures
        mean_ic_den(n, k) > 0,
{
    lemma_coset_sizes(n, k, 0);
    let q = n / k;
    assert(k * ((q - 1) * q * (q + 1)) > 0) by (nonlinear_arith)
        requires
            2 <= q,
            1 <= k,
    ;
}

proof fn lemma_ratio_lt_le(x1: int, d1: int, x2: int, d2: int, x3: int, d3: int)
    requires
        d1 > 0,
        d2 > 0,
        d3 > 0,
        x1 * d2 < x2 * d1,
        x2 * d3 <= x3 * d2,
    ensures
        x1 * d3 < x3 * d1,
{
    assert(x1 * d2 * d3 < x2 * d1 * d3) by (nonlinear_arith)
        requires
            x1 * d2 < x2 * d1,
            d3 > 0,
    ;
    assert(x2 * d3 * d1 <= x3 * d2 * d1) by (nonlinear_arith)
        requires
            x2 * d3 <= x3 * d2,
            d1 > 0,
    ;
    assert(x1 * d3 * d2 < x3 * d1 * d2) by (nonlinear_arith)
        requires
            x1 * d2 * d3 < x2 * d1 * d3,
            x2 * d3 * d1 <= x3 * d2 * d1,
    ;
    assert(x1 * d3 < x3 * d1) by (nonlinear_arith)
        requires
            x1 * d3 * d2 < x3 * d1 * d2,
            d2 > 0,
    ;
}

/// Distance of a mean coincidence `num / den` from English, times `10000 * den`.
fn gap_of(num: u128, den: u128) -> (g: u128)
    requires
        num <= 208 * (65536 * 65536 * 65536),
        den <= 65536 * 65536 * 65536,
    ensures
        g == (if 10000 * num >= ENGLISH_IC * den {
            10000 * num - ENGLISH_IC * den
        } else {
            ENGLISH_IC * den - 10000 * num
        }),
        g <= 10000 * (208 * (65536 * 65536 * 65536)),
{
    let a = 10000 * num;
    let b = (ENGLISH_IC as u128) * den;
    if a >= b {
        a - b
    } else {
        b - a
    }
}

/// Friedman's estimate by coset coincidence: the key length in
/// `[min_keylength, max_keylength)` whose cosets have the mean index of
/// coincidence closest to English (the smallest such length on ties).
/// The range must be non-empty, start at 1 or more, and leave every coset at
/// least two symbols.
pub fn freidman_1(cipher: &Vec<u8>, min_keylength: usize, max_keylength: usize) -> (r: Result<usize, CryptError>)
    requires
        cipher@.len() <= MAX_CIPHER_LEN,
        is_symbols(cipher@),
    ensures
        r is Ok <==> friedman_range_ok(cipher@.len() as int, min_keylength as int, max_keylength as int),
        r matches Ok(k) ==> is_friedman_choice(cipher@, min_keylength as int, max_keylength as int, k as int),
        r matches Err(e) ==> e == CryptError::DegenerateInput,
{
    let n = cipher.len();
    if min_keylength == 0 || min_keylength >= max_keylength || max_keylength - 1 > n / 2 {
        return Err(CryptError::DegenerateInput);
    }
    let ghost c = cipher@;
    let ghost lo = min_keylength as int;
    let ghost hi = max_keylength as int;
    let (num0, den0) = mean_ic(cipher, min_keylength);
    let mut best = min_keylength;
    let mut best_gap = gap_of(num0, den0);
    let mut best_den = den0;
    let mut k = min_keylength + 1;
    while k < max_keylength
        invariant
            n == c.len() <= MAX_CIPHER_LEN,
            cipher@ == c,
            is_symbols(c),
            lo == min_keylength,
            hi == max_keylength,
            friedman_range_ok(n as int, lo, hi),
            lo < k <= hi,
            lo <= best < k,
            best_gap == ic_gap(c, best as int),
            best_den == mean_ic_den(n as int, best as int),
            0 < best_den <= 65536 * 65536 * 65536,
            best_gap <= 10000 * (208 * (65536 * 65536 * 65536)),
            forall|m: int| lo <= m < k ==> !#[trigger] closer_to_english(c, m, best as int),
            forall|m: int| lo <= m < best ==> #[trigger] closer_to_english(c, best as int, m),
        decreases hi - k,
    {
        let (num, den) = mean_ic(cipher, k);
        let gap = gap_of(num, den);
        proof {
            assert(gap * best_den <= 585467951558164480000 * 281474976710656) by (nonlinear_arith)
                requires
                    gap <= 585467951558164480000,
                    best_den <= 281474976710656,
            ;
            assert(best_gap * den <= 585467951558164480000 * 281474976710656) by (nonlinear_arith)
                requires
                    best_gap <= 585467951558164480000,
                    den <= 281474976710656,
            ;
            assert(585467951558164480000int * 281474976710656int <= u128::MAX);
        }
        assert(gap * best_den <= u128::MAX);
        assert(best_gap * den <= u128::MAX);
        if gap * best_den < best_gap * den {
            proof {
                assert forall|m: int| lo <= m < k implies !closer_to_english(c, m, k as int)
                    && closer_to_english(c, k as int, m) by {
                    if m != best {
                        assert(!closer_to_english(c, m, best as int));
                        lemma_mean_ic_den_pos(n as int, m);
                        lemma_ratio_lt_le(
                            gap as int,
                            den as int,
                            best_gap as int,
                            best_den as int,
                            ic_gap(c, m),
                            mean_ic_den(n as int, m),
                        );
                    } else {
                        assert(gap == ic_gap(c, k as int));
                        assert(closer_to_english(c, k as int, best as int));
                    }
                }
                assert forall|m: int| lo <= m < k implies #[trigger] closer_to_english(c, k as int, m) by {
                    assert(!closer_to_english(c, m, k as int) && closer_to_english(c, k as int, m));
                }
                assert forall|m: int| lo <= m < k implies !#[trigger] closer_to_english(c, m, k as int) by {
                    assert(!closer_to_english(c, m, k as int) && closer_to_english(c, k as int, m));
                }
            }
            best = k;
            best_gap = gap;
            best_den = den;
        }
        k += 1;
    }
    Ok(best)
}

/// Friedman's closed-form key-length estimate from the index of coincidence
/// `k0 = S / (N (N - 1))` of the whole text (`S` its coincidence count, `N`
/// its length): `(kp - kr) / (k0 - kr)` rounded to the nearest integer (halves
/// up), with `kp = 0.0667` for English and `kr = 1/26` for uniform text. That
/// ratio is `(667 * 26 - 10000) N (N - 1) / (10000 (26 S - N (N - 1)))`. Where
/// the denominator is zero the estimate is unbounded and saturates to
/// `usize::MAX`; where it is negative the estimate saturates to 0.
pub open spec fn friedman_estimate(c: Seq<u8>) -> int {
    let m = c.len() * (c.len() - 1);
    let a = (ENGLISH_IC * 26 - 10000) * m;
    let b = 10000 * (26 * coincidences(histogram(c)) - m);
    if b > 0 {
        (2 * a + b) / (2 * b)
    } else if b == 0 {
        usize::MAX as int
    } else {
        0
    }
}

proof fn lemma_rounded_ratio_bound(a: int, b: int, x: int)
    requires
        a >= 0,
        b >= 10000,
        x == (2 * a + b) / (2 * b),
    ensures
        0 <= x,
        10000 * x < a + 10000,
{
    vstd::arithmetic::div_mod::lemma_fundamental_div_mod(2 * a + b, 2 * b);
    vstd::arithmetic::div_mod::lemma_div_pos_is_pos(2 * a + b, 2 * b);
    let r = (2 * a + b) % (2 * b);
    assert(10000 * x < a + 10000) by (nonlinear_arith)
        requires
            2 * a + b == 2 * b * x + r,
            0 <= r,
            x >= 0,
            a >= 0,
            b >= 10000,
    ;
}

/// Friedman's closed-form key-length estimate over the whole ciphertext. A
/// ciphertext of fewer than two symbols has no index of coincidence.
pub fn freidman_2(cipher: &Vec<u8>) -> (r: Result<usize, CryptError>)
    requires
        cipher@.len() <= MAX_CIPHER_LEN,
        is_symbols(cipher@),
    ensures
        r is Ok <==> cipher@.len() >= 2,
        r matches Ok(k) ==> k == friedman_estimate(cipher@),
        r matches Err(e) ==> e == CryptError::DegenerateInput,
{
    let n = cipher.len();
    if n < 2 {
        return Err(CryptError::DegenerateInput);
    }
    let h = coset_histogram(cipher, 1, 0);
    proof {
        assert(coset(cipher@, 1, 0) =~= cipher@);
    }
    let s = coincidence_sum(&h);
    proof {
        assert(n * (n - 1) <= 65536 * 65535) by (nonlinear_arith)
            requires
                2 <= n <= 65536,
        ;
    }
    let m: u64 = (n as u64) * ((n - 1) as u64);
    assert(m <= 65536 * 65535);
    if 26 * s > m {
        let coef: u64 = ENGLISH_IC * 26 - 10000;
        assert(coef == 7342);
        let a: u64 = coef * m;
        let b: u64 = 10000 * (26 * s - m);
        let x = (2 * a + b) / (2 * b);
        proof {
            lemma_rounded_ratio_bound(a as int, b as int, x as int);
            assert(x < 0x1_0000_0000);
        }
        Ok(x as usize)
    } else if 26 * s == m {
        Ok(usize::MAX)
    } else {
        Ok(0)
    }
}

} // verus!
