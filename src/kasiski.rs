//! Kasiski examination: distances between repeated substrings of the
//! ciphertext, and the key length that divides most of them.
use vstd::prelude::*;
use crate::error::CryptError;

verus! {

/// The substrings of length `len` starting at `i` and at `j` are equal.
pub open spec fn window_match(c: Seq<u8>, len: int, i: int, j: int) -> bool {
    c.subrange(i, i + len) == c.subrange(j, j + len)
}

/// Number of substrings of length `len` in a text of length `n`.
pub open spec fn window_count(n: int, len: int) -> int {
    n - len + 1
}

/// Distances `j - i` from the substring at `i` to each later equal substring
/// starting before `end`, in increasing order of `j`.
pub open spec fn row_distances(c: Seq<u8>, len: int, i: int, end: int) -> Seq<int>
    decreases end - i,
{
    if end <= i + 1 {
        seq![]
    } else {
        row_distances(c, len, i, end - 1) + (if window_match(c, len, i, end - 1) {
            seq![end - 1 - i]
        } else {
            seq![]
        })
    }
}

/// Distances between every pair of equal substrings of length `len` whose
/// first member starts before `upto`.
pub open spec fn length_distances(c: Seq<u8>, len: int, upto: int) -> Seq<int>
    decreases upto,
{
    if upto <= 0 {
        seq![]
    } else {
        length_distances(c, len, upto - 1) + row_distances(
            c,
            len,
            upto - 1,
            window_count(c.len() as int, len),
        )
    }
}

/// The distance multiset: for each substring length in `[lo, hi)`, the
/// distance between every pair of positions that hold equal substrings.
pub open spec fn repeat_distances(c: Seq<u8>, lo: int, hi: int) -> Seq<int>
    decreases hi - lo,
{
    if hi <= lo {
        seq![]
    } else {
        repeat_distances(c, lo, hi - 1) + length_distances(
            c,
            hi - 1,
            window_count(c.len() as int, hi - 1),
        )
    }
}

/// Number of entries of `d` that `m` divides.
pub open spec fn count_divisible(d: Seq<int>, m: int) -> nat
    decreases d.len(),
{
    if d.len() == 0 {
        0
    } else {
        count_divisible(d.drop_last(), m) + (if d.last() % m == 0 {
            1nat
        } else {
            0nat
        })
    }
}

/// Percentage (rounded down) of the distances that the key length `m` divides;
/// 0 when there are no distances.
pub open spec fn match_percent(c: Seq<u8>, lo: int, hi: int, m: int) -> int {
    let d = repeat_distances(c, lo, hi);
    if d.len() == 0 {
        0
    } else {
        (count_divisible(d, m) as int) * 100 / (d.len() as int)
    }
}

/// Score of the key length `m`: `match_percent^2 * m`, which weighs the match
/// rate heavily and still favours longer keys on near ties.
pub open spec fn kasiski_value(c: Seq<u8>, lo: int, hi: int, m: int) -> int {
    let p = match_percent(c, lo, hi, m);
    p * p * m
}

/// The range of key lengths is non-empty, starts at 1 or more, and every
/// substring length in it fits in the text.
pub open spec fn kasiski_range_ok(n: int, lo: int, hi: int) -> bool {
    1 <= lo < hi <= n + 1
}

/// `r` is the key length in `[lo, hi)` with the greatest score, the smallest
/// one on ties.
pub open spec fn is_kasiski_choice(c: Seq<u8>, lo: int, hi: int, r: int) -> bool {
    &&& lo <= r < hi
    &&& forall|m: int| lo <= m < hi ==> #[trigger] kasiski_value(c, lo, hi, m) <= kasiski_value(c, lo, hi, r)
    &&& forall|m: int| lo <= m < r ==> #[trigger] kasiski_value(c, lo, hi, m) < kasiski_value(c, lo, hi, r)
}

/// The entries of a `usize` sequence as integers.
pub open spec fn ints(v: Seq<usize>) -> Seq<int> {
    v.map_values(|x: usize| x as int)
}

/// Compares the substrings of length `len` at `i` and at `j`.
fn windows_equal(c: &Vec<u8>, i: usize, j: usize, len: usize) -> (r: bool)
    requires
        i + len <= c@.len(),
        j + len <= c@.len(),
    ensures
        r == window_match(c@, len as int, i as int, j as int),
{
    let n = c.len();
    let mut t: usize = 0;
    while t < len
        invariant
            t <= len,
            n == c@.len(),
            i + len <= c@.len(),
            j + len <= c@.len(),
            forall|u: int| 0 <= u < t ==> #[trigger] c@[i + u] == c@[j + u],
        decreases len - t,
    {
        if c[i + t] != c[j + t] {
            assert(c@.subrange(i as int, i + len)[t as int] != c@.subrange(j as int, j + len)[t as int]);
            return false;
        }
        t += 1;
    }
    assert(c@.subrange(i as int, i + len) =~= c@.subrange(j as int, j + len)) by {
        assert forall|u: int| 0 <= u < len implies #[trigger] c@.subrange(i as int, i + len)[u]
            == c@.subrange(j as int, j + len)[u] by {
            assert(c@[i + u] == c@[j + u]);
        }
    }
    true
}

/// The distance multiset of `c` over the substring lengths `[lo, hi)`.
fn collect_distances(c: &Vec<u8>, lo: usize, hi: usize) -> (d: Vec<usize>)
    requires
        1 <= lo < hi <= c@.len() + 1,
    ensures
        ints(d@) == repeat_distances(c@, lo as int, hi as int),
{
    let n = c.len();
    let mut d: Vec<usize> = Vec::new();
    let mut len = lo;
    assert(ints(d@) =~= repeat_distances(c@, lo as int, lo as int));
    while len < hi
        invariant
            n == c@.len(),
            1 <= lo <= len <= hi <= n + 1,
            ints(d@) == repeat_distances(c@, lo as int, len as int),
        decreases hi - len,
    {
        let nw = n - len + 1;
        let ghost before = ints(d@);
        let mut i: usize = 0;
        assert(ints(d@) =~= before + length_distances(c@, len as int, 0));
        while i < nw
            invariant
                n == c@.len(),
                1 <= len <= n,
                nw == window_count(n as int, len as int),
                i <= nw,
                before == repeat_distances(c@, lo as int, len as int),
                ints(d@) == before + length_distances(c@, len as int, i as int),
            decreases nw - i,
        {
            let ghost row_start = ints(d@);
            let mut j = i + 1;
            assert(ints(d@) =~= row_start + row_distances(c@, len as int, i as int, j as int));
            while j < nw
                invariant
                    n == c@.len(),
                    1 <= len <= n,
                    nw == window_count(n as int, len as int),
                    i < j <= nw,
                    row_start == before + length_distances(c@, len as int, i as int),
                    ints(d@) == row_start + row_distances(c@, len as int, i as int, j as int),
                decreases nw - j,
            {
                let ghost prev = ints(d@);
                if windows_equal(c, i, j, len) {
                    d.push(j - i);
                    assert(ints(d@) =~= prev.push((j - i) as int));
                }
                assert(ints(d@) =~= row_start + row_distances(c@, len as int, i as int, j + 1));
                j += 1;
            }
            assert(ints(d@) =~= before + length_distances(c@, len as int, i + 1));
            i += 1;
        }
        assert(ints(d@) =~= repeat_distances(c@, lo as int, len + 1));
        len += 1;
    }
    d
}

proof fn lemma_count_divisible_le(d: Seq<int>, m: int)
    ensures
        count_divisible(d, m) <= d.len(),
    decreases d.len(),
{
    if d.len() > 0 {
        lemma_count_divisible_le(d.drop_last(), m);
    }
}

/// Number of the distances in `d` that `m` divides.
fn count_divisible_by(d: &Vec<usize>, m: usize) -> (r: usize)
    requires
        m >= 1,
    ensures
        r == count_divisible(ints(d@), m as int),
        r <= d@.len(),
{
    let ghost all = ints(d@);
    let mut cnt: usize = 0;
    let mut t: usize = 0;
    while t < d.len()
        invariant
            all == ints(d@),
            m >= 1,
            t <= d@.len(),
            cnt == count_divisible(all.take(t as int), m as int),
            cnt <= t,
        decreases d@.len() - t,
    {
        proof {
            assert(all.take(t + 1).drop_last() =~= all.take(t as int));
        }
        if d[t] % m == 0 {
            cnt += 1;
        }
        t += 1;
    }
    assert(all.take(t as int) =~= all);
    cnt
}

/// Kasiski's estimate of the key length: among `[min_keylength,
/// max_keylength)`, the length with the greatest `match_percent^2 * length`,
/// where `match_percent` is the percentage of repeated-substring distances the
/// length divides (the smallest such length on ties). The range must be
/// non-empty, start at 1 or more, and hold no substring length beyond the text.
pub fn kasiski(cipher: &Vec<u8>, min_keylength: usize, max_keylength: usize) -> (r: Result<usize, CryptError>)
    ensures
        r is Ok <==> kasiski_range_ok(cipher@.len() as int, min_keylength as int, max_keylength as int),
        r matches Ok(k) ==> is_kasiski_choice(cipher@, min_keylength as int, max_keylength as int, k as int),
        r matches Err(e) ==> e == CryptError::DegenerateInput,
{
    let n = cipher.len();
    if min_keylength == 0 || min_keylength >= max_keylength || max_keylength - 1 > n {
        return Err(CryptError::DegenerateInput);
    }
    let ghost c = cipher@;
    let ghost lo = min_keylength as int;
    let ghost hi = max_keylength as int;
    let mults = collect_distances(cipher, min_keylength, max_keylength);
    let total = mults.len();
    let mut best = min_keylength;
    let mut best_value: u128 = 0;
    let mut m = min_keylength;
    while m < max_keylength
        invariant
            cipher@ == c,
            lo == min_keylength,
            hi == max_keylength,
            1 <= lo <= m <= hi,
            ints(mults@) == repeat_distances(c, lo, hi),
            total == mults@.len(),
            lo <= best <= m,
            best < hi,
            m == lo ==> best == lo && best_value == 0,
            m > lo ==> best < m && best_value == kasiski_value(c, lo, hi, best as int),
            forall|t: int| lo <= t < m ==> #[trigger] kasiski_value(c, lo, hi, t) <= best_value,
            forall|t: int| lo <= t < best ==> #[trigger] kasiski_value(c, lo, hi, t) < best_value,
        decreases hi - m,
    {
        let x = count_divisible_by(&mults, m);
        let p: u128 = if total == 0 {
            0
        } else {
            (x as u128) * 100 / (total as u128)
        };
        proof {
            assert(p <= 100) by {
                if total > 0 {
                    vstd::arithmetic::div_mod::lemma_div_is_ordered(x * 100, total * 100, total as int);
                    vstd::arithmetic::div_mod::lemma_div_by_multiple(100, total as int);
                    vstd::arithmetic::mul::lemma_mul_is_commutative(100, total as int);
                }
            }
            assert(p * p <= 10000) by (nonlinear_arith)
                requires
                    p <= 100,
            ;
            assert(p * p * m <= 10000 * usize::MAX) by (nonlinear_arith)
                requires
                    p * p <= 10000,
                    m <= usize::MAX,
            ;
            assert(p == match_percent(c, lo, hi, m as int));
        }
        let value = p * p * (m as u128);
        if m == min_keylength || value > best_value {
            best = m;
            best_value = value;
        }
        proof {
            if m == lo {
                assert(value >= 0);
            }
        }
        m += 1;
    }
    Ok(best)
}

} // verus!
