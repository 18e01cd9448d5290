//! Cosets of a symbol sequence, their letter histograms and coincidence counts.
use vstd::prelude::*;
use crate::frequency::{total, total_upto, MAX_CIPHER_LEN};
use crate::symbols::is_symbols;

verus! {

/// Number of positions `p < n` with `p mod k == r` (for `0 <= r < k`).
pub open spec fn coset_len(n: int, k: int, r: int) -> int {
    (n - r + k - 1) / k
}

/// The coset of residue `r` modulo `k`: the symbols at positions `r, r + k, r + 2k, ...`.
pub open spec fn coset(c: Seq<u8>, k: int, r: int) -> Seq<u8> {
    Seq::new(coset_len(c.len() as int, k, r) as nat, |i: int| c[r + i * k])
}

/// Number of occurrences of symbol `x` in `s`.
pub open spec fn count_sym(s: Seq<u8>, x: int) -> nat
    decreases s.len(),
{
    if s.len() == 0 {
        0
    } else {
        count_sym(s.drop_last(), x) + (if s.last() == x {
            1nat
        } else {
            0nat
        })
    }
}

/// The 26-bin letter histogram of `s`.
pub open spec fn histogram(s: Seq<u8>) -> Seq<usize> {
    Seq::new(26, |x: int| count_sym(s, x) as usize)
}

/// Sum over symbols `0..upto` of `h[x] * (h[x] - 1)`: the number of ordered
/// pairs of distinct positions that hold the same letter.
pub open spec fn coincidences_upto(h: Seq<usize>, upto: int) -> int
    decreases upto,
{
    if upto <= 0 {
        0
    } else {
        coincidences_upto(h, upto - 1) + h[upto - 1] * (h[upto - 1] - 1)
    }
}

/// Coincidence count of a 26-bin histogram.
pub open spec fn coincidences(h: Seq<usize>) -> int {
    coincidences_upto(h, 26)
}

/// A position `r + j*k` lies before `n` exactly when `j` is below the coset's length.
pub proof fn lemma_coset_index(n: int, k: int, r: int, j: int)
    requires
        k >= 1,
        0 <= r,
        j >= 0,
    ensures
        r + j * k < n <==> j < coset_len(n, k, r),
{
    let b = n - r + k - 1;
    let q = b / k;
    let m = b % k;
    vstd::arithmetic::div_mod::lemma_fundamental_div_mod(b, k);
    assert((j + 1 <= q) <==> ((j + 1) * k <= b)) by (nonlinear_arith)
        requires
            b == k * q + m,
            0 <= m < k,
            k >= 1,
    ;
    assert((j + 1) * k == j * k + k) by (nonlinear_arith);
}

proof fn lemma_coset_len_le(n: int, k: int, r: int)
    requires
        k >= 1,
        0 <= r < k,
        n >= 0,
    ensures
        0 <= coset_len(n, k, r) <= n,
{
    let l = coset_len(n, k, r);
    vstd::arithmetic::div_mod::lemma_div_pos_is_pos(n - r + k - 1, k);
    if l > n {
        lemma_coset_index(n, k, r, l - 1);
        assert((l - 1) * k >= l - 1) by (nonlinear_arith)
            requires
                k >= 1,
                l >= 1,
        ;
    }
}

proof fn lemma_count_le_len(s: Seq<u8>, x: int)
    ensures
        count_sym(s, x) <= s.len(),
    decreases s.len(),
{
    if s.len() > 0 {
        lemma_count_le_len(s.drop_last(), x);
    }
}

proof fn lemma_total_bump(h: Seq<usize>, h2: Seq<usize>, y: int, upto: int)
    requires
        0 <= upto <= h.len(),
        h2.len() == h.len(),
        forall|x: int| 0 <= x < h.len() ==> #[trigger] h2[x] == h[x] + (if x == y {
            1int
        } else {
            0int
        }),
    ensures
        total_upto(h2, upto) == total_upto(h, upto) + (if 0 <= y < upto {
            1int
        } else {
            0int
        }),
    decreases upto,
{
    if upto > 0 {
        lemma_total_bump(h, h2, y, upto - 1);
    }
}

/// The histogram of a symbol sequence counts every symbol once: its entries
/// sum to the sequence's length.
pub proof fn lemma_histogram_total(s: Seq<u8>)
    requires
        is_symbols(s),
        s.len() <= MAX_CIPHER_LEN,
    ensures
        total(histogram(s)) == s.len(),
    decreases s.len(),
{
    if s.len() == 0 {
        lemma_total_zero(histogram(s), 26);
    } else {
        let p = s.drop_last();
        assert(is_symbols(p));
        lemma_histogram_total(p);
        assert forall|x: int| 0 <= x < 26 implies #[trigger] histogram(s)[x] == histogram(p)[x] + (
        if x == s.last() {
            1int
        } else {
            0int
        }) by {
            lemma_count_le_len(s, x);
            lemma_count_le_len(p, x);
        }
        lemma_total_bump(histogram(p), histogram(s), s.last() as int, 26);
    }
}

proof fn lemma_total_zero(h: Seq<usize>, upto: int)
    requires
        0 <= upto <= h.len(),
        forall|x: int| 0 <= x < h.len() ==> #[trigger] h[x] == 0,
    ensures
        total_upto(h, upto) == 0,
    decreases upto,
{
    if upto > 0 {
        lemma_total_zero(h, upto - 1);
    }
}

/// Letter histogram of the coset of residue `r` modulo `k`.
pub fn coset_histogram(c: &Vec<u8>, k: usize, r: usize) -> (h: Vec<usize>)
    requires
        1 <= k <= MAX_CIPHER_LEN,
        r < k,
        c@.len() <= MAX_CIPHER_LEN,
        is_symbols(c@),
    ensures
        h@ == histogram(coset(c@, k as int, r as int)),
        forall|x: int| 0 <= x < 26 ==> #[trigger] h@[x] <= coset(c@, k as int, r as int).len(),
        coset(c@, k as int, r as int).len() <= c@.len(),
{
    let ghost cs = coset(c@, k as int, r as int);
    let n = c.len();
    let mut h: Vec<usize> = vec![0usize; 26];
    let mut pos: usize = r;
    let ghost mut j: int = 0;
    proof {
        lemma_coset_index(n as int, k as int, r as int, 0);
        assert(h@ =~= histogram(cs.take(0)));
        lemma_coset_len_le(n as int, k as int, r as int);
    }
    while pos < n
        invariant
            n == c@.len() <= MAX_CIPHER_LEN,
            1 <= k <= MAX_CIPHER_LEN,
            r < k,
            is_symbols(c@),
            cs == coset(c@, k as int, r as int),
            0 <= j <= cs.len(),
            cs.len() <= n,
            pos == r + j * k,
            h@ == histogram(cs.take(j)),
            forall|x: int| 0 <= x < 26 ==> #[trigger] h@[x] <= j,
        decreases cs.len() - j,
    {
        proof {
            lemma_coset_index(n as int, k as int, r as int, j);
        }
        let x = c[pos];
        let ghost prev = cs.take(j);
        h.set(x as usize, h[x as usize] + 1);
        proof {
            let next = cs.take(j + 1);
            assert(next.drop_last() =~= prev);
            assert(next.last() == x);
            assert forall|y: int| 0 <= y < 26 implies #[trigger] h@[y] == histogram(next)[y] by {
                lemma_count_le_len(next, y);
                lemma_count_le_len(prev, y);
            }
            assert(h@ =~= histogram(next));
            assert((j + 1) * k == j * k + k) by (nonlinear_arith);
            j = j + 1;
        }
        pos = pos + k;
    }
    proof {
        lemma_coset_index(n as int, k as int, r as int, j);
        assert(cs.take(j) =~= cs);
    }
    h
}

/// A histogram whose entries are at most `b` has at most `26 b^2` coincidences.
pub proof fn lemma_coincidences_bound(h: Seq<usize>, b: int, upto: int)
    requires
        0 <= upto <= 26,
        h.len() == 26,
        forall|x: int| 0 <= x < 26 ==> #[trigger] h[x] <= b,
    ensures
        0 <= coincidences_upto(h, upto) <= upto * (b * b),
    decreases upto,
{
    if upto == 0 {
        assert(0 * (b * b) == 0) by (nonlinear_arith);
    } else {
        lemma_coincidences_bound(h, b, upto - 1);
        let f = h[upto - 1] as int;
        assert(0 <= f * (f - 1) <= b * b) by (nonlinear_arith)
            requires
                0 <= f <= b,
        ;
        assert((upto - 1) * (b * b) + b * b == upto * (b * b)) by (nonlinear_arith);
    }
}

/// Coincidence count of a histogram.
pub fn coincidence_sum(h: &Vec<usize>) -> (r: u64)
    requires
        h@.len() == 26,
        forall|x: int| 0 <= x < 26 ==> #[trigger] h@[x] <= MAX_CIPHER_LEN,
    ensures
        r == coincidences(h@),
        r <= 26 * 0x1_0000_0000,
{
    let mut acc: u64 = 0;
    let mut x: usize = 0;
    while x < 26
        invariant
            x <= 26,
            h@.len() == 26,
            forall|y: int| 0 <= y < 26 ==> #[trigger] h@[y] <= MAX_CIPHER_LEN,
            acc == coincidences_upto(h@, x as int),
            acc <= x * 0x1_0000_0000,
        decreases 26 - x,
    {
        let f = h[x] as u64;
        let term: u64 = if f == 0 {
            0
        } else {
            assert(f * (f - 1) <= 0x1_0000_0000) by (nonlinear_arith)
                requires
                    1 <= f <= 65536,
            ;
            f * (f - 1)
        };
        acc = acc + term;
        x += 1;
    }
    acc
}

} // verus!
