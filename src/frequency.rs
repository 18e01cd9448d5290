//! The English reference distribution and the chi-squared fit of observed
//! letter counts against it.
use vstd::prelude::*;

verus! {

/// Longest text (in symbols) that the analyses accept; it keeps every count,
/// square and cross product of the exact arithmetic inside 128 bits.
pub const MAX_CIPHER_LEN: usize = 65536;

/// English letter frequencies `a..z`, in thousandths.
pub open spec fn reference_table() -> Seq<u64> {
    seq![
        82u64, 15, 28, 43, 127, 22, 20, 61, 70, 2, 8, 40, 24, 67, 75, 19, 1, 60, 63, 91, 28, 10,
        23, 1, 20, 1,
    ]
}

/// Expected number of occurrences of symbol `s` in a sample of `n` symbols:
/// `reference_freq[s] * n` rounded to the nearest integer (halves round up).
#[verifier::opaque]
pub open spec fn expected_count(n: int, s: int) -> int {
    (reference_table()[s] * n + 500) / 1000
}

/// Sum over symbols `0..upto` of `(observed[s] - expected_count(n, s))^2`.
pub open spec fn chi_squared_upto(n: int, observed: Seq<usize>, upto: int) -> int
    decreases upto,
{
    if upto <= 0 {
        0
    } else {
        let d = observed[upto - 1] - expected_count(n, upto - 1);
        chi_squared_upto(n, observed, upto - 1) + d * d
    }
}

/// Chi-squared distance of a 26-bin distribution from English text of `n` symbols.
pub open spec fn chi_squared(n: int, observed: Seq<usize>) -> int {
    chi_squared_upto(n, observed, 26)
}

/// Sum of the first `upto` entries of a distribution.
pub open spec fn total_upto(observed: Seq<usize>, upto: int) -> int
    decreases upto,
{
    if upto <= 0 {
        0
    } else {
        total_upto(observed, upto - 1) + observed[upto - 1]
    }
}

/// Sample size of a distribution: the sum of its entries.
pub open spec fn total(observed: Seq<usize>) -> int {
    total_upto(observed, observed.len() as int)
}

/// The distribution read from position `s` on, cyclically: entry `j` holds
/// `observed[(j + s) mod 26]`. This undoes a Caesar shift by `s`.
pub open spec fn rotated(observed: Seq<usize>, s: int) -> Seq<usize> {
    Seq::new(26, |j: int| observed[(j + s) % 26])
}

/// Fit of the distribution to English once un-shifted by `s`.
pub open spec fn shift_score(observed: Seq<usize>, s: int) -> int {
    chi_squared(total(observed), rotated(observed, s))
}

/// `r` is the shift with the least chi-squared score, the smallest one on ties.
pub open spec fn is_best_shift(observed: Seq<usize>, r: int) -> bool {
    &&& 0 <= r < 26
    &&& forall|s: int| 0 <= s < 26 ==> shift_score(observed, r) <= #[trigger] shift_score(observed, s)
    &&& forall|s: int| 0 <= s < r ==> shift_score(observed, r) < #[trigger] shift_score(observed, s)
}

/// Every reference frequency lies in `[1, 127]`.
pub proof fn lemma_table_bounds()
    ensures
        reference_table().len() == 26,
        forall|s: int| 0 <= s < 26 ==> 1 <= #[trigger] reference_table()[s] <= 127,
{
    let t = reference_table();
    assert forall|s: int| 0 <= s < 26 implies 1 <= #[trigger] t[s] <= 127 by {
        assert(t[0] == 82 && t[1] == 15 && t[2] == 28 && t[3] == 43 && t[4] == 127);
    }
}

/// Every entry of a distribution is at most its sample size.
pub proof fn lemma_entry_le_total(observed: Seq<usize>, upto: int, i: int)
    requires
        0 <= i < upto <= observed.len(),
    ensures
        observed[i] <= total_upto(observed, upto),
        total_upto(observed, upto) <= total(observed),
    decreases upto,
{
    lemma_total_monotone(observed, upto, observed.len() as int);
    if i < upto - 1 {
        lemma_entry_le_total(observed, upto - 1, i);
    } else {
        lemma_total_monotone(observed, upto - 1, upto);
        lemma_total_nonneg(observed, upto - 1);
    }
}

proof fn lemma_total_nonneg(observed: Seq<usize>, upto: int)
    ensures
        total_upto(observed, upto) >= 0,
    decreases upto,
{
    if upto > 0 {
        lemma_total_nonneg(observed, upto - 1);
    }
}

proof fn lemma_total_monotone(observed: Seq<usize>, a: int, b: int)
    requires
        a <= b,
    ensures
        total_upto(observed, a) <= total_upto(observed, b),
    decreases b - a,
{
    if a < b {
        lemma_total_monotone(observed, a, b - 1);
        if b > 0 {
            assert(total_upto(observed, b) == total_upto(observed, b - 1) + observed[b - 1]);
        }
    }
}

/// Shifts the entries of `c` down by one position, cyclically: entry `j` takes
/// what stood at `j + 1`, and the last takes the first.
pub fn ceaser_1(c: &mut Vec<usize>)
    requires
        old(c)@.len() >= 1,
    ensures
        final(c)@.len() == old(c)@.len(),
        forall|j: int|
            0 <= j < old(c)@.len() ==> #[trigger] final(c)@[j] == old(c)@[(j + 1) % (old(c)@.len() as int)],
{
    let l = c.len();
    let first = c[0];
    let mut i: usize = 0;
    while i + 1 < l
        invariant
            l == c@.len() == old(c)@.len(),
            l >= 1,
            i < l,
            first == old(c)@[0],
            forall|j: int| 0 <= j < i ==> #[trigger] c@[j] == old(c)@[j + 1],
            forall|j: int| i <= j < l ==> #[trigger] c@[j] == old(c)@[j],
        decreases l - i,
    {
        let next = c[i + 1];
        c.set(i, next);
        i += 1;
    }
    c.set(l - 1, first);
    proof {
        assert forall|j: int| 0 <= j < l implies #[trigger] c@[j] == old(c)@[(j + 1) % (l as int)] by {
            if j + 1 < l {
                vstd::arithmetic::div_mod::lemma_small_mod((j + 1) as nat, l as nat);
            } else {
                vstd::arithmetic::div_mod::lemma_mod_self_0(l as int);
            }
        }
    }
}

proof fn lemma_chi_squared_zero(n: int, observed: Seq<usize>, upto: int)
    requires
        upto <= observed.len(),
    ensures
        chi_squared_upto(n, observed, upto) >= 0,
        chi_squared_upto(n, observed, upto) == 0 ==> forall|j: int|
            0 <= j < upto ==> #[trigger] observed[j] == expected_count(n, j),
        (forall|j: int| 0 <= j < upto ==> #[trigger] observed[j] == expected_count(n, j))
            ==> chi_squared_upto(n, observed, upto) == 0,
    decreases upto,
{
    if upto > 0 {
        lemma_chi_squared_zero(n, observed, upto - 1);
        let d = observed[upto - 1] - expected_count(n, upto - 1);
        assert(d * d >= 0) by (nonlinear_arith);
        assert(d * d == 0 <==> d == 0) by (nonlinear_arith);
    }
}

proof fn lemma_mod26_unshift(j: int, s: int)
    requires
        0 <= j < 26,
        0 <= s < 26,
    ensures
        0 <= (j + s) % 26 < 26,
        ((j + s) % 26 - s) % 26 == j,
{
    if j + s < 26 {
        vstd::arithmetic::div_mod::lemma_fundamental_div_mod_converse(j + s, 26, 0, j + s);
        vstd::arithmetic::div_mod::lemma_fundamental_div_mod_converse(j, 26, 0, j);
    } else {
        vstd::arithmetic::div_mod::lemma_fundamental_div_mod_converse(j + s, 26, 1, j + s - 26);
        vstd::arithmetic::div_mod::lemma_fundamental_div_mod_converse(j - 26, 26, -1, j);
    }
}

/// A Caesar shift of English is recovered exactly: let `observed` be the
/// expected English counts for `n` symbols shifted by `s` (the count of letter
/// `j` is the expected count of letter `j - s`). Provided that these counts
/// single out one most frequent letter and that their own sum gives the same
/// expected counts back, the best shift of `observed` is `s`.
pub proof fn lemma_best_shift_recovers_shift(n: int, s: int, observed: Seq<usize>, r: int)
    requires
        0 <= s < 26,
        observed.len() == 26,
        forall|j: int| 0 <= j < 26 ==> #[trigger] observed[j] == expected_count(n, (j - s) % 26),
        forall|j: int|
            0 <= j < 26 ==> #[trigger] expected_count(total(observed), j) == expected_count(n, j),
        forall|j: int| 0 <= j < 26 && j != 4 ==> #[trigger] expected_count(n, j) < expected_count(n, 4),
        is_best_shift(observed, r),
    ensures
        r == s,
{
    let m = total(observed);
    let at_s = rotated(observed, s);
    assert forall|j: int| 0 <= j < 26 implies #[trigger] at_s[j] == expected_count(m, j) by {
        lemma_mod26_unshift(j, s);
        let i = (j + s) % 26;
        assert(at_s[j] == observed[i]);
        assert(observed[i] == expected_count(n, (i - s) % 26));
    }
    lemma_chi_squared_zero(m, at_s, 26);
    let at_r = rotated(observed, r);
    lemma_chi_squared_zero(m, at_r, 26);
    assert(shift_score(observed, r) <= shift_score(observed, s));
    // the letter that lands on `e` under the shift `r`
    let j = (4 - r + s + 26) % 26;
    assert(0 <= j < 26);
    assert(at_r[j] == expected_count(m, j));
    let i = (j + r) % 26;
    assert((i - s) % 26 == 4) by {
        assert(j == 4 - r + s || j == 4 - r + s + 26 || j == 4 - r + s - 26);
    }
    assert(at_r[j] == observed[i]);
    assert(observed[i] == expected_count(n, 4));
    if j != 4 {
        assert(expected_count(m, j) == expected_count(n, j));
    }
    assert(j == 4);
}

/// The English reference distribution, a fixed table of 26 frequencies.
pub struct LetterFreq {
    freq: Vec<u64>,
}

impl LetterFreq {
    #[verifier::type_invariant]
    spec fn holds_reference(self) -> bool {
        self.freq@ == reference_table()
    }

    /// The reference table.
    pub fn new() -> (r: LetterFreq) {
        let freq = vec![
            82u64, 15, 28, 43, 127, 22, 20, 61, 70, 2, 8, 40, 24, 67, 75, 19, 1, 60, 63, 91, 28,
            10, 23, 1, 20, 1,
        ];
        assert(freq@ =~= reference_table());
        LetterFreq { freq }
    }

    /// Reference frequency of the symbol `c`, in thousandths.
    pub fn lookup_n(&self, c: usize) -> (r: u64)
        requires
            c < 26,
        ensures
            r == reference_table()[c as int],
    {
        proof {
            use_type_invariant(self);
        }
        self.freq[c]
    }

    /// Expected count of each symbol in English text of `n` symbols.
    pub fn get_expected_dist(&self, n: usize) -> (r: Vec<usize>)
        requires
            n <= MAX_CIPHER_LEN,
        ensures
            r@.len() == 26,
            forall|s: int| 0 <= s < 26 ==> #[trigger] r@[s] == expected_count(n as int, s),
            forall|s: int| 0 <= s < 26 ==> #[trigger] r@[s] <= n,
    {
        proof {
            lemma_table_bounds();
        }
        let mut v: Vec<usize> = Vec::new();
        let mut i: usize = 0;
        while i < 26
            invariant
                i <= 26,
                n <= MAX_CIPHER_LEN,
                v@.len() == i,
                forall|s: int| 0 <= s < i ==> #[trigger] v@[s] == expected_count(n as int, s),
                forall|s: int| 0 <= s < i ==> #[trigger] v@[s] <= n,
                forall|s: int| 0 <= s < 26 ==> 1 <= #[trigger] reference_table()[s] <= 127,
            decreases 26 - i,
        {
            let f = self.lookup_n(i);
            assert(f * n <= 127 * 65536) by (nonlinear_arith)
                requires
                    f <= 127,
                    n <= 65536,
            ;
            let e = (f * (n as u64) + 500) / 1000;
            proof {
                reveal(expected_count);
            }
            assert(e <= n) by (nonlinear_arith)
                requires
                    f <= 127,
                    e == (f * n + 500) / 1000,
            ;
            v.push(e as usize);
            i += 1;
        }
        v
    }

    /// Chi-squared distance of `dist` from English text of `n` symbols.
    pub fn get_x2(&self, n: usize, dist: &Vec<usize>) -> (r: u64)
        requires
            n <= MAX_CIPHER_LEN,
            dist@.len() == 26,
            forall|s: int| 0 <= s < 26 ==> #[trigger] dist@[s] <= MAX_CIPHER_LEN,
        ensures
            r == chi_squared(n as int, dist@),
            r <= 26 * 0x1_0000_0000,
    {
        let expected = self.get_expected_dist(n);
        let mut x2: u64 = 0;
        let mut i: usize = 0;
        while i < 26
            invariant
                i <= 26,
                n <= MAX_CIPHER_LEN,
                dist@.len() == 26,
                forall|s: int| 0 <= s < 26 ==> #[trigger] dist@[s] <= MAX_CIPHER_LEN,
                expected@.len() == 26,
                forall|s: int| 0 <= s < 26 ==> #[trigger] expected@[s] == expected_count(n as int, s),
                forall|s: int| 0 <= s < 26 ==> #[trigger] expected@[s] <= n,
                x2 == chi_squared_upto(n as int, dist@, i as int),
                x2 <= i * 0x1_0000_0000,
            decreases 26 - i,
        {
            let a = dist[i];
            let e = expected[i];
            let d: u64 = if a >= e {
                (a - e) as u64
            } else {
                (e - a) as u64
            };
            assert(d * d <= 0x1_0000_0000) by (nonlinear_arith)
                requires
                    d <= 65536,
            ;
            assert(d * d == (a - e) * (a - e)) by (nonlinear_arith)
                requires
                    d == a - e || d == e - a,
            ;
            x2 = x2 + d * d;
            i += 1;
        }
        x2
    }

    /// The Caesar shift that best explains `dist` as shifted English: the
    /// shift whose un-shifted distribution has the least chi-squared distance,
    /// the smallest such shift on ties.
    pub fn get_best_x2_shift(&self, dist: Vec<usize>) -> (r: u8)
        requires
            dist@.len() == 26,
            total(dist@) <= MAX_CIPHER_LEN,
        ensures
            is_best_shift(dist@, r as int),
    {
        let ghost obs = dist@;
        let mut n: usize = 0;
        let mut i: usize = 0;
        while i < 26
            invariant
                i <= 26,
                dist@ == obs,
                obs.len() == 26,
                total(obs) <= MAX_CIPHER_LEN,
                n == total_upto(obs, i as int),
            decreases 26 - i,
        {
            proof {
                lemma_entry_le_total(obs, i + 1, i as int);
            }
            n = n + dist[i];
            i += 1;
        }
        proof {
            assert forall|s: int| 0 <= s < 26 implies #[trigger] obs[s] <= MAX_CIPHER_LEN by {
                lemma_entry_le_total(obs, 26, s);
            }
        }
        let mut rot = dist;
        let mut best_i: u8 = 0;
        let mut best_x2: u64 = u64::MAX;
        let mut s: u8 = 0;
        while s < 26
            invariant
                s <= 26,
                obs.len() == 26,
                n == total(obs),
                n <= MAX_CIPHER_LEN,
                forall|t: int| 0 <= t < 26 ==> #[trigger] obs[t] <= MAX_CIPHER_LEN,
                rot@ == rotated(obs, s as int),
                s == 0 ==> best_x2 == u64::MAX && best_i == 0,
                s > 0 ==> best_i < s && best_x2 == shift_score(obs, best_i as int),
                forall|t: int| 0 <= t < s ==> best_x2 <= #[trigger] shift_score(obs, t),
                forall|t: int| 0 <= t < best_i ==> best_x2 < #[trigger] shift_score(obs, t),
            decreases 26 - s,
        {
            proof {
                assert forall|t: int| 0 <= t < 26 implies #[trigger] rot@[t] <= MAX_CIPHER_LEN by {
                    vstd::arithmetic::div_mod::lemma_mod_bound(t + s, 26);
                }
            }
            let x2 = self.get_x2(n, &rot);
            if x2 < best_x2 {
                best_x2 = x2;
                best_i = s;
            }
            ceaser_1(&mut rot);
            proof {
                assert forall|j: int| 0 <= j < 26 implies #[trigger] rot@[j] == obs[(j + (s + 1)) % 26] by {
                    vstd::arithmetic::div_mod::lemma_add_mod_noop(j + 1, s as int, 26);
                    vstd::arithmetic::div_mod::lemma_mod_twice(j + 1, 26);
                    vstd::arithmetic::div_mod::lemma_small_mod(s as nat, 26);
                }
                assert(rot@ =~= rotated(obs, s + 1));
            }
            s += 1;
        }
        best_i
    }
}

} // verus!
