//! Reduction of signed integers into `[0, m)` and the inverse search mod 26.
use vstd::prelude::*;

verus! {

/// Size of the alphabet.
pub const ALPHABET_LEN: usize = 26;

/// The floor-modulo residue of `x` in `[0, m)` (for `m > 0`).
pub open spec fn reduce(x: int, m: int) -> int {
    x % m
}

/// The residue of `x` modulo 26.
pub open spec fn reduce26(x: int) -> int {
    reduce(x, 26)
}

proof fn lemma_negative_residue(x: int, y: int, m: int)
    requires
        m > 0,
        y >= 0,
        x == -(y + 1),
    ensures
        x % m == m - 1 - y % m,
{
    let q = y / m;
    let r = y % m;
    vstd::arithmetic::div_mod::lemma_fundamental_div_mod(y, m);
    assert(x == (-(q + 1)) * m + (m - 1 - r)) by (nonlinear_arith)
        requires
            y == m * q + r,
            x == -(y + 1),
    ;
    vstd::arithmetic::div_mod::lemma_fundamental_div_mod_converse(x, m, -(q + 1), m - 1 - r);
}

/// Reduces `x` into `[0, m)`: the representative of `x` modulo `m`, also for
/// arbitrarily negative `x`.
pub fn modb_n(x: isize, m: usize) -> (r: isize)
    requires
        0 < m <= isize::MAX,
    ensures
        r == reduce(x as int, m as int),
        0 <= r < m,
{
    if x >= 0 {
        let r = (x as usize) % m;
        r as isize
    } else {
        // x == -(y + 1) with y >= 0, which cannot overflow
        let y: usize = (-(x + 1)) as usize;
        let r = y % m;
        proof {
            lemma_negative_residue(x as int, y as int, m as int);
        }
        (m - 1 - r) as isize
    }
}

/// Reduces `x` modulo the alphabet size.
pub fn modb(x: isize) -> (r: isize)
    ensures
        r == reduce26(x as int),
        0 <= r < 26,
{
    modb_n(x, ALPHABET_LEN)
}

/// Reducing a value that is already a symbol in `[0, 26)` leaves it unchanged.
pub proof fn lemma_reduce26_fixes_symbols(s: int)
    requires
        0 <= s < 26,
    ensures
        reduce26(s) == s,
{
}

/// Reduction modulo 26 is periodic with period 26 and always lands in `[0, 26)`.
pub proof fn lemma_reduce26_periodic(x: int)
    ensures
        reduce26(x) == reduce26(x + 26),
        0 <= reduce26(x) < 26,
{
    vstd::arithmetic::div_mod::lemma_mod_add_multiples_vanish(x, 26);
}

/// The first `j` in `[from, 26)` with `r * j ≡ 1 (mod 26)`, or `-1` when there is none.
pub open spec fn first_inverse_from(r: int, from: int) -> int
    decreases 26 - from,
{
    if from >= 26 || from < 0 {
        -1
    } else if reduce26(r * from) == 1 {
        from
    } else {
        first_inverse_from(r, from + 1)
    }
}

/// The multiplicative inverse of `x` modulo 26 as found by searching `j = 0, 1, ..., 25`,
/// or `-1` when `x` has none.
pub open spec fn inverse26(x: int) -> int {
    first_inverse_from(reduce26(x), 0)
}

/// Finds the inverse of `x` modulo 26, returning `-1` when `x` has none.
pub fn modb_inv(x: isize) -> (r: isize)
    ensures
        r == inverse26(x as int),
{
    let xr = modb(x);
    let mut j: isize = 0;
    while j < 26
        invariant
            0 <= j <= 26,
            0 <= xr < 26,
            inverse26(x as int) == first_inverse_from(xr as int, j as int),
        decreases 26 - j,
    {
        assert(0 <= xr * j <= 25 * 25) by (nonlinear_arith)
            requires
                0 <= xr < 26,
                0 <= j < 26,
        ;
        if modb(xr * j) == 1 {
            return j;
        }
        j += 1;
    }
    -1
}

proof fn lemma_first_inverse_from(r: int, from: int)
    requires
        0 <= from <= 26,
    ensures
        first_inverse_from(r, from) == -1 ==> forall|t: int|
            from <= t < 26 ==> reduce26(#[trigger] (r * t)) != 1,
        first_inverse_from(r, from) != -1 ==> {
            let j = first_inverse_from(r, from);
            from <= j < 26 && reduce26(r * j) == 1
        },
    decreases 26 - from,
{
    if from < 26 && reduce26(r * from) != 1 {
        lemma_first_inverse_from(r, from + 1);
    }
}

/// Modular inverses mod 26: where `inverse26(x)` exists it is a residue whose
/// product with `x` reduces to 1, and it exists exactly when `x` is neither even
/// nor a multiple of 13.
pub proof fn lemma_inverse26(x: int)
    ensures
        inverse26(x) != -1 ==> 0 <= inverse26(x) < 26 && reduce26(x * inverse26(x)) == 1,
        inverse26(x) == -1 <==> (x % 2 == 0 || x % 13 == 0),
{
    let r = reduce26(x);
    lemma_first_inverse_from(r, 0);
    vstd::arithmetic::div_mod::lemma_mod_mod(x, 2, 13);
    vstd::arithmetic::div_mod::lemma_mod_mod(x, 13, 2);
    assert(r % 2 == x % 2 && r % 13 == x % 13);
    let j = inverse26(x);
    if j != -1 {
        vstd::arithmetic::div_mod::lemma_mul_mod_noop_left(x, j, 26);
        // an inverse rules out the factors 2 and 13 of the modulus
        let q = (r * j) / 26;
        vstd::arithmetic::div_mod::lemma_fundamental_div_mod(r * j, 26);
        if r % 2 == 0 {
            vstd::arithmetic::div_mod::lemma_fundamental_div_mod(r, 2);
            let s = r / 2;
            vstd::arithmetic::mul::lemma_mul_is_associative(2, s, j);
            assert(r * j == 2 * (s * j));
        }
        if r % 13 == 0 {
            vstd::arithmetic::div_mod::lemma_fundamental_div_mod(r, 13);
            let s = r / 13;
            vstd::arithmetic::mul::lemma_mul_is_associative(13, s, j);
            assert(r * j == 13 * (s * j));
        }
    } else if x % 2 != 0 && x % 13 != 0 {
        assert(0 <= r < 26);
        let w: int = if r == 1 {
            1
        } else if r == 3 {
            9
        } else if r == 5 {
            21
        } else if r == 7 {
            15
        } else if r == 9 {
            3
        } else if r == 11 {
            19
        } else if r == 15 {
            7
        } else if r == 17 {
            23
        } else if r == 19 {
            11
        } else if r == 21 {
            5
        } else if r == 23 {
            17
        } else {
            25
        };
        assert(reduce26(r * w) == 1);
    }
}

} // verus!
