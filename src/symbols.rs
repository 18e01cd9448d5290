//! Letters as symbols `0..26`, and the Vigenère transforms on symbol sequences.
use vstd::prelude::*;
use crate::error::CryptError;

verus! {

/// Every entry is a symbol in `[0, 26)`.
pub open spec fn is_symbols(s: Seq<u8>) -> bool {
    forall|i: int| 0 <= i < s.len() ==> #[trigger] s[i] < 26
}

/// An upper-case ASCII letter.
pub open spec fn is_upper_letter(c: char) -> bool {
    'A' <= c <= 'Z'
}

/// Every character is an upper-case letter.
pub open spec fn is_upper_text(t: Seq<char>) -> bool {
    forall|i: int| 0 <= i < t.len() ==> is_upper_letter(#[trigger] t[i])
}

/// Symbol of an upper-case letter: `A` is 0, `Z` is 25.
pub open spec fn upper_symbol(c: char) -> u8 {
    (c as int - 65) as u8
}

/// Lower-case letter of a symbol: 0 is `a`, 25 is `z`.
pub open spec fn lower_letter(x: u8) -> char {
    (x + 97) as char
}

/// The symbols of an upper-case text.
pub open spec fn upper_symbols(t: Seq<char>) -> Seq<u8> {
    Seq::new(t.len(), |i: int| upper_symbol(t[i]))
}

/// The lower-case text of a symbol sequence.
pub open spec fn lower_letters(s: Seq<u8>) -> Seq<char> {
    Seq::new(s.len(), |i: int| lower_letter(s[i]))
}

/// Symbol of an upper-case letter.
pub fn to_int_upper(r: char) -> (x: u8)
    requires
        is_upper_letter(r),
    ensures
        x == upper_symbol(r),
        x < 26,
{
    (r as u32 - 65) as u8
}

/// Lower-case letter of a symbol.
pub fn from_int_lower(i: u8) -> (c: char)
    requires
        i < 26,
    ensures
        c == lower_letter(i),
{
    (i + 97) as char
}

/// Relies on std's `FromIterator<char>` for `String`: the string holds the
/// characters in order.
#[verifier::external_body]
fn collect_string(chars: &Vec<char>) -> (r: String)
    ensures
        r@ == chars@,
{
    chars.iter().collect()
}

/// The lower-case text of a symbol sequence.
pub fn int_to_str_lower(c: &Vec<u8>) -> (r: String)
    requires
        is_symbols(c@),
    ensures
        r@ == lower_letters(c@),
{
    let mut v: Vec<char> = Vec::new();
    let mut i: usize = 0;
    while i < c.len()
        invariant
            i <= c@.len(),
            is_symbols(c@),
            v@ == lower_letters(c@).take(i as int),
        decreases c@.len() - i,
    {
        v.push(from_int_lower(c[i]));
        i += 1;
        assert(v@ =~= lower_letters(c@).take(i as int));
    }
    assert(v@ =~= lower_letters(c@));
    collect_string(&v)
}

/// Symbols of an upper-case text; a character that is not an upper-case
/// letter is rejected.
pub fn str_upper_to_int(text: &str) -> (r: Result<Vec<u8>, CryptError>)
    ensures
        r is Ok <==> is_upper_text(text@),
        r matches Ok(v) ==> v@ == upper_symbols(text@) && is_symbols(v@),
        r matches Err(e) ==> e == CryptError::InvalidAlphabetSymbol,
{
    let mut v: Vec<u8> = Vec::new();
    for c in it: text.chars()
        invariant
            it.seq() == text@,
            v@ == upper_symbols(text@).take(it.index() as int),
            is_upper_text(text@.take(it.index() as int)),
    {
        if c < 'A' || c > 'Z' {
            return Err(CryptError::InvalidAlphabetSymbol);
        }
        v.push(to_int_upper(c));
    }
    let ghost i = text@.len();
    assert(v@ =~= upper_symbols(text@));
    assert(text@.take(i as int) =~= text@);
    Ok(v)
}

/// Vigenère decryption: position `i` loses the key symbol at `i mod key.len()`.
pub open spec fn vig_decrypt(c: Seq<u8>, key: Seq<u8>) -> Seq<u8> {
    Seq::new(c.len(), |i: int| ((c[i] - key[i % (key.len() as int)]) % 26) as u8)
}

/// Vigenère encryption: position `i` gains the key symbol at `i mod key.len()`.
pub open spec fn vig_encrypt(p: Seq<u8>, key: Seq<u8>) -> Seq<u8> {
    Seq::new(p.len(), |i: int| ((p[i] + key[i % (key.len() as int)]) % 26) as u8)
}

/// Decrypts the symbols of `c` in place under the repeating `key`.
pub fn de_vig(c: &mut Vec<u8>, key: &Vec<u8>)
    requires
        key@.len() >= 1,
        is_symbols(old(c)@),
        is_symbols(key@),
    ensures
        final(c)@ == vig_decrypt(old(c)@, key@),
        is_symbols(final(c)@),
{
    let l = key.len();
    let mut i: usize = 0;
    while i < c.len()
        invariant
            l == key@.len() >= 1,
            is_symbols(key@),
            c@.len() == old(c)@.len(),
            i <= c@.len(),
            forall|j: int| 0 <= j < i ==> #[trigger] c@[j] == vig_decrypt(old(c)@, key@)[j],
            forall|j: int| i <= j < c@.len() ==> #[trigger] c@[j] == old(c)@[j],
            is_symbols(old(c)@),
        decreases c@.len() - i,
    {
        let k = key[i % l];
        let x = c[i];
        proof {
            vstd::arithmetic::div_mod::lemma_mod_add_multiples_vanish(x - k, 26);
        }
        c.set(i, (x + 26 - k) % 26);
        i += 1;
    }
    assert(c@ =~= vig_decrypt(old(c)@, key@));
}

/// Encrypts the symbols of `p` in place under the repeating `key`.
pub fn en_vig(p: &mut Vec<u8>, key: &Vec<u8>)
    requires
        key@.len() >= 1,
        is_symbols(old(p)@),
        is_symbols(key@),
    ensures
        final(p)@ == vig_encrypt(old(p)@, key@),
        is_symbols(final(p)@),
{
    let l = key.len();
    let mut i: usize = 0;
    while i < p.len()
        invariant
            l == key@.len() >= 1,
            is_symbols(key@),
            p@.len() == old(p)@.len(),
            i <= p@.len(),
            forall|j: int| 0 <= j < i ==> #[trigger] p@[j] == vig_encrypt(old(p)@, key@)[j],
            forall|j: int| i <= j < p@.len() ==> #[trigger] p@[j] == old(p)@[j],
            is_symbols(old(p)@),
        decreases p@.len() - i,
    {
        let k = key[i % l];
        let x = p[i];
        p.set(i, (x + k) % 26);
        i += 1;
    }
    assert(p@ =~= vig_encrypt(old(p)@, key@));
}

/// Decryption and encryption under the same key undo each other: encrypting
/// the decryption of a symbol sequence gives it back, and so does decrypting
/// its encryption.
pub proof fn lemma_vig_round_trip(c: Seq<u8>, key: Seq<u8>)
    requires
        is_symbols(c),
        is_symbols(key),
        key.len() >= 1,
    ensures
        vig_encrypt(vig_decrypt(c, key), key) == c,
        vig_decrypt(vig_encrypt(c, key), key) == c,
{
    let d = vig_decrypt(c, key);
    let e = vig_encrypt(c, key);
    assert forall|i: int| 0 <= i < c.len() implies #[trigger] vig_encrypt(d, key)[i] == c[i] by {
        let k = key[i % (key.len() as int)] as int;
        vstd::arithmetic::div_mod::lemma_mod_bound(i, key.len() as int);
        vstd::arithmetic::div_mod::lemma_add_mod_noop(c[i] - k, k, 26);
        vstd::arithmetic::div_mod::lemma_mod_twice(k, 26);
        vstd::arithmetic::div_mod::lemma_small_mod(k as nat, 26);
        vstd::arithmetic::div_mod::lemma_small_mod(c[i] as nat, 26);
    }
    assert forall|i: int| 0 <= i < c.len() implies #[trigger] vig_decrypt(e, key)[i] == c[i] by {
        let k = key[i % (key.len() as int)] as int;
        vstd::arithmetic::div_mod::lemma_mod_bound(i, key.len() as int);
        vstd::arithmetic::div_mod::lemma_sub_mod_noop(c[i] + k, k, 26);
        vstd::arithmetic::div_mod::lemma_small_mod(k as nat, 26);
        vstd::arithmetic::div_mod::lemma_small_mod(c[i] as nat, 26);
    }
    assert(vig_encrypt(d, key) =~= c);
    assert(vig_decrypt(e, key) =~= c);
}

} // verus!
