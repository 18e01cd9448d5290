use vigenere_analysis::error::CryptError;
use vigenere_analysis::symbols::{
    de_vig, en_vig, from_int_lower, int_to_str_lower, str_upper_to_int, to_int_upper,
};

#[test]
fn letters_and_symbols() {
    assert_eq!(to_int_upper('A'), 0);
    assert_eq!(to_int_upper('Z'), 25);
    assert_eq!(from_int_lower(0), 'a');
    assert_eq!(from_int_lower(25), 'z');
}

#[test]
fn upper_text_to_symbols() {
    assert_eq!(str_upper_to_int("ABZ"), Ok(vec![0, 1, 25]));
    assert_eq!(str_upper_to_int(""), Ok(vec![]));
}

#[test]
fn other_characters_are_rejected() {
    assert_eq!(str_upper_to_int("AbC"), Err(CryptError::InvalidAlphabetSymbol));
    assert_eq!(str_upper_to_int("A C"), Err(CryptError::InvalidAlphabetSymbol));
    assert_eq!(str_upper_to_int("AÄ"), Err(CryptError::InvalidAlphabetSymbol));
    assert_eq!(str_upper_to_int("@"), Err(CryptError::InvalidAlphabetSymbol));
    assert_eq!(str_upper_to_int("["), Err(CryptError::InvalidAlphabetSymbol));
}

#[test]
fn symbols_to_lower_text() {
    assert_eq!(int_to_str_lower(&vec![7, 4, 11, 11, 14]), "hello");
    assert_eq!(int_to_str_lower(&vec![]), "");
}

#[test]
fn vigenere_forward_transform() {
    let mut p = str_upper_to_int("ATTACKATDAWN").unwrap();
    let key = str_upper_to_int("LEMON").unwrap();
    en_vig(&mut p, &key);
    assert_eq!(p, str_upper_to_int("LXFOPVEFRNHR").unwrap());
}

#[test]
fn vigenere_decryption_with_known_key() {
    let mut c = str_upper_to_int("LXFOPVEFRNHR").unwrap();
    let key = str_upper_to_int("LEMON").unwrap();
    de_vig(&mut c, &key);
    assert_eq!(int_to_str_lower(&c), "attackatdawn");
}

#[test]
fn decrypt_then_encrypt_round_trip() {
    let original = str_upper_to_int("LXFOPVEFRNHRZZAQ").unwrap();
    let key = str_upper_to_int("KEY").unwrap();
    let mut v = original.clone();
    de_vig(&mut v, &key);
    assert_ne!(v, original);
    en_vig(&mut v, &key);
    assert_eq!(v, original);
}
