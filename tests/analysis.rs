use vigenere_analysis::error::CryptError;
use vigenere_analysis::estimator::KeyLengthEstimator;
use vigenere_analysis::friedman::{freidman_1, freidman_2};
use vigenere_analysis::kasiski::kasiski;
use vigenere_analysis::recover::{analyze, solve_vig};
use vigenere_analysis::symbols::{de_vig, en_vig, int_to_str_lower, str_upper_to_int};

const PLAIN: &str = "ITWASTHEBESTOFTIMESITWASTHEWORSTTIMESITWASTHEAGEWISDOMITWASTHEAGEOFITWASTHEEPOCHBELIEFITWASTHEEPOCHOFINCREDULITYITWASTHESEASONOFLIGHTITWASTHESEASONOFDARKNESSITWASTHESPRINGOFHOPEITWASTHEWINTEROFDESPAIRWEHADBEFOREUSWEHADNOTHINGBEFOREUSWEWEREALLGOINGDIRECTTOWEWEREALLGOINGDIRECTTHEOTHERWAYINSHORTTHEPERIODWASSOFARLIKETHEPRESENTPERIODTHATSOMEOFITSNOISIESTAUTHORITIESINSISTEDONITSBEINGRECEIVEDFORORFOREVILINTHESUPERLATIVEDEGREEONLY";

fn lemon_cipher() -> Vec<u8> {
    let mut c = str_upper_to_int(PLAIN).unwrap();
    let key = str_upper_to_int("LEMON").unwrap();
    en_vig(&mut c, &key);
    c
}

fn cipher_text(c: &Vec<u8>) -> String {
    c.iter().map(|&x| (x + b'A') as char).collect()
}

#[test]
fn kasiski_finds_five_letter_key() {
    assert_eq!(kasiski(&lemon_cipher(), 3, 15), Ok(5));
}

#[test]
fn friedman_estimates_near_five() {
    let c = lemon_cipher();
    let a = freidman_1(&c, 3, 15).unwrap();
    let b = freidman_2(&c).unwrap();
    assert!(a >= 4 && a <= 6);
    assert!(b >= 4 && b <= 6);
    assert_eq!(a, 5);
    assert_eq!(b, 6);
}

#[test]
fn friedman_b_exact_values() {
    assert_eq!(freidman_2(&str_upper_to_int(PLAIN).unwrap()), Ok(1));
    assert_eq!(freidman_2(&str_upper_to_int("ABCDEFGHIJKLMNOPQRSTUVWXYZ").unwrap()), Ok(0));
    // coincidence exactly that of uniform text: the estimate is unbounded
    assert_eq!(freidman_2(&str_upper_to_int("AAABCDEFGHIJK").unwrap()), Ok(usize::MAX));
}

#[test]
fn short_text_estimates() {
    let t = str_upper_to_int("ABCABCABCXYZABC").unwrap();
    assert_eq!(kasiski(&t, 2, 6), Ok(3));
    assert_eq!(freidman_1(&t, 2, 6), Ok(4));
    assert_eq!(freidman_2(&t), Ok(0));
}

#[test]
fn degenerate_ranges_are_rejected() {
    let t = str_upper_to_int("ABCABCABCXYZ").unwrap();
    assert_eq!(kasiski(&t, 0, 5), Err(CryptError::DegenerateInput));
    assert_eq!(kasiski(&t, 5, 5), Err(CryptError::DegenerateInput));
    assert_eq!(kasiski(&t, 3, 14), Err(CryptError::DegenerateInput));
    assert_eq!(kasiski(&t, 3, 13), Ok(3));
    assert_eq!(freidman_1(&t, 0, 5), Err(CryptError::DegenerateInput));
    assert_eq!(freidman_1(&t, 3, 8), Err(CryptError::DegenerateInput));
    assert!(freidman_1(&t, 3, 7).is_ok());
    assert_eq!(freidman_2(&vec![3]), Err(CryptError::DegenerateInput));
    assert_eq!(solve_vig(&t, 0), Err(CryptError::DegenerateInput));
    assert_eq!(solve_vig(&t, 13), Err(CryptError::DegenerateInput));
}

#[test]
fn key_recovery_end_to_end() {
    let c = lemon_cipher();
    let (key, plain) = solve_vig(&c, 5).unwrap();
    assert_eq!(int_to_str_lower(&key), "lemon");
    assert_eq!(plain, PLAIN.to_lowercase());
}

#[test]
fn recovered_key_round_trips_to_ciphertext() {
    let c = lemon_cipher();
    let (key, _) = solve_vig(&c, 5).unwrap();
    let mut p = c.clone();
    de_vig(&mut p, &key);
    en_vig(&mut p, &key);
    assert_eq!(p, c);
}

#[test]
fn short_known_ciphertext_is_too_short_for_frequency_recovery() {
    let c = str_upper_to_int("LXFOPVEFRNHR").unwrap();
    let (key, plain) = solve_vig(&c, 5).unwrap();
    assert_eq!(key, vec![0, 0, 0, 0, 0]);
    assert_eq!(plain, "lxfopvefrnhr");
}

#[test]
fn uniform_letter_does_not_break_estimators() {
    let u = str_upper_to_int(&"A".repeat(40)).unwrap();
    assert_eq!(kasiski(&u, 3, 15), Ok(3));
    assert_eq!(freidman_1(&u, 3, 15), Ok(3));
    assert_eq!(freidman_2(&u), Ok(0));
    let (key, _) = solve_vig(&u, 3).unwrap();
    assert_eq!(key.len(), 3);
}

#[test]
fn analysis_prefers_kasiski() {
    let text = cipher_text(&lemon_cipher());
    let a = analyze(&text, 3, 15).unwrap();
    assert_eq!(a.kasiski, 5);
    assert_eq!(a.friedman_a, 5);
    assert_eq!(a.friedman_b, 6);
    assert_eq!(int_to_str_lower(&a.key), "lemon");
    assert_eq!(a.plaintext, PLAIN.to_lowercase());
}

#[test]
fn analysis_rejects_bad_input() {
    assert!(matches!(analyze("abc", 3, 5), Err(CryptError::InvalidAlphabetSymbol)));
    assert!(matches!(analyze("ABCDEFG", 3, 6), Err(CryptError::DegenerateInput)));
}

#[test]
fn estimators_behind_one_interface() {
    let c = lemon_cipher();
    assert_eq!(KeyLengthEstimator::Kasiski.estimate(&c, 3, 15), Ok(5));
    assert_eq!(KeyLengthEstimator::FriedmanA.estimate(&c, 3, 15), Ok(5));
    assert_eq!(KeyLengthEstimator::FriedmanB.estimate(&c, 3, 15), Ok(6));
}
