use vigenere_analysis::modular::{modb, modb_inv, modb_n};

#[test]
fn modb_reduces_negative_values() {
    assert_eq!(modb(-1), 25);
    assert_eq!(modb(-26), 0);
    assert_eq!(modb(-27), 25);
    assert_eq!(modb(-1000), 14);
    assert_eq!(modb(52), 0);
    assert_eq!(modb(77), 25);
}

#[test]
fn modb_handles_extreme_values() {
    assert_eq!(modb(isize::MIN), (isize::MIN as i128).rem_euclid(26) as isize);
    assert_eq!(modb(isize::MAX), (isize::MAX as i128).rem_euclid(26) as isize);
}

#[test]
fn modb_n_other_moduli() {
    assert_eq!(modb_n(-7, 5), 3);
    assert_eq!(modb_n(7, 5), 2);
    assert_eq!(modb_n(-3, 2), 1);
    assert_eq!(modb_n(5, 1), 0);
}

#[test]
fn reduce_fixes_symbols() {
    for s in 0..26 {
        assert_eq!(modb(s), s);
    }
}

#[test]
fn reduce_is_periodic_and_in_range() {
    for x in -200isize..200 {
        let r = modb(x);
        assert_eq!(r, modb(x + 26));
        assert!(0 <= r && r < 26);
    }
}

#[test]
fn inverse_of_units() {
    assert_eq!(modb_inv(3), 9);
    assert_eq!(modb_inv(1), 1);
    assert_eq!(modb_inv(25), 25);
    assert_eq!(modb_inv(-1), 25);
    for x in -60isize..60 {
        let j = modb_inv(x);
        if j != -1 {
            assert_eq!(modb(x * j), 1);
        }
    }
}

#[test]
fn non_units_have_no_inverse() {
    for x in [0isize, 2, 4, 13, 26, 39, -2, -13] {
        assert_eq!(modb_inv(x), -1);
    }
    for x in -60isize..60 {
        let unit = x % 2 != 0 && x % 13 != 0;
        assert_eq!(modb_inv(x) != -1, unit);
    }
}
