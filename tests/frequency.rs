use vigenere_analysis::frequency::{ceaser_1, LetterFreq};

const TABLE: [usize; 26] = [
    82, 15, 28, 43, 127, 22, 20, 61, 70, 2, 8, 40, 24, 67, 75, 19, 1, 60, 63, 91, 28, 10, 23, 1,
    20, 1,
];

#[test]
fn lookup_gives_reference_table() {
    let lf = LetterFreq::new();
    assert_eq!(lf.lookup_n(0), 82);
    assert_eq!(lf.lookup_n(4), 127);
    assert_eq!(lf.lookup_n(25), 1);
}

#[test]
fn expected_dist_rounds_scaled_table() {
    let lf = LetterFreq::new();
    assert_eq!(lf.get_expected_dist(1000), TABLE.to_vec());
    assert_eq!(
        lf.get_expected_dist(100),
        vec![8, 2, 3, 4, 13, 2, 2, 6, 7, 0, 1, 4, 2, 7, 8, 2, 0, 6, 6, 9, 3, 1, 2, 0, 2, 0]
    );
    assert_eq!(lf.get_expected_dist(0), vec![0; 26]);
}

#[test]
fn chi_squared_exact_values() {
    let lf = LetterFreq::new();
    assert_eq!(lf.get_x2(100, &vec![4; 26]), 280);
    assert_eq!(lf.get_x2(1000, &TABLE.to_vec()), 0);
}

#[test]
fn chi_squared_uniform_letter_is_finite() {
    let lf = LetterFreq::new();
    let mut h = vec![0usize; 26];
    h[0] = 40;
    assert_eq!(lf.get_x2(40, &h), 1471);
}

#[test]
fn ceaser_1_rotates_down_by_one() {
    let mut v: Vec<usize> = (0..26).collect();
    ceaser_1(&mut v);
    let mut want: Vec<usize> = (1..26).collect();
    want.push(0);
    assert_eq!(v, want);
}

#[test]
fn best_shift_recovers_every_shift_of_english() {
    let lf = LetterFreq::new();
    let expected = lf.get_expected_dist(1000);
    for s in 0..26usize {
        let observed: Vec<usize> = (0..26).map(|j| expected[(j + 26 - s) % 26]).collect();
        assert_eq!(lf.get_best_x2_shift(observed) as usize, s);
    }
}

#[test]
fn best_shift_of_uniform_letter() {
    let lf = LetterFreq::new();
    let mut h = vec![0usize; 26];
    h[0] = 40;
    assert_eq!(lf.get_best_x2_shift(h), 22);
}

#[test]
fn best_shift_of_empty_distribution_is_zero() {
    let lf = LetterFreq::new();
    assert_eq!(lf.get_best_x2_shift(vec![0; 26]), 0);
}
