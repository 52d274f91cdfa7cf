use cellular_automata::ic::{compute_ic, compute_ic_with_fill, first_row_ic};
use cellular_automata::sim::PaddingFill;

#[test]
fn compute_ic_all_zero_returns_zero() {
    assert_eq!(compute_ic(&[0, 0, 0, 0, 0]), "0");
    assert_eq!(compute_ic(&[]), "0");
}

#[test]
fn compute_ic_single_one() {
    assert_eq!(compute_ic(&[0, 0, 1, 0, 0]), "1");
    assert_eq!(compute_ic(&[1]), "1");
}

#[test]
fn compute_ic_binary_to_decimal() {
    assert_eq!(compute_ic(&[0, 1, 1, 0]), "3");
    assert_eq!(compute_ic(&[1, 0, 1, 1]), "11");
    assert_eq!(compute_ic(&[0, 0, 1, 1, 0, 0]), "3");
}

#[test]
fn compute_ic_padded_seed_strips_leading_trailing_zeros() {
    assert_eq!(compute_ic(&[0, 0, 1, 0, 1, 0, 0]), "5");
}

#[test]
fn compute_ic_large_value() {
    let row = vec![1u8; 8];
    assert_eq!(compute_ic(&row), "255");
    let r2 = vec![1u8, 0, 0, 0, 0, 0, 0, 0];
    assert_eq!(compute_ic(&r2), "1");
    let r3 = vec![1u8, 0, 0, 0, 0, 0, 0, 1];
    assert_eq!(compute_ic(&r3), "129");
}

#[test]
fn compute_ic_with_fill_one_nots_the_row() {
    assert_eq!(compute_ic_with_fill(&[1, 1, 0, 1, 1], PaddingFill::One), "1");
    assert_eq!(compute_ic_with_fill(&[1, 1, 1], PaddingFill::One), "0");
    assert_eq!(compute_ic_with_fill(&[0, 1, 1, 0], PaddingFill::Zero), "3");
}

#[test]
fn compute_ic_reads_only_the_low_bit() {
    assert_eq!(compute_ic(&[2, 3, 4, 1]), "5");
}

#[test]
fn compute_ic_of_a_wide_row_exceeds_u64() {
    // Seventy ones: 2^70 - 1.
    let row = vec![1u8; 70];
    assert_eq!(compute_ic(&row), "1180591620717411303423");
}

#[test]
fn first_row_ic_uses_the_first_row_only() {
    let rows = [0u8, 1, 1, 0, 1, 1, 1, 1];
    assert_eq!(first_row_ic(&rows, 4, PaddingFill::Zero), "3");
    assert_eq!(first_row_ic(&rows, 4, PaddingFill::One), "9");
    assert_eq!(first_row_ic(&rows, 0, PaddingFill::Zero), "0");
    assert_eq!(first_row_ic(&[], 4, PaddingFill::One), "0");
}
