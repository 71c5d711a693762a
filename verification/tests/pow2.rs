use resonant_dsp::error::FftError;
use resonant_dsp::pow2::{is_pow2, next_power_of_two, validate_length};

#[test]
fn validate_length_empty_is_error() {
    assert_eq!(validate_length(0), Err(FftError::Empty));
}

#[test]
fn validate_length_non_power_of_two() {
    for n in [3usize, 5, 6, 7, 1000] {
        assert_eq!(validate_length(n), Err(FftError::NotPowerOfTwo(n)));
    }
}

#[test]
fn validate_length_powers_give_log2() {
    assert_eq!(validate_length(1), Ok(0));
    assert_eq!(validate_length(2), Ok(1));
    assert_eq!(validate_length(8), Ok(3));
    assert_eq!(validate_length(256), Ok(8));
    assert_eq!(validate_length(1 << 40), Ok(40));
}

#[test]
fn is_pow2_matches_std() {
    for n in 0usize..300 {
        assert_eq!(is_pow2(n), n.is_power_of_two(), "n = {n}");
    }
}

#[test]
fn next_power_of_two_matches_std() {
    for x in 0usize..300 {
        assert_eq!(next_power_of_two(x), x.next_power_of_two(), "x = {x}");
    }
}
