use resonant_dsp::error::{FftError, FilterError};
use resonant_dsp::lengths::{
    chebyshev_sections, dct_lengths, half_spectrum_len, irfft_lengths, nonempty_length,
    planned_length, rfft_lengths,
};
use resonant_dsp::pow2::validate_length;

#[test]
fn radix2_fft_empty_returns_error() {
    assert_eq!(validate_length(0), Err(FftError::Empty));
}

#[test]
fn fft_non_power_of_two_returns_error() {
    for n in [3usize, 5, 6, 7] {
        assert_eq!(validate_length(n), Err(FftError::NotPowerOfTwo(n)));
    }
}

#[test]
fn radix2_ifft_empty_returns_error() {
    assert_eq!(validate_length(0), Err(FftError::Empty));
}

#[test]
fn ifft_non_power_of_two_returns_error() {
    assert_eq!(validate_length(5), Err(FftError::NotPowerOfTwo(5)));
}

#[test]
fn error_on_non_power_of_two() {
    assert_eq!(validate_length(3), Err(FftError::NotPowerOfTwo(3)));
    assert_eq!(validate_length(6), Err(FftError::NotPowerOfTwo(6)));
}

#[test]
fn error_on_empty() {
    assert_eq!(validate_length(0), Err(FftError::Empty));
}

#[test]
fn rfft_empty_returns_error() {
    assert_eq!(rfft_lengths(0, 1), Err(FftError::Empty));
}

#[test]
fn rfft_non_power_of_two_returns_error() {
    assert_eq!(rfft_lengths(6, 4), Err(FftError::NotPowerOfTwo(6)));
}

#[test]
fn rfft_wrong_output_length_returns_error() {
    assert!(matches!(rfft_lengths(8, 3), Err(FftError::LengthMismatch { .. })));
}

#[test]
fn irfft_empty_returns_error() {
    assert_eq!(irfft_lengths(0, 0), Err(FftError::Empty));
    assert_eq!(irfft_lengths(1, 0), Err(FftError::Empty));
}

#[test]
fn irfft_wrong_output_length_returns_error() {
    assert!(matches!(irfft_lengths(5, 6), Err(FftError::LengthMismatch { .. })));
}

#[test]
fn dct_ii_empty_returns_error() {
    assert_eq!(dct_lengths(0, 0), Err(FftError::Empty));
}

#[test]
fn dct_ii_length_mismatch() {
    assert_eq!(dct_lengths(4, 3), Err(FftError::LengthMismatch { input: 4, output: 3 }));
}

#[test]
fn dct_iii_empty_returns_error() {
    assert_eq!(dct_lengths(0, 0), Err(FftError::Empty));
}

#[test]
fn rustfft_backend_fft_empty_returns_error() {
    assert_eq!(nonempty_length(0), Err(FftError::Empty));
}

#[test]
fn rustfft_backend_ifft_empty_returns_error() {
    assert_eq!(nonempty_length(0), Err(FftError::Empty));
}

#[test]
fn plan_wrong_length() {
    let expected = FftError::WrongLength { actual: 8, planned: 4 };
    assert_eq!(planned_length(8, 4), Err(expected));
}

#[test]
fn ext_fft_empty_returns_error() {
    assert_eq!(nonempty_length(0), Err(FftError::Empty));
}

#[test]
fn fft_empty_signal_returns_error() {
    assert_eq!(nonempty_length(0), Err(FftError::Empty));
}

#[test]
fn rfft_ext_returns_half_spectrum() {
    assert_eq!(half_spectrum_len(4), Ok(3));
}

#[test]
fn rfft_ext_empty_returns_error() {
    assert_eq!(half_spectrum_len(0), Err(FftError::Empty));
}

#[test]
fn chebyshev_cheby1_lp_invalid_order() {
    for order in [0usize, 1, 3, 22] {
        assert!(chebyshev_sections(order).is_err());
    }
}

#[test]
fn design_cheby1_lp_invalid_order() {
    for order in [0usize, 1, 3, 22] {
        assert_eq!(chebyshev_sections(order), Err(FilterError::InvalidParameter));
    }
}

#[test]
fn chebyshev_cheby1_lp_section_count() {
    assert_eq!(chebyshev_sections(2), Ok(1));
    assert_eq!(chebyshev_sections(4), Ok(2));
    assert_eq!(chebyshev_sections(8), Ok(4));
}

#[test]
fn design_cheby1_lp_section_count() {
    assert_eq!(chebyshev_sections(2), Ok(1));
    assert_eq!(chebyshev_sections(4), Ok(2));
    assert_eq!(chebyshev_sections(8), Ok(4));
}

#[test]
fn chebyshev_cheby2_lp_section_count() {
    assert_eq!(chebyshev_sections(4), Ok(2));
    assert_eq!(chebyshev_sections(6), Ok(3));
}

#[test]
fn design_cheby2_lp_section_count() {
    assert_eq!(chebyshev_sections(4), Ok(2));
    assert_eq!(chebyshev_sections(6), Ok(3));
}
