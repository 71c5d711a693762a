use resonant_dsp::error::{FftError, FilterError};
use resonant_dsp::lengths::{
    chebyshev_sections, dct_lengths, fir_response_fft_len, half_spectrum_len, irfft_lengths,
    nonempty_length, planned_length, rfft_lengths,
};

#[test]
fn rfft_checks() {
    assert_eq!(rfft_lengths(0, 1), Err(FftError::Empty));
    assert_eq!(rfft_lengths(6, 4), Err(FftError::NotPowerOfTwo(6)));
    assert_eq!(rfft_lengths(8, 3), Err(FftError::LengthMismatch { input: 8, output: 3 }));
    assert_eq!(rfft_lengths(8, 5), Ok(4));
    assert_eq!(rfft_lengths(2, 2), Ok(1));
}

#[test]
fn irfft_checks() {
    assert_eq!(irfft_lengths(0, 0), Err(FftError::Empty));
    assert_eq!(irfft_lengths(1, 0), Err(FftError::Empty));
    assert_eq!(irfft_lengths(5, 6), Err(FftError::LengthMismatch { input: 5, output: 6 }));
    assert_eq!(irfft_lengths(4, 6), Err(FftError::NotPowerOfTwo(6)));
    assert_eq!(irfft_lengths(5, 8), Ok(4));
    assert_eq!(irfft_lengths(2, 2), Ok(1));
}

#[test]
fn half_spectrum() {
    assert_eq!(half_spectrum_len(0), Err(FftError::Empty));
    assert_eq!(half_spectrum_len(4), Ok(3));
    assert_eq!(half_spectrum_len(8), Ok(5));
}

#[test]
fn dct_checks() {
    assert_eq!(dct_lengths(0, 0), Err(FftError::Empty));
    assert_eq!(dct_lengths(4, 3), Err(FftError::LengthMismatch { input: 4, output: 3 }));
    assert_eq!(dct_lengths(4, 4), Ok(()));
}

#[test]
fn plan_checks() {
    assert_eq!(nonempty_length(0), Err(FftError::Empty));
    assert_eq!(nonempty_length(3), Ok(()));
    assert_eq!(planned_length(8, 4), Err(FftError::WrongLength { actual: 8, planned: 4 }));
    assert_eq!(planned_length(4, 4), Ok(()));
}

#[test]
fn chebyshev_orders() {
    for order in [0usize, 1, 3, 21, 22] {
        assert_eq!(chebyshev_sections(order), Err(FilterError::InvalidParameter));
    }
    assert_eq!(chebyshev_sections(2), Ok(1));
    assert_eq!(chebyshev_sections(4), Ok(2));
    assert_eq!(chebyshev_sections(8), Ok(4));
    assert_eq!(chebyshev_sections(20), Ok(10));
}

#[test]
fn fir_response_lengths() {
    assert_eq!(fir_response_fft_len(256, 3), 512);
    assert_eq!(fir_response_fft_len(2, 3), 4);
    assert_eq!(fir_response_fft_len(2, 1), 2);
    assert_eq!(fir_response_fft_len(3, 100), 128);
    assert_eq!(fir_response_fft_len(257, 3), 512);
}
