use resonant_dsp::error::FftError;
use resonant_dsp::vocoder::{nearest_peaks, vocoder_bins};

#[test]
fn new_power_of_two_succeeds() {
    assert!(vocoder_bins(1024).is_ok());
    assert!(vocoder_bins(64).is_ok());
    assert!(vocoder_bins(4).is_ok());
}

#[test]
fn new_non_power_of_two_returns_error() {
    assert_eq!(vocoder_bins(1000), Err(FftError::NotPowerOfTwo(1000)));
    assert_eq!(vocoder_bins(3), Err(FftError::NotPowerOfTwo(3)));
}

#[test]
fn new_zero_fft_size_returns_error() {
    assert_eq!(vocoder_bins(0), Err(FftError::NotPowerOfTwo(0)));
}

#[test]
fn bins_for_power_of_two() {
    assert_eq!(vocoder_bins(1024), Ok(513));
    assert_eq!(vocoder_bins(4), Ok(3));
    assert_eq!(vocoder_bins(1), Ok(1));
}

#[test]
fn no_peaks_gives_none() {
    assert_eq!(nearest_peaks(&vec![false, false, false]), None);
    assert_eq!(nearest_peaks(&vec![]), None);
}

#[test]
fn single_peak_everywhere() {
    assert_eq!(nearest_peaks(&vec![false, false, true, false]), Some(vec![2, 2, 2, 2]));
}

#[test]
fn ties_go_to_lower_peak() {
    let peaks = vec![true, false, false, false, true];
    assert_eq!(nearest_peaks(&peaks), Some(vec![0, 0, 0, 4, 4]));
    let peaks = vec![false, true, false, true, false, false, false, true];
    assert_eq!(nearest_peaks(&peaks), Some(vec![1, 1, 1, 3, 3, 3, 7, 7]));
}
