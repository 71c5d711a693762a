use vstd::prelude::*;

use crate::error::{FftError, FilterError};
use crate::pow2::{is_power_of_two, validate_length, is_pow2, next_power_of_two};

verus! {

/// Checks the buffers of a real-input forward FFT of `n` samples into
/// `out_len` bins, returning the half length `n / 2`.
///
/// `n` must be a non-zero power of two and `out_len` must be `n / 2 + 1`.
pub fn rfft_lengths(n: usize, out_len: usize) -> (r: Result<usize, FftError>)
    ensures
        n == 0 ==> r == Err::<usize, FftError>(FftError::Empty),
        n > 0 && !is_power_of_two(n as nat) ==> r == Err::<usize, FftError>(FftError::NotPowerOfTwo(n)),
        is_power_of_two(n as nat) && out_len != n / 2 + 1 ==> r == Err::<usize, FftError>(
            FftError::LengthMismatch { input: n, output: out_len }),
        is_power_of_two(n as nat) && out_len == n / 2 + 1 ==> r == Ok::<usize, FftError>(n / 2),
{
    match validate_length(n) {
        Err(e) => Err(e),
        Ok(_) => {
            let m = n / 2;
            if out_len != m + 1 {
                Err(FftError::LengthMismatch { input: n, output: out_len })
            } else {
                Ok(m)
            }
        },
    }
}

/// Checks the buffers of an inverse real-input FFT from `in_len` bins into
/// `out_len` samples, returning the half length `in_len - 1`.
///
/// At least two bins are needed, `out_len` must be `2 * (in_len - 1)`, and
/// that length must be a power of two.
pub fn irfft_lengths(in_len: usize, out_len: usize) -> (r: Result<usize, FftError>)
    requires
        in_len <= usize::MAX / 2 + 1,
    ensures
        in_len < 2 ==> r == Err::<usize, FftError>(FftError::Empty),
        in_len >= 2 && out_len != 2 * (in_len - 1) ==> r == Err::<usize, FftError>(
            FftError::LengthMismatch { input: in_len, output: out_len }),
        in_len >= 2 && out_len == 2 * (in_len - 1) && !is_power_of_two(out_len as nat)
            ==> r == Err::<usize, FftError>(FftError::NotPowerOfTwo(out_len)),
        in_len >= 2 && out_len == 2 * (in_len - 1) && is_power_of_two(out_len as nat)
            ==> r == Ok::<usize, FftError>((in_len - 1) as usize),
{
    if in_len < 2 {
        return Err(FftError::Empty);
    }
    let m = in_len - 1;
    let n = m * 2;
    if out_len != n {
        return Err(FftError::LengthMismatch { input: in_len, output: out_len });
    }
    if !is_pow2(n) {
        return Err(FftError::NotPowerOfTwo(n));
    }
    Ok(m)
}

/// Length of the half spectrum that a real-input FFT of `n` samples yields:
/// `n / 2 + 1` bins; an empty input is an error.
pub fn half_spectrum_len(n: usize) -> (r: Result<usize, FftError>)
    ensures
        n == 0 <==> r == Err::<usize, FftError>(FftError::Empty),
        n > 0 ==> (r matches Ok(b) && b == n / 2 + 1),
{
    if n == 0 {
        Err(FftError::Empty)
    } else {
        Ok(n / 2 + 1)
    }
}

/// Checks the buffers of a DCT: both of the same non-zero length.
pub fn dct_lengths(in_len: usize, out_len: usize) -> (r: Result<(), FftError>)
    ensures
        in_len == 0 ==> r == Err::<(), FftError>(FftError::Empty),
        in_len > 0 && in_len != out_len ==> r == Err::<(), FftError>(
            FftError::LengthMismatch { input: in_len, output: out_len }),
        in_len > 0 && in_len == out_len ==> r == Ok::<(), FftError>(()),
{
    if in_len == 0 {
        return Err(FftError::Empty);
    }
    if in_len != out_len {
        return Err(FftError::LengthMismatch { input: in_len, output: out_len });
    }
    Ok(())
}

/// An arbitrary-length FFT accepts any non-empty buffer.
pub fn nonempty_length(len: usize) -> (r: Result<(), FftError>)
    ensures
        len == 0 <==> r == Err::<(), FftError>(FftError::Empty),
        len > 0 <==> r == Ok::<(), FftError>(()),
{
    if len == 0 {
        Err(FftError::Empty)
    } else {
        Ok(())
    }
}

/// A planned FFT accepts only buffers of exactly the planned length.
pub fn planned_length(actual: usize, planned: usize) -> (r: Result<(), FftError>)
    ensures
        actual != planned <==> r == Err::<(), FftError>(FftError::WrongLength { actual, planned }),
        actual == planned <==> r == Ok::<(), FftError>(()),
{
    if actual != planned {
        Err(FftError::WrongLength { actual, planned })
    } else {
        Ok(())
    }
}

/// A Chebyshev design of the given order is a cascade of `order / 2`
/// second-order sections; the order must be even and between 2 and 20.
pub fn chebyshev_sections(order: usize) -> (r: Result<usize, FilterError>)
    ensures
        (2 <= order <= 20 && order % 2 == 0) <==> r == Ok::<usize, FilterError>(order / 2),
        !(2 <= order <= 20 && order % 2 == 0) <==> r == Err::<usize, FilterError>(FilterError::InvalidParameter),
{
    if order < 2 || order > 20 || order % 2 != 0 {
        Err(FilterError::InvalidParameter)
    } else {
        Ok(order / 2)
    }
}

/// FFT length used to sample an FIR filter's response at `n_points`
/// frequencies: the smallest power of two that is at least both
/// `2 * (n_points - 1)` and the number of taps.
pub fn fir_response_fft_len(n_points: usize, n_taps: usize) -> (r: usize)
    requires
        n_points >= 2,
        n_taps >= 1,
        (n_points - 1) * 2 <= usize::MAX / 2 + 1,
        n_taps <= usize::MAX / 2 + 1,
    ensures
        is_power_of_two(r as nat),
        r >= (n_points - 1) * 2,
        r >= n_taps,
        r == 1 || r / 2 < (n_points - 1) * 2 || r / 2 < n_taps,
{
    let min_fft_len = (n_points - 1) * 2;
    let a = next_power_of_two(min_fft_len);
    let b = next_power_of_two(n_taps);
    if a >= b {
        a
    } else {
        b
    }
}

} // verus!
