use vstd::prelude::*;

use crate::error::FftError;
use crate::pow2::{is_power_of_two, is_pow2};

verus! {

/// Number of positive-frequency bins a phase vocoder with FFT size
/// `fft_size` works on. The FFT size must be a non-zero power of two.
pub fn vocoder_bins(fft_size: usize) -> (r: Result<usize, FftError>)
    ensures
        !is_power_of_two(fft_size as nat) <==> r == Err::<usize, FftError>(FftError::NotPowerOfTwo(fft_size)),
        is_power_of_two(fft_size as nat) ==> (r matches Ok(b) && b == fft_size / 2 + 1),
{
    if !is_pow2(fft_size) {
        return Err(FftError::NotPowerOfTwo(fft_size));
    }
    Ok(fft_size / 2 + 1)
}

/// Distance between two bin indices.
pub open spec fn dist(a: int, b: int) -> int {
    if a >= b {
        a - b
    } else {
        b - a
    }
}

/// `p` is the peak nearest to bin `k` among the bins marked in `peaks`; of
/// two equally near peaks, the lower one.
pub open spec fn is_nearest_peak(peaks: Seq<bool>, k: int, p: int) -> bool {
    &&& 0 <= p < peaks.len()
    &&& peaks[p]
    &&& forall|q: int| 0 <= q < peaks.len() && #[trigger] peaks[q] ==> dist(k, p) <= dist(k, q)
    &&& forall|q: int| 0 <= q < peaks.len() && #[trigger] peaks[q] && dist(k, q) == dist(k, p) ==> p <= q
}

/// For every bin, the nearest marked peak (ties go to the lower bin), or
/// `None` if no bin is marked.
pub fn nearest_peaks(is_peak: &Vec<bool>) -> (r: Option<Vec<usize>>)
    ensures
        r is None <==> (forall|q: int| 0 <= q < is_peak@.len() ==> !#[trigger] is_peak@[q]),
        r matches Some(v) ==> {
            &&& v@.len() == is_peak@.len()
            &&& forall|k: int| 0 <= k < v@.len() ==> #[trigger] is_nearest_peak(is_peak@, k, v@[k] as int)
        },
{
    let n = is_peak.len();
    let ghost s = is_peak@;

    // Nearest peak at or below each bin.
    let mut left: Vec<Option<usize>> = Vec::new();
    let mut last: Option<usize> = None;
    let mut k: usize = 0;
    while k < n
        invariant
            k <= n,
            n == s.len(),
            s == is_peak@,
            left@.len() == k,
            last matches Some(l) ==> l < k && s[l as int] && forall|q: int| l < q < k ==> !#[trigger] s[q],
            last is None ==> forall|q: int| 0 <= q < k ==> !#[trigger] s[q],
            forall|j: int| 0 <= j < k ==> match #[trigger] left@[j] {
                Some(l) => l <= j && s[l as int] && forall|q: int| l < q <= j ==> !#[trigger] s[q],
                None => forall|q: int| 0 <= q <= j ==> !#[trigger] s[q],
            },
        decreases n - k,
    {
        if is_peak[k] {
            last = Some(k);
        }
        left.push(last);
        k = k + 1;
    }
    let any_peak = last.is_some();
    if !any_peak {
        return None;
    }

    // Nearest peak at or above each bin, filled from the top down.
    let mut right_rev: Vec<Option<usize>> = Vec::new();
    let mut next: Option<usize> = None;
    let mut m: usize = n;
    while m > 0
        invariant
            m <= n,
            n == s.len(),
            s == is_peak@,
            right_rev@.len() == n - m,
            next matches Some(r) ==> m <= r < n && s[r as int] && forall|q: int| m <= q < r ==> !#[trigger] s[q],
            next is None ==> forall|q: int| m <= q < n ==> !#[trigger] s[q],
            forall|i: int| 0 <= i < n - m ==> match #[trigger] right_rev@[i] {
                Some(r) => n - 1 - i <= r < n && s[r as int] && forall|q: int| n - 1 - i <= q < r ==> !#[trigger] s[q],
                None => forall|q: int| n - 1 - i <= q < n ==> !#[trigger] s[q],
            },
        decreases m,
    {
        m = m - 1;
        if is_peak[m] {
            next = Some(m);
        }
        right_rev.push(next);
    }

    let mut out: Vec<usize> = Vec::new();
    let mut k: usize = 0;
    while k < n
        invariant
            k <= n,
            n == s.len(),
            s == is_peak@,
            left@.len() == n,
            right_rev@.len() == n,
            exists|p: int| 0 <= p < n && s[p],
            forall|j: int| 0 <= j < n ==> match #[trigger] left@[j] {
                Some(l) => l <= j && s[l as int] && forall|q: int| l < q <= j ==> !#[trigger] s[q],
                None => forall|q: int| 0 <= q <= j ==> !#[trigger] s[q],
            },
            forall|i: int| 0 <= i < n ==> match #[trigger] right_rev@[i] {
                Some(r) => n - 1 - i <= r < n && s[r as int] && forall|q: int| n - 1 - i <= q < r ==> !#[trigger] s[q],
                None => forall|q: int| n - 1 - i <= q < n ==> !#[trigger] s[q],
            },
            out@.len() == k,
            forall|j: int| 0 <= j < k ==> #[trigger] is_nearest_peak(s, j, out@[j] as int),
        decreases n - k,
    {
        let lk = left[k];
        let rk = right_rev[n - 1 - k];
        assert(right_rev@[n - 1 - k] == rk);
        let nearest = match (lk, rk) {
            (Some(l), Some(r)) => {
                if k - l <= r - k {
                    l
                } else {
                    r
                }
            },
            (Some(l), None) => l,
            (None, Some(r)) => r,
            (None, None) => {
                proof {
                    let p = choose|p: int| 0 <= p < n && s[p];
                    if p <= k {
                        assert(!s[p]);
                    } else {
                        assert(!s[p]);
                    }
                }
                k
            },
        };
        proof {
            assert forall|q: int| 0 <= q < s.len() && #[trigger] s[q]
                implies dist(k as int, nearest as int) <= dist(k as int, q)
                    && (dist(k as int, q) == dist(k as int, nearest as int) ==> nearest <= q) by {
                if q <= k {
                    match lk {
                        Some(l) => {
                            assert(q <= l);
                        },
                        None => {
                            assert(!s[q]);
                        },
                    }
                } else {
                    match rk {
                        Some(r) => {
                            assert(q >= r);
                        },
                        None => {
                            assert(!s[q]);
                        },
                    }
                }
            }
            assert(is_nearest_peak(s, k as int, nearest as int));
        }
        out.push(nearest);
        k = k + 1;
    }
    Some(out)
}

} // verus!
