use vstd::prelude::*;
use vstd::arithmetic::power2::{pow2, lemma_pow2_unfold, lemma_pow2_pos, lemma_pow2_adds, lemma_pow2_strictly_increases, lemma2_to64};

use crate::error::FftError;

verus! {

/// `n` is a power of two: `n == 2^k` for some natural `k`. Zero is not.
pub open spec fn is_power_of_two(n: nat) -> bool {
    exists|k: nat| pow2(k) == n
}

/// The largest value a `usize` can hold, as a power-of-two bound.
proof fn lemma_usize_below_pow2_64()
    ensures
        usize::MAX < pow2(64),
{
    lemma2_to64();
}

/// `m * 2^k` with `m` odd and greater than one is not a power of two.
proof fn lemma_odd_multiple_not_power(m: nat, k: nat)
    requires
        m % 2 == 1,
        m > 1,
    ensures
        !is_power_of_two(m * pow2(k)),
{
    assert forall|j: nat| pow2(j) != m * pow2(k) by {
        lemma_pow2_pos(k);
        lemma_pow2_pos(j);
        if j <= k {
            if j < k {
                lemma_pow2_strictly_increases(j, k);
            }
            assert(pow2(k) < m * pow2(k)) by (nonlinear_arith)
                requires pow2(k) > 0, m > 1;
        } else {
            let d = (j - k) as nat;
            lemma_pow2_adds(d, k);
            assert(j == d + k);
            lemma_pow2_unfold(d);
            if pow2(j) == m * pow2(k) {
                assert(pow2(d) * pow2(k) == m * pow2(k));
                assert(pow2(d) == m) by (nonlinear_arith)
                    requires pow2(d) * pow2(k) == m * pow2(k), pow2(k) > 0;
                assert(false);
            }
        }
    }
}

/// Powers of two are positive, and `2^k` is a power of two.
pub proof fn lemma_power_of_two_positive(n: nat)
    requires
        is_power_of_two(n),
    ensures
        n > 0,
{
    let k = choose|k: nat| pow2(k) == n;
    lemma_pow2_pos(k);
}

/// Returns `log2(n)` if `n` is a non-zero power of two.
///
/// Zero is reported as `Empty`; any other length that is not a power of two
/// is reported as `NotPowerOfTwo(n)`.
pub fn validate_length(n: usize) -> (r: Result<u32, FftError>)
    ensures
        n == 0 ==> r == Err::<u32, FftError>(FftError::Empty),
        n > 0 && !is_power_of_two(n as nat) ==> r == Err::<u32, FftError>(FftError::NotPowerOfTwo(n)),
        is_power_of_two(n as nat) ==> (r matches Ok(k) && pow2(k as nat) == n),
{
    if n == 0 {
        proof {
            if is_power_of_two(0) {
                lemma_power_of_two_positive(0);
            }
        }
        return Err(FftError::Empty);
    }
    let mut m: usize = n;
    let mut k: u32 = 0;
    proof {
        lemma_usize_below_pow2_64();
        lemma2_to64();
    }
    while m % 2 == 0
        invariant
            m > 0,
            k < 64,
            n == m * pow2(k as nat),
            n <= usize::MAX < pow2(64),
        decreases m,
    {
        proof {
            lemma_pow2_unfold((k + 1) as nat);
            assert(n == (m / 2) * pow2((k + 1) as nat)) by (nonlinear_arith)
                requires n == m * pow2(k as nat), m % 2 == 0, pow2((k + 1) as nat) == 2 * pow2(k as nat);
            lemma_pow2_pos(k as nat);
            assert(pow2((k + 1) as nat) <= n) by (nonlinear_arith)
                requires n == (m / 2) * pow2((k + 1) as nat), m / 2 >= 1, pow2((k + 1) as nat) > 0;
            if k + 1 >= 64 {
                if k + 1 > 64 {
                    lemma_pow2_strictly_increases(64, (k + 1) as nat);
                }
                assert(false);
            }
        }
        m = m / 2;
        k = k + 1;
    }
    if m == 1 {
        assert(pow2(k as nat) == n);
        Ok(k)
    } else {
        proof {
            lemma_odd_multiple_not_power(m as nat, k as nat);
        }
        Err(FftError::NotPowerOfTwo(n))
    }
}

/// Whether `n` is a non-zero power of two.
pub fn is_pow2(n: usize) -> (r: bool)
    ensures
        r == is_power_of_two(n as nat),
{
    match validate_length(n) {
        Ok(_) => true,
        Err(_) => {
            proof {
                if n == 0 {
                    if is_power_of_two(0) {
                        lemma_power_of_two_positive(0);
                    }
                }
            }
            false
        },
    }
}

/// The smallest power of two that is at least `x` (1 for `x == 0`).
pub fn next_power_of_two(x: usize) -> (p: usize)
    requires
        x <= usize::MAX / 2 + 1,
    ensures
        is_power_of_two(p as nat),
        p >= x,
        p == 1 || p / 2 < x,
{
    let mut p: usize = 1;
    let ghost mut k: nat = 0;
    proof {
        lemma2_to64();
    }
    while p < x
        invariant
            pow2(k) == p,
            p >= 1,
            p == 1 || p / 2 < x,
            x <= usize::MAX / 2 + 1,
        decreases usize::MAX - p,
    {
        proof {
            lemma_pow2_unfold(k + 1);
        }
        p = p * 2;
        proof {
            k = k + 1;
        }
    }
    p
}

} // verus!

verus! {

/// `p` is the smallest power of two that is at least `x`.
pub open spec fn is_next_power_of_two(p: nat, x: nat) -> bool {
    &&& is_power_of_two(p)
    &&& p >= x
    &&& (p == 1 || p / 2 < x)
}

/// There is only one smallest power of two at or above `x`.
pub proof fn lemma_next_power_of_two_unique(p: nat, q: nat, x: nat)
    requires
        is_next_power_of_two(p, x),
        is_next_power_of_two(q, x),
    ensures
        p == q,
{
    let a = choose|k: nat| pow2(k) == p;
    let b = choose|k: nat| pow2(k) == q;
    if a < b {
        lemma_pow2_unfold(b);
        if a < (b - 1) as nat {
            lemma_pow2_strictly_increases(a, (b - 1) as nat);
        }
        lemma_pow2_pos((b - 1) as nat);
        assert(false);
    } else if b < a {
        lemma_pow2_unfold(a);
        if b < (a - 1) as nat {
            lemma_pow2_strictly_increases(b, (a - 1) as nat);
        }
        lemma_pow2_pos((a - 1) as nat);
        assert(false);
    }
}

} // verus!
