use vstd::prelude::*;
use vstd::arithmetic::div_mod::lemma_fundamental_div_mod;

verus! {

/// `ceil(len / factor)`.
pub open spec fn ceil_div(len: nat, factor: nat) -> nat {
    ((len + factor - 1) as nat) / factor
}

/// `ceil(x / f) == x / f` when `f` divides `x`, else `x / f + 1`.
proof fn lemma_ceil_div(x: int, f: int)
    requires
        x >= 0,
        f >= 1,
    ensures
        ceil_div(x as nat, f as nat) == (if x % f == 0 { x / f } else { x / f + 1 }),
        ceil_div((x + 1) as nat, f as nat) == (if x % f == 0 { x / f + 1 } else { x / f + 1 }),
{
    lemma_fundamental_div_mod(x, f);
    let t0 = x + f - 1;
    let t1 = x + f;
    lemma_fundamental_div_mod(t0, f);
    lemma_fundamental_div_mod(t1, f);
    let q = x / f;
    let r = x % f;
    assert(t0 / f == (if r == 0 { q } else { q + 1 })) by (nonlinear_arith)
        requires x == f * q + r, 0 <= r < f, t0 == x + f - 1, t0 == f * (t0 / f) + t0 % f, 0 <= t0 % f < f;
    assert(t1 / f == q + 1) by (nonlinear_arith)
        requires x == f * q + r, 0 <= r < f, t1 == x + f, t1 == f * (t1 / f) + t1 % f, 0 <= t1 % f < f;
}

/// Output length of decimating `len` samples by `factor`: one sample is kept
/// out of every `factor`, starting with the first. Decimation needs a factor
/// of at least two and a non-empty input.
pub fn decimate_len(len: usize, factor: usize) -> (r: Option<usize>)
    ensures
        r is None <==> (factor < 2 || len == 0),
        r matches Some(n) ==> n == ceil_div(len as nat, factor as nat),
{
    if factor < 2 || len == 0 {
        return None;
    }
    let q = len / factor;
    proof {
        let f = factor as int;
        let x = len as int;
        lemma_fundamental_div_mod(x, f);
        assert(q < x) by (nonlinear_arith)
            requires x == f * (x / f) + x % f, 0 <= x % f < f, f >= 2, q == x / f, x > 0;
    }
    let n = if len % factor == 0 { q } else { q + 1 };
    proof {
        lemma_ceil_div(len as int, factor as int);
    }
    Some(n)
}

/// Keeps every `factor`-th sample of `v`, starting with the first.
pub fn downsample<T: Copy>(v: &[T], factor: usize) -> (r: Vec<T>)
    requires
        factor >= 1,
    ensures
        r@.len() == ceil_div(v@.len(), factor as nat),
        forall|i: int| 0 <= i < r@.len() ==> #[trigger] r@[i] == v@[i * factor],
{
    let n = v.len();
    let mut r: Vec<T> = Vec::new();
    let mut i: usize = 0;
    proof {
        lemma_ceil_div(0, factor as int);
    }
    while i < n
        invariant
            i <= n,
            n == v@.len(),
            factor >= 1,
            r@.len() == ceil_div(i as nat, factor as nat),
            forall|j: int| 0 <= j < r@.len() ==> #[trigger] r@[j] == v@[j * factor],
        decreases n - i,
    {
        proof {
            lemma_ceil_div(i as int, factor as int);
            lemma_fundamental_div_mod(i as int, factor as int);
        }
        if i % factor == 0 {
            proof {
                let f = factor as int;
                let x = i as int;
                let q = x / f;
                assert(q * f == x) by (nonlinear_arith)
                    requires x == f * q + x % f, x % f == 0;
            }
            r.push(v[i]);
        }
        i = i + 1;
    }
    r
}

} // verus!
