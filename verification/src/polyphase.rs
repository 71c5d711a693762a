use vstd::prelude::*;
use vstd::arithmetic::div_mod::{lemma_fundamental_div_mod, lemma_mod_multiples_basic};

use crate::delay::{DelayLine, pushed, pushed_all};

verus! {

/// Greatest common divisor by Euclid's algorithm.
pub open spec fn gcd_spec(a: nat, b: nat) -> nat
    decreases b,
{
    if b == 0 {
        a
    } else {
        gcd_spec(b, a % b)
    }
}

/// The product `d * q`.
pub open spec fn times(d: nat, q: nat) -> nat {
    d * q
}

/// `d` divides `a` (every natural divides zero).
pub open spec fn divides(d: nat, a: nat) -> bool {
    exists|q: nat| #[trigger] times(d, q) == a
}

/// Greatest common divisor of `a` and `b`.
pub fn gcd(a0: usize, b0: usize) -> (g: usize)
    ensures
        g == gcd_spec(a0 as nat, b0 as nat),
{
    let mut a = a0;
    let mut b = b0;
    while b != 0
        invariant
            gcd_spec(a as nat, b as nat) == gcd_spec(a0 as nat, b0 as nat),
        decreases b,
    {
        let t = b;
        b = a % b;
        a = t;
    }
    a
}

proof fn lemma_divides_mod(d: nat, a: nat)
    requires
        d > 0,
    ensures
        divides(d, a) <==> a % d == 0,
{
    lemma_fundamental_div_mod(a as int, d as int);
    if a % d == 0 {
        assert(times(d, a / d) == a);
    }
    if divides(d, a) {
        let q = choose|q: nat| times(d, q) == a;
        lemma_mod_multiples_basic(q as int, d as int);
        assert(q * d == a) by (nonlinear_arith)
            requires d * q == a;
    }
}

proof fn lemma_divides_combination(d: nat, x: nat, y: nat, q: nat, a: nat)
    requires
        divides(d, x),
        divides(d, y),
        a == q * x + y,
    ensures
        divides(d, a),
{
    let s = choose|s: nat| times(d, s) == x;
    let t = choose|t: nat| times(d, t) == y;
    assert(d * (q * s + t) == a) by (nonlinear_arith)
        requires d * s == x, d * t == y, a == q * x + y;
    assert(times(d, q * s + t) == a);
}

proof fn lemma_divides_difference(d: nat, a: nat, x: nat, q: nat, y: nat)
    requires
        divides(d, a),
        divides(d, x),
        a == q * x + y,
    ensures
        divides(d, y),
{
    let s = choose|s: nat| times(d, s) == a;
    let t = choose|t: nat| times(d, t) == x;
    if d == 0 {
        assert(a == 0 && x == 0) by (nonlinear_arith)
            requires d * s == a, d * t == x, d == 0;
        assert(y == 0);
        assert(times(d, 0) == y);
    } else {
        assert(d * s == d * (q * t) + y) by (nonlinear_arith)
            requires d * s == a, d * t == x, a == q * x + y;
        assert(s >= q * t) by (nonlinear_arith)
            requires d * s == d * (q * t) + y, d > 0, y >= 0;
        assert(d * ((s - q * t) as nat) == y) by (nonlinear_arith)
            requires d * s == d * (q * t) + y, s >= q * t;
        assert(times(d, (s - q * t) as nat) == y);
    }
}

/// The greatest common divisor divides both arguments.
pub proof fn lemma_gcd_divides(a: nat, b: nat)
    ensures
        divides(gcd_spec(a, b), a),
        divides(gcd_spec(a, b), b),
    decreases b,
{
    if b == 0 {
        assert(times(a, 1) == a);
        assert(times(a, 0) == 0);
    } else {
        lemma_gcd_divides(b, a % b);
        let g = gcd_spec(a, b);
        lemma_fundamental_div_mod(a as int, b as int);
        assert(a == (a / b) * b + a % b) by (nonlinear_arith)
            requires a == b * (a / b) + a % b;
        lemma_divides_combination(g, b, a % b, a / b, a);
    }
}

/// Every common divisor of `a` and `b` divides their greatest common divisor.
pub proof fn lemma_gcd_greatest(a: nat, b: nat, d: nat)
    requires
        divides(d, a),
        divides(d, b),
    ensures
        divides(d, gcd_spec(a, b)),
    decreases b,
{
    if b != 0 {
        lemma_fundamental_div_mod(a as int, b as int);
        assert(a == (a / b) * b + a % b) by (nonlinear_arith)
            requires a == b * (a / b) + a % b;
        lemma_divides_difference(d, a, b, a / b, a % b);
        lemma_gcd_greatest(b, a % b, d);
    }
}

/// The greatest common divisor of two positive numbers is positive.
pub proof fn lemma_gcd_positive(a: nat, b: nat)
    requires
        a > 0 || b > 0,
    ensures
        gcd_spec(a, b) > 0,
{
    lemma_gcd_divides(a, b);
    let g = gcd_spec(a, b);
    if g == 0 {
        let s = choose|s: nat| times(g, s) == a;
        let t = choose|t: nat| times(g, t) == b;
        assert(a == 0 && b == 0) by (nonlinear_arith)
            requires g * s == a, g * t == b, g == 0;
    }
}

/// Dividing two positive numbers by their greatest common divisor leaves
/// numbers with no common factor, in the same ratio.
pub proof fn lemma_reduced_ratio(a: nat, b: nat)
    requires
        a > 0,
        b > 0,
    ensures
        gcd_spec(a, b) > 0,
        a % gcd_spec(a, b) == 0,
        b % gcd_spec(a, b) == 0,
        a / gcd_spec(a, b) > 0,
        b / gcd_spec(a, b) > 0,
        gcd_spec(a / gcd_spec(a, b), b / gcd_spec(a, b)) == 1,
        (a / gcd_spec(a, b)) * b == (b / gcd_spec(a, b)) * a,
{
    let g = gcd_spec(a, b);
    lemma_gcd_positive(a, b);
    lemma_gcd_divides(a, b);
    lemma_divides_mod(g, a);
    lemma_divides_mod(g, b);
    let x = a / g;
    let y = b / g;
    lemma_fundamental_div_mod(a as int, g as int);
    lemma_fundamental_div_mod(b as int, g as int);
    assert(g * x == a && g * y == b);
    assert(x > 0 && y > 0) by (nonlinear_arith)
        requires g * x == a, g * y == b, a > 0, b > 0;
    assert(x * b == y * a) by (nonlinear_arith)
        requires g * x == a, g * y == b;
    let h = gcd_spec(x, y);
    lemma_gcd_positive(x, y);
    lemma_gcd_divides(x, y);
    let s = choose|s: nat| times(h, s) == x;
    let t = choose|t: nat| times(h, t) == y;
    assert((h * g) * s == a) by (nonlinear_arith)
        requires h * s == x, g * x == a;
    assert((h * g) * t == b) by (nonlinear_arith)
        requires h * t == y, g * y == b;
    assert(times(h * g, s) == a);
    assert(times(h * g, t) == b);
    lemma_gcd_greatest(a, b, h * g);
    let hg = h * g;
    let u = choose|u: nat| times(hg, u) == g;
    assert(h == 1) by (nonlinear_arith)
        requires (h * g) * u == g, g > 0, h > 0;
}

/// How many outputs are due while the phase counter sits at `phase`.
pub open spec fn emit_count(phase: nat, up: nat, down: nat) -> nat {
    if phase >= up {
        0
    } else {
        ((up - phase + down - 1) as nat) / down
    }
}

/// The phase counter after one input sample.
pub open spec fn next_phase(phase: nat, up: nat, down: nat) -> nat {
    (phase + emit_count(phase, up, down) * down - up) as nat
}

/// Phase counter after `n` input samples.
pub open spec fn phase_after(phase: nat, up: nat, down: nat, n: nat) -> nat
    decreases n,
{
    if n == 0 {
        phase
    } else {
        phase_after(next_phase(phase, up, down), up, down, (n - 1) as nat)
    }
}

/// Total outputs emitted over `n` input samples.
pub open spec fn outputs_after(phase: nat, up: nat, down: nat, n: nat) -> nat
    decreases n,
{
    if n == 0 {
        0
    } else {
        emit_count(phase, up, down) + outputs_after(next_phase(phase, up, down), up, down, (n - 1) as nat)
    }
}

/// One input step: the phase moves by `count * down - up` and lands below `down`.
pub proof fn lemma_step(phase: nat, up: nat, down: nat)
    requires
        up > 0,
        down > 0,
        phase < up + down,
    ensures
        phase + emit_count(phase, up, down) * down >= up,
        next_phase(phase, up, down) == phase + emit_count(phase, up, down) * down - up,
        next_phase(phase, up, down) < down,
{
    if phase < up {
        let c = emit_count(phase, up, down);
        let r = (up - phase + down - 1) as nat;
        lemma_fundamental_div_mod(r as int, down as int);
        assert(c * down <= r && r < c * down + down) by (nonlinear_arith)
            requires r == down * c + r % down, 0 <= r % down < down, down > 0;
    }
}

/// Over any number of input samples, `outputs * down == inputs * up + final_phase - start_phase`,
/// and the phase stays below `down` once a sample has been taken.
pub proof fn lemma_run(phase: nat, up: nat, down: nat, n: nat)
    requires
        up > 0,
        down > 0,
        phase < up + down,
    ensures
        outputs_after(phase, up, down, n) * down + phase == n * up + phase_after(phase, up, down, n),
        n > 0 ==> phase_after(phase, up, down, n) < down,
        phase_after(phase, up, down, n) < up + down,
    decreases n,
{
    if n > 0 {
        lemma_step(phase, up, down);
        let p1 = next_phase(phase, up, down);
        lemma_run(p1, up, down, (n - 1) as nat);
        let c = emit_count(phase, up, down);
        let rest = outputs_after(p1, up, down, (n - 1) as nat);
        let pa = phase_after(p1, up, down, (n - 1) as nat);
        assert(outputs_after(phase, up, down, n) == c + rest);
        assert(phase_after(phase, up, down, n) == pa);
        assert(rest * down + p1 == (n - 1) * up + pa);
        assert(p1 + up == phase + c * down);
        assert((c + rest) * down + phase == n * up + pa) by (nonlinear_arith)
            requires rest * down + p1 == (n - 1) * up + pa, p1 + up == phase + c * down, n > 0;
        assert(outputs_after(phase, up, down, n) * down + phase == n * up + phase_after(phase, up, down, n));
    } else {
        assert(n * up == 0) by (nonlinear_arith)
            requires n == 0;
        assert(outputs_after(phase, up, down, n) == 0);
        assert(0 * down == 0);
    }
}

/// Starting from a fresh phase, `n` input samples give exactly
/// `ceil(n * up / down)` output samples.
pub proof fn lemma_output_count(up: nat, down: nat, n: nat)
    requires
        up > 0,
        down > 0,
    ensures
        outputs_after(0, up, down, n) == ((n * up + down - 1) as nat) / down,
{
    lemma_run(0, up, down, n);
    let e = outputs_after(0, up, down, n);
    let q = phase_after(0, up, down, n);
    assert(q < down);
    assert(e * down == n * up + q);
    lemma_fundamental_div_mod((n * up + down - 1) as int, down as int);
    let t = (n * up + down - 1) as nat;
    assert(e == t / down) by (nonlinear_arith)
        requires e * down == n * up + q, q < down, t == n * up + down - 1,
            t == down * (t / down) + t % down, 0 <= t % down < down, down > 0;
}

/// Oversampling by `factor` and then decimating by `factor`, both from a
/// fresh phase, gives back exactly as many samples as went in, and both phase
/// counters are back at zero.
pub proof fn lemma_oversample_length(factor: nat, n: nat)
    requires
        factor > 0,
    ensures
        outputs_after(0, factor, 1, n) == n * factor,
        phase_after(0, factor, 1, n) == 0,
        outputs_after(0, 1, factor, n * factor) == n,
        phase_after(0, 1, factor, n * factor) == 0,
{
    lemma_run(0, factor, 1, n);
    if n > 0 {
        assert(phase_after(0, factor, 1, n) == 0);
    }
    lemma_run(0, 1, factor, n * factor);
    let e = outputs_after(0, 1, factor, n * factor);
    let q = phase_after(0, 1, factor, n * factor);
    if n > 0 {
        assert(n * factor > 0) by (nonlinear_arith)
            requires n > 0, factor > 0;
        assert(q < factor);
        assert(e * factor == n * factor + q);
        assert(e == n && q == 0) by (nonlinear_arith)
            requires e * factor == n * factor + q, q < factor, factor > 0;
    } else {
        assert(n * factor == 0);
    }
}

/// Splits the prototype filter `h` of `up * taps_per_phase` taps into `up`
/// sub-filters: sub-filter `p` holds `h[p], h[p + up], h[p + 2*up], ...` and
/// occupies `[p * taps_per_phase, (p + 1) * taps_per_phase)` of the result.
pub fn polyphase_decompose<T: Copy>(h: &Vec<T>, up: usize, taps_per_phase: usize) -> (r: Vec<T>)
    requires
        h@.len() == up * taps_per_phase,
    ensures
        r@.len() == up * taps_per_phase,
        forall|p: int, k: int| 0 <= p < up && 0 <= k < taps_per_phase
            ==> #[trigger] r@[p * taps_per_phase + k] == h@[p + k * up],
{
    let mut r: Vec<T> = Vec::new();
    let mut p: usize = 0;
    while p < up
        invariant
            p <= up,
            h@.len() == up * taps_per_phase,
            r@.len() == p * taps_per_phase,
            forall|q: int, k: int| 0 <= q < p && 0 <= k < taps_per_phase
                ==> #[trigger] r@[q * taps_per_phase + k] == h@[q + k * up],
        decreases up - p,
    {
        let mut k: usize = 0;
        while k < taps_per_phase
            invariant
                p < up,
                k <= taps_per_phase,
                h@.len() == up * taps_per_phase,
                r@.len() == p * taps_per_phase + k,
                forall|q: int, j: int| 0 <= q < p && 0 <= j < taps_per_phase
                    ==> #[trigger] r@[q * taps_per_phase + j] == h@[q + j * up],
                forall|j: int| 0 <= j < k ==> #[trigger] r@[p * taps_per_phase + j] == h@[p + j * up],
            decreases taps_per_phase - k,
        {
            let len = h.len();
            assert(p + k * up < up * taps_per_phase) by (nonlinear_arith)
                requires p < up, k < taps_per_phase;
            assert(k * up <= p + k * up);
            let idx = p + k * up;
            let v = h[idx];
            let ghost before = r@;
            r.push(v);
            proof {
                assert forall|q: int, j: int| 0 <= q < p && 0 <= j < taps_per_phase
                    implies #[trigger] r@[q * taps_per_phase + j] == h@[q + j * up] by {
                    assert(q * taps_per_phase + j < p * taps_per_phase) by (nonlinear_arith)
                        requires 0 <= q < p, 0 <= j < taps_per_phase;
                    assert(r@[q * taps_per_phase + j] == before[q * taps_per_phase + j]);
                }
            }
            k = k + 1;
        }
        proof {
            assert(r@.len() == (p + 1) * taps_per_phase) by (nonlinear_arith)
                requires r@.len() == p * taps_per_phase + taps_per_phase;
            assert forall|q: int, j: int| 0 <= q < p + 1 && 0 <= j < taps_per_phase
                implies #[trigger] r@[q * taps_per_phase + j] == h@[q + j * up] by {
                if q == p {
                    assert(r@[p * taps_per_phase + j] == h@[p + j * up]);
                }
            }
        }
        p = p + 1;
    }
    r
}

} // verus!

verus! {

/// Default taps per polyphase sub-filter: good quality / speed trade-off.
pub const DEFAULT_TAPS_PER_PHASE: usize = 16;

/// The integer bookkeeping of a polyphase resampler converting by `up / down`:
/// the reduced ratio, the number of taps per sub-filter, the delay line of
/// recent input samples and the polyphase phase counter.
///
/// For each input sample, [`push`](PolyphaseState::push) records it and returns
/// the sub-filter indices at which one output sample each is due.
#[derive(Debug, Clone)]
pub struct PolyphaseState<T> {
    up: usize,
    down: usize,
    taps_per_phase: usize,
    ring: DelayLine<T>,
    phase: usize,
}

impl<T> PolyphaseState<T> {
    /// Ratio reduced and positive, at least four taps per sub-filter, the
    /// delay line as long as one sub-filter, and the phase counter in range.
    pub closed spec fn well_formed(&self) -> bool {
        &&& self.up > 0
        &&& self.down > 0
        &&& self.taps_per_phase >= 4
        &&& self.up + self.down <= usize::MAX + 1
        &&& self.ring.well_formed()
        &&& self.ring@.len() == self.taps_per_phase
        &&& self.phase < self.up + self.down
    }

    pub closed spec fn spec_up(&self) -> nat {
        self.up as nat
    }

    pub closed spec fn spec_down(&self) -> nat {
        self.down as nat
    }

    pub closed spec fn spec_taps(&self) -> nat {
        self.taps_per_phase as nat
    }

    pub closed spec fn spec_phase(&self) -> nat {
        self.phase as nat
    }

    /// The remembered input samples, most recent first.
    pub closed spec fn spec_history(&self) -> Seq<T> {
        self.ring@
    }
}

impl<T: Copy> PolyphaseState<T> {
    /// State for converting by `up / down` with `taps_per_phase` taps per
    /// sub-filter, the delay line filled with `zero`.
    ///
    /// Returns `None` if either factor is zero or `taps_per_phase < 4`. The
    /// ratio is reduced by the greatest common divisor of `up` and `down`.
    pub fn with_quality(up: usize, down: usize, taps_per_phase: usize, zero: T) -> (r: Option<Self>)
        requires
            up > 0 && down > 0 ==> up as nat / gcd_spec(up as nat, down as nat)
                + down as nat / gcd_spec(up as nat, down as nat) <= usize::MAX + 1,
        ensures
            r is None <==> (up == 0 || down == 0 || taps_per_phase < 4),
            r matches Some(s) ==> {
                &&& s.well_formed()
                &&& s.spec_up() == up as nat / gcd_spec(up as nat, down as nat)
                &&& s.spec_down() == down as nat / gcd_spec(up as nat, down as nat)
                &&& s.spec_taps() == taps_per_phase
                &&& s.spec_phase() == 0
                &&& s.spec_history() == Seq::new(taps_per_phase as nat, |k: int| zero)
            },
    {
        if up == 0 || down == 0 || taps_per_phase < 4 {
            return None;
        }
        let g = gcd(up, down);
        proof {
            lemma_reduced_ratio(up as nat, down as nat);
        }
        let up = up / g;
        let down = down / g;
        let ring = DelayLine::new(taps_per_phase, zero);
        Some(PolyphaseState { up, down, taps_per_phase, ring, phase: 0 })
    }

    /// State with the default quality of 16 taps per sub-filter.
    pub fn new(up: usize, down: usize, zero: T) -> (r: Option<Self>)
        requires
            up > 0 && down > 0 ==> up as nat / gcd_spec(up as nat, down as nat)
                + down as nat / gcd_spec(up as nat, down as nat) <= usize::MAX + 1,
        ensures
            r is None <==> (up == 0 || down == 0),
            r matches Some(s) ==> {
                &&& s.well_formed()
                &&& s.spec_up() == up as nat / gcd_spec(up as nat, down as nat)
                &&& s.spec_down() == down as nat / gcd_spec(up as nat, down as nat)
                &&& s.spec_taps() == DEFAULT_TAPS_PER_PHASE
                &&& s.spec_phase() == 0
                &&& s.spec_history() == Seq::new(DEFAULT_TAPS_PER_PHASE as nat, |k: int| zero)
            },
    {
        Self::with_quality(up, down, DEFAULT_TAPS_PER_PHASE, zero)
    }

    /// Upsample factor (after reduction).
    pub fn up(&self) -> (u: usize)
        ensures
            u == self.spec_up(),
    {
        self.up
    }

    /// Downsample factor (after reduction).
    pub fn down(&self) -> (d: usize)
        ensures
            d == self.spec_down(),
    {
        self.down
    }

    /// Number of taps per polyphase sub-filter.
    pub fn taps_per_phase(&self) -> (t: usize)
        ensures
            t == self.spec_taps(),
    {
        self.taps_per_phase
    }

    /// Current value of the phase counter.
    pub fn phase(&self) -> (p: usize)
        ensures
            p == self.spec_phase(),
    {
        self.phase
    }

    /// The delay line of recent input samples.
    pub fn history(&self) -> (h: &DelayLine<T>)
        ensures
            h@ == self.spec_history(),
            self.well_formed() ==> h.well_formed() && h@.len() == self.spec_taps(),
    {
        &self.ring
    }

    /// Clears the delay line to `zero` and the phase counter to zero.
    pub fn reset(&mut self, zero: T)
        requires
            old(self).well_formed(),
        ensures
            final(self).well_formed(),
            final(self).spec_up() == old(self).spec_up(),
            final(self).spec_down() == old(self).spec_down(),
            final(self).spec_taps() == old(self).spec_taps(),
            final(self).spec_phase() == 0,
            final(self).spec_history() == Seq::new(old(self).spec_taps(), |k: int| zero),
    {
        self.ring.reset(zero);
        self.phase = 0;
    }

    /// Records input sample `x` and returns the sub-filter indices at which an
    /// output sample is due, in order: `phase, phase + down, ...` while below
    /// `up`. The phase counter then advances past this input.
    pub fn push(&mut self, x: T) -> (phases: Vec<usize>)
        requires
            old(self).well_formed(),
        ensures
            final(self).well_formed(),
            final(self).spec_up() == old(self).spec_up(),
            final(self).spec_down() == old(self).spec_down(),
            final(self).spec_taps() == old(self).spec_taps(),
            final(self).spec_history() == pushed(old(self).spec_history(), x),
            phases@.len() == emit_count(old(self).spec_phase(), old(self).spec_up(), old(self).spec_down()),
            forall|j: int| 0 <= j < phases@.len() ==>
                #[trigger] phases@[j] == old(self).spec_phase() + j * old(self).spec_down(),
            forall|j: int| 0 <= j < phases@.len() ==> #[trigger] phases@[j] < old(self).spec_up(),
            final(self).spec_phase() == next_phase(old(self).spec_phase(), old(self).spec_up(), old(self).spec_down()),
    {
        self.ring.push(x);
        let ghost p0 = self.phase as nat;
        let up = self.up;
        let down = self.down;
        let mut phases: Vec<usize> = Vec::new();
        let mut phase = self.phase;
        proof {
            assert(phases@.len() * down == 0) by (nonlinear_arith)
                requires phases@.len() == 0;
        }
        while phase < up
            invariant
                up == self.up,
                down == self.down,
                up > 0,
                down > 0,
                up + down <= usize::MAX + 1,
                phase < up + down,
                phase == p0 + phases@.len() * down,
                phases@.len() > 0 ==> phase < up + down && p0 + (phases@.len() - 1) * down < up,
                forall|j: int| 0 <= j < phases@.len() ==> #[trigger] phases@[j] == p0 + j * down,
                forall|j: int| 0 <= j < phases@.len() ==> #[trigger] phases@[j] < up,
            decreases up + down - phase,
        {
            let ghost before = phases@;
            phases.push(phase);
            proof {
                assert(p0 + (phases@.len() - 1) * down == phase);
                assert(p0 + phases@.len() * down == phase + down) by (nonlinear_arith)
                    requires p0 + (phases@.len() - 1) * down == phase, phases@.len() > 0;
            }
            phase = phase + down;
        }
        proof {
            let c = phases@.len();
            let dn = down as nat;
            let un = up as nat;
            if p0 < up {
                assert(c > 0);
                let r = (un - p0 + dn - 1) as nat;
                lemma_fundamental_div_mod(r as int, dn as int);
                assert(c == r / dn) by (nonlinear_arith)
                    requires p0 + c * dn >= un, p0 + (c - 1) * dn < un, c > 0, dn > 0,
                        r == un - p0 + dn - 1, r == dn * (r / dn) + r % dn, 0 <= r % dn < dn;
            } else {
                assert(c == 0);
            }
            assert(c == emit_count(p0, up as nat, down as nat));
        }
        self.phase = phase - up;
        phases
    }
}

} // verus!

verus! {

/// For each output due while feeding `xs` from phase `phase` and history `h`:
/// the history it is computed from (after its input sample was recorded) and
/// the sub-filter index, in output order.
pub open spec fn due_outputs<T>(phase: nat, up: nat, down: nat, h: Seq<T>, xs: Seq<T>) -> Seq<(Seq<T>, nat)>
    decreases xs.len(),
{
    if xs.len() == 0 {
        Seq::empty()
    } else {
        let h1 = pushed(h, xs[0]);
        Seq::new(emit_count(phase, up, down), |j: int| (h1, (phase + j * down) as nat)).add(
            due_outputs(next_phase(phase, up, down), up, down, h1, xs.drop_first()),
        )
    }
}

/// `y` is a value that `out` may return for a delay line holding `hist` and
/// sub-filter index `phase`.
pub open spec fn computed_from<T, F: Fn(&DelayLine<T>, usize) -> T>(out: F, hist: Seq<T>, phase: nat, y: T) -> bool {
    exists|h: &DelayLine<T>| #[trigger] out.ensures((h, phase as usize), y) && h@ == hist
}

impl<T: Copy> PolyphaseState<T> {
    /// Feeds every sample of `input` through the state and appends one output
    /// per due sub-filter: `out(history, phase)` computes it from the delay
    /// line as it stands after the current input sample.
    pub fn process_into<F: Fn(&DelayLine<T>, usize) -> T>(&mut self, input: &[T], output: &mut Vec<T>, out: F)
        requires
            old(self).well_formed(),
            forall|h: &DelayLine<T>, p: usize| #[trigger] out.requires((h, p)),
        ensures
            final(self).well_formed(),
            final(self).spec_up() == old(self).spec_up(),
            final(self).spec_down() == old(self).spec_down(),
            final(self).spec_taps() == old(self).spec_taps(),
            final(self).spec_phase() == phase_after(old(self).spec_phase(), old(self).spec_up(), old(self).spec_down(), input@.len()),
            final(self).spec_history() == pushed_all(old(self).spec_history(), input@),
            final(output)@.len() == old(output)@.len() + outputs_after(old(self).spec_phase(), old(self).spec_up(), old(self).spec_down(), input@.len()),
            final(output)@.take(old(output)@.len() as int) == old(output)@,
            ({
                let plan = due_outputs(old(self).spec_phase(), old(self).spec_up(), old(self).spec_down(),
                    old(self).spec_history(), input@);
                &&& final(output)@.len() == old(output)@.len() + plan.len()
                &&& forall|t: int| 0 <= t < plan.len() ==> #[trigger] computed_from(out, plan[t].0, plan[t].1,
                    final(output)@[old(output)@.len() + t])
            }),
            // Output `t` of this call lies at position `q = phase + t * down` (in units of
            // `1 / up` input samples): it is computed once input sample `q / up` of this
            // call has been recorded (that sample is one of `input`, by
            // `lemma_due_outputs_position`), with sub-filter `q % up`.
            forall|t: int| #![trigger final(output)@[old(output)@.len() + t]]
                0 <= t < final(output)@.len() - old(output)@.len() ==> {
                let q = old(self).spec_phase() + t * old(self).spec_down();
                computed_from(out,
                    pushed_all(old(self).spec_history(), input@.take(q / (old(self).spec_up() as int) + 1)),
                    (q % (old(self).spec_up() as int)) as nat,
                    final(output)@[old(output)@.len() + t])
            },
    {
        let mut i: usize = 0;
        let n = input.len();
        let ghost p0 = self.phase as nat;
        let ghost out0 = output@;
        let ghost h0 = self.spec_history();
        let ghost up = self.spec_up();
        let ghost down = self.spec_down();
        let ghost plan = due_outputs(p0, up, down, h0, input@);
        let ghost mut done: Seq<(Seq<T>, nat)> = Seq::empty();
        proof {
            assert(input@.take(0) =~= Seq::<T>::empty());
            assert(input@.skip(0) =~= input@);
            assert(plan =~= done.add(plan));
        }
        while i < n
            invariant
                self.spec_history() == pushed_all(h0, input@.take(i as int)),
                i <= n,
                n == input@.len(),
                self.well_formed(),
                up == self.spec_up(),
                down == self.spec_down(),
                self.spec_up() == old(self).spec_up(),
                self.spec_down() == old(self).spec_down(),
                self.spec_taps() == old(self).spec_taps(),
                forall|h: &DelayLine<T>, p: usize| #[trigger] out.requires((h, p)),
                phase_after(p0, self.spec_up(), self.spec_down(), n as nat)
                    == phase_after(self.spec_phase(), self.spec_up(), self.spec_down(), (n - i) as nat),
                output@.len() + outputs_after(self.spec_phase(), self.spec_up(), self.spec_down(), (n - i) as nat)
                    == out0.len() + outputs_after(p0, self.spec_up(), self.spec_down(), n as nat),
                output@.take(out0.len() as int) == out0,
                output@.len() >= out0.len(),
                plan == done.add(due_outputs(self.spec_phase(), up, down, self.spec_history(), input@.skip(i as int))),
                output@.len() == out0.len() + done.len(),
                forall|t: int| 0 <= t < done.len() ==> #[trigger] computed_from(out, done[t].0, done[t].1,
                    output@[out0.len() + t]),
            decreases n - i,
        {
            let x = input[i];
            let ghost ph = self.spec_phase();
            let ghost hist = self.spec_history();
            proof {
                assert(input@.take(i + 1).drop_last() =~= input@.take(i as int));
                assert(input@.skip(i as int).drop_first() =~= input@.skip(i + 1));
                assert(input@.skip(i as int)[0] == x);
            }
            let phases = self.push(x);
            let ghost h1 = self.spec_history();
            let ghost step = Seq::new(emit_count(ph, up, down), |j: int| (h1, (ph + j * down) as nat));
            let m = phases.len();
            let mut j: usize = 0;
            let ghost len_before = output@.len();
            while j < m
                invariant
                    j <= m,
                    m == phases@.len(),
                    m == step.len(),
                    step == Seq::new(emit_count(ph, up, down), |k: int| (h1, (ph + k * down) as nat)),
                    self.well_formed(),
                    self.spec_history() == h1,
                    forall|k: int| 0 <= k < m ==> #[trigger] phases@[k] == ph + k * down,
                    forall|h: &DelayLine<T>, p: usize| #[trigger] out.requires((h, p)),
                    output@.len() == len_before + j,
                    len_before == out0.len() + done.len(),
                    output@.take(out0.len() as int) == out0,
                    forall|t: int| 0 <= t < done.len() ==> #[trigger] computed_from(out, done[t].0, done[t].1,
                        output@[out0.len() + t]),
                    forall|t: int| 0 <= t < j ==> #[trigger] computed_from(out, step[t].0, step[t].1,
                        output@[len_before + t]),
                decreases m - j,
            {
                let p = phases[j];
                let y = out(&self.ring, p);
                let ghost prev = output@;
                output.push(y);
                proof {
                    assert(output@.take(out0.len() as int) =~= prev.take(out0.len() as int));
                    assert(phases@[j as int] == ph + j * down);
                    assert(step[j as int] == (h1, (ph + j * down) as nat));
                    assert(step[j as int].1 == p as nat);
                    assert(out.ensures((&self.ring, (step[j as int].1) as usize), y));
                    assert(computed_from(out, step[j as int].0, step[j as int].1, output@[len_before + j]));
                    assert forall|t: int| 0 <= t < done.len() implies #[trigger] computed_from(out, done[t].0, done[t].1,
                        output@[out0.len() + t]) by {
                        assert(output@[out0.len() + t] == prev[out0.len() + t]);
                    }
                    assert forall|t: int| 0 <= t < j + 1 implies #[trigger] computed_from(out, step[t].0, step[t].1,
                        output@[len_before + t]) by {
                        if t < j {
                            assert(output@[len_before + t] == prev[len_before + t]);
                        }
                    }
                }
                j = j + 1;
            }
            proof {
                let new_done = done.add(step);
                assert forall|t: int| 0 <= t < new_done.len() implies #[trigger] computed_from(out, new_done[t].0, new_done[t].1,
                    output@[out0.len() + t]) by {
                    if t >= done.len() {
                        assert(new_done[t] == step[t - done.len()]);
                        assert(out0.len() + t == len_before + (t - done.len()));
                    } else {
                        assert(new_done[t] == done[t]);
                    }
                }
                assert(new_done.add(due_outputs(self.spec_phase(), up, down, h1, input@.skip(i + 1)))
                    =~= done.add(due_outputs(ph, up, down, hist, input@.skip(i as int))));
                done = new_done;
            }
            i = i + 1;
        }
        proof {
            assert(input@.take(n as int) =~= input@);
            assert(input@.skip(n as int) =~= Seq::<T>::empty());
            assert(plan =~= done);
            assert(p0 == old(self).spec_phase());
            assert(up == old(self).spec_up());
            assert(down == old(self).spec_down());
            assert(h0 == old(self).spec_history());
            assert(out0 == old(output)@);
            assert forall|t: int| #![trigger output@[old(output)@.len() + t]]
                0 <= t < output@.len() - old(output)@.len() implies {
                let q = old(self).spec_phase() + t * old(self).spec_down();
                computed_from(out,
                    pushed_all(old(self).spec_history(), input@.take(q / (old(self).spec_up() as int) + 1)),
                    (q % (old(self).spec_up() as int)) as nat,
                    output@[old(output)@.len() + t])
            } by {
                lemma_due_outputs_position(p0, up, down, h0, input@, t);
                assert(computed_from(out, plan[t].0, plan[t].1, output@[out0.len() + t]));
            }
            assert(p0 == old(self).spec_phase());
            assert(up == old(self).spec_up());
            assert(down == old(self).spec_down());
            assert(h0 == old(self).spec_history());
            assert(out0 == old(output)@);
        }
    }
}

} // verus!

verus! {

impl<T> PolyphaseState<T> {
    /// A well-formed state has positive factors, at least four taps per
    /// sub-filter and a phase counter below `up + down`, so the phase laws
    /// (`lemma_run`, `lemma_output_count`, ...) apply to it.
    pub proof fn lemma_well_formed(&self)
        requires
            self.well_formed(),
        ensures
            self.spec_up() > 0,
            self.spec_down() > 0,
            self.spec_taps() >= 4,
            self.spec_phase() < self.spec_up() + self.spec_down(),
            self.spec_history().len() == self.spec_taps(),
    {
    }
}

/// Phase counter and output count over `a + b` samples: first `a`, then `b`
/// from where the first `a` left the counter.
pub proof fn lemma_run_split(phase: nat, up: nat, down: nat, a: nat, b: nat)
    ensures
        phase_after(phase, up, down, a + b) == phase_after(phase_after(phase, up, down, a), up, down, b),
        outputs_after(phase, up, down, a + b)
            == outputs_after(phase, up, down, a) + outputs_after(phase_after(phase, up, down, a), up, down, b),
    decreases a,
{
    if a > 0 {
        lemma_run_split(next_phase(phase, up, down), up, down, (a - 1) as nat, b);
        assert((a + b - 1) as nat == ((a - 1) as nat) + b);
    }
}

/// A resampler that has taken `consumed` samples since it was made or reset
/// emits `ceil((consumed + n) * up / down) - ceil(consumed * up / down)`
/// outputs for the next `n` samples.
pub proof fn lemma_outputs_after_consumed(up: nat, down: nat, consumed: nat, n: nat)
    requires
        up > 0,
        down > 0,
    ensures
        outputs_after(phase_after(0, up, down, consumed), up, down, n)
            == ((consumed + n) * up + down - 1) as nat / down - ((consumed * up + down - 1) as nat / down),
{
    lemma_run_split(0, up, down, consumed, n);
    lemma_output_count(up, down, consumed + n);
    lemma_output_count(up, down, consumed);
}

/// Recording `xs` and then `ys` is recording `xs + ys`.
pub proof fn lemma_pushed_all_concat<T>(h: Seq<T>, xs: Seq<T>, ys: Seq<T>)
    ensures
        pushed_all(h, xs.add(ys)) == pushed_all(pushed_all(h, xs), ys),
    decreases ys.len(),
{
    if ys.len() == 0 {
        assert(xs.add(ys) =~= xs);
    } else {
        lemma_pushed_all_concat(h, xs, ys.drop_last());
        assert(xs.add(ys).drop_last() =~= xs.add(ys.drop_last()));
        assert(xs.add(ys).last() == ys.last());
    }
}

/// Feeding `xs` and then `ys` plans the same outputs, from the same delay
/// line contents and sub-filters, as feeding `xs + ys` at once: the plan of
/// the whole splits at the chunk boundary, and the second chunk starts from
/// the phase and history that the first chunk left.
pub proof fn lemma_due_outputs_split<T>(phase: nat, up: nat, down: nat, h: Seq<T>, xs: Seq<T>, ys: Seq<T>)
    ensures
        due_outputs(phase, up, down, h, xs.add(ys)) == due_outputs(phase, up, down, h, xs).add(
            due_outputs(phase_after(phase, up, down, xs.len()), up, down, pushed_all(h, xs), ys),
        ),
    decreases xs.len(),
{
    if xs.len() == 0 {
        assert(xs.add(ys) =~= ys);
        assert(due_outputs(phase, up, down, h, xs) =~= Seq::<(Seq<T>, nat)>::empty());
        assert(due_outputs(phase, up, down, h, xs).add(due_outputs(phase, up, down, h, ys))
            =~= due_outputs(phase, up, down, h, ys));
    } else {
        let x = xs[0];
        let rest = xs.drop_first();
        let h1 = pushed(h, x);
        let p1 = next_phase(phase, up, down);
        lemma_due_outputs_split(p1, up, down, h1, rest, ys);
        assert(xs.add(ys)[0] == x);
        assert(xs.add(ys).drop_first() =~= rest.add(ys));
        // the history after `xs` is the history after `rest`, starting from `h1`
        assert(seq![x].add(rest) =~= xs);
        lemma_pushed_all_concat(h, seq![x], rest);
        assert(seq![x].drop_last() =~= Seq::<T>::empty());
        assert(seq![x].last() == x);
        assert(pushed_all(h, Seq::<T>::empty()) == h);
        assert(pushed_all(h, seq![x].drop_last()) == h);
        assert(pushed_all(h, seq![x]) == h1);
        assert(phase_after(phase, up, down, xs.len()) == phase_after(p1, up, down, rest.len()));
        let step = Seq::new(emit_count(phase, up, down), |j: int| (h1, (phase + j * down) as nat));
        let tail = due_outputs(phase_after(p1, up, down, rest.len()), up, down, pushed_all(h1, rest), ys);
        assert(step.add(due_outputs(p1, up, down, h1, rest).add(tail))
            =~= step.add(due_outputs(p1, up, down, h1, rest)).add(tail));
    }
}

} // verus!

verus! {

/// Where the outputs of a resampler fall: starting from phase counter `phase`
/// (with `phase < up + down`), output `t` lies at position
/// `q = phase + t * down` in units of `1 / up` input samples. It is computed
/// after input sample `q / up` has been recorded, with sub-filter `q % up`,
/// and that input sample is one of `xs`.
pub proof fn lemma_due_outputs_position<T>(phase: nat, up: nat, down: nat, h: Seq<T>, xs: Seq<T>, t: int)
    requires
        up > 0,
        down > 0,
        phase < up + down,
        0 <= t < due_outputs(phase, up, down, h, xs).len(),
    ensures
        (phase + t * down) / (up as int) < xs.len(),
        due_outputs(phase, up, down, h, xs)[t] == (
            pushed_all(h, xs.take((phase + t * down) / (up as int) + 1)),
            ((phase + t * down) % (up as int)) as nat,
        ),
    decreases xs.len(),
{
    let x = xs[0];
    let rest = xs.drop_first();
    let h1 = pushed(h, x);
    let p1 = next_phase(phase, up, down);
    let c = emit_count(phase, up, down);
    let step = Seq::new(c, |j: int| (h1, (phase + j * down) as nat));
    let tail = due_outputs(p1, up, down, h1, rest);
    lemma_step(phase, up, down);
    assert(due_outputs(phase, up, down, h, xs) == step.add(tail));
    assert(seq![x].add(rest) =~= xs);
    assert(seq![x].drop_last() =~= Seq::<T>::empty());
    assert(seq![x].last() == x);
    assert(pushed_all(h, Seq::<T>::empty()) == h);
    assert(pushed_all(h, seq![x].drop_last()) == h);
    assert(pushed_all(h, seq![x]) == h1);
    let q = phase + t * down;
    if t < c {
        assert(q < up) by (nonlinear_arith)
            requires t < c, c == emit_count(phase, up, down), phase + c * down >= up,
                phase < up ==> ((up - phase + down - 1) as nat) / down == c,
                phase >= up ==> c == 0, t >= 0, down > 0, q == phase + t * down;
        assert(q >= 0) by (nonlinear_arith)
            requires q == phase + t * down, t >= 0, down > 0, phase >= 0;
        vstd::arithmetic::div_mod::lemma_small_mod(q as nat, up);
        vstd::arithmetic::div_mod::lemma_fundamental_div_mod(q, up as int);
        assert(q / (up as int) == 0) by (nonlinear_arith)
            requires q == (up as int) * (q / (up as int)) + q % (up as int), q % (up as int) == q, up > 0;
        assert(q % (up as int) == q);
        assert(xs.take(1) =~= seq![x]);
        assert(step[t] == (h1, q as nat));
    } else {
        let u = t - c;
        assert(tail[u] == due_outputs(phase, up, down, h, xs)[t]);
        lemma_due_outputs_position(p1, up, down, h1, rest, u);
        let q1 = p1 + u * down;
        assert(q1 + up == q) by (nonlinear_arith)
            requires q1 == p1 + u * down, p1 == phase + c * down - up, u == t - c, q == phase + t * down;
        vstd::arithmetic::div_mod::lemma_div_plus_one(q1, up as int);
        vstd::arithmetic::div_mod::lemma_mod_add_multiples_vanish(q1, up as int);
        assert(q1 >= 0);
        let k = q1 / (up as int) + 1;
        assert(k >= 1) by {
            vstd::arithmetic::div_mod::lemma_div_pos_is_pos(q1, up as int);
        }
        lemma_pushed_all_concat(h, seq![x], rest.take(k));
        assert(seq![x].add(rest.take(k)) =~= xs.take(k + 1));
    }
}

} // verus!
