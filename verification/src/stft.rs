use vstd::prelude::*;
use vstd::arithmetic::div_mod::lemma_fundamental_div_mod;

use crate::error::FftError;

verus! {

/// Number of complete frames of `window` samples, `hop` apart, that fit in
/// `len` samples.
pub open spec fn frame_count(len: nat, window: nat, hop: nat) -> nat {
    if len >= window {
        ((len - window) as nat) / hop + 1
    } else {
        0
    }
}

/// Length of the overlap-add reconstruction from `frames` frames.
pub open spec fn overlap_add_len(frames: nat, window: nat, hop: nat) -> nat {
    if frames == 0 {
        0
    } else {
        ((frames - 1) as nat) * hop + window
    }
}

/// How a short-time Fourier transform cuts a signal into frames: frames of
/// `window_size` samples starting every `hop_size` samples, with
/// `0 < hop_size <= window_size`.
#[derive(Debug, Clone, Copy)]
pub struct FrameLayout {
    window_size: usize,
    hop_size: usize,
}

impl FrameLayout {
    pub closed spec fn spec_window(&self) -> nat {
        self.window_size as nat
    }

    pub closed spec fn spec_hop(&self) -> nat {
        self.hop_size as nat
    }

    /// Window and hop are positive and the hop is at most the window.
    pub open spec fn well_formed(&self) -> bool {
        0 < self.spec_hop() <= self.spec_window()
    }

    /// A layout with the given window and hop sizes.
    pub fn new(window_size: usize, hop_size: usize) -> (l: Self)
        requires
            window_size > 0,
            hop_size > 0,
            hop_size <= window_size,
        ensures
            l.well_formed(),
            l.spec_window() == window_size,
            l.spec_hop() == hop_size,
    {
        FrameLayout { window_size, hop_size }
    }

    /// The configured window size.
    pub fn window_size(&self) -> (w: usize)
        ensures
            w == self.spec_window(),
    {
        self.window_size
    }

    /// The configured hop size.
    pub fn hop_size(&self) -> (h: usize)
        ensures
            h == self.spec_hop(),
    {
        self.hop_size
    }

    /// Start offsets of the frames of a signal of `len` samples: every
    /// complete frame `0, hop, 2*hop, ...`. An empty signal is an error; a
    /// signal shorter than one window has no frames.
    pub fn frame_offsets(&self, len: usize) -> (r: Result<Vec<usize>, FftError>)
        requires
            self.well_formed(),
        ensures
            len == 0 <==> r == Err::<Vec<usize>, FftError>(FftError::Empty),
            len > 0 <==> r is Ok,
            r matches Ok(offs) ==> {
                &&& offs@.len() == frame_count(len as nat, self.spec_window(), self.spec_hop())
                &&& forall|i: int| 0 <= i < offs@.len() ==> #[trigger] offs@[i] == i * self.spec_hop()
                &&& forall|i: int| 0 <= i < offs@.len() ==> #[trigger] offs@[i] + self.spec_window() <= len
            },
    {
        if len == 0 {
            return Err(FftError::Empty);
        }
        let w = self.window_size;
        let h = self.hop_size;
        let mut offs: Vec<usize> = Vec::new();
        if len < w {
            return Ok(offs);
        }
        let last = len - w;
        let mut offset: usize = 0;
        proof {
            assert(offs@.len() * h == 0) by (nonlinear_arith)
                requires offs@.len() == 0;
        }
        while offset <= last
            invariant
                0 < h <= w,
                last == len - w,
                offset == offs@.len() * h,
                offset <= last + h,
                forall|i: int| 0 <= i < offs@.len() ==> #[trigger] offs@[i] == i * h,
                forall|i: int| 0 <= i < offs@.len() ==> #[trigger] offs@[i] <= last,
            decreases last + h - offset,
        {
            offs.push(offset);
            proof {
                assert(offset + h == offs@.len() * h) by (nonlinear_arith)
                    requires offset == (offs@.len() - 1) * h, offs@.len() >= 1;
            }
            offset = offset + h;
        }
        proof {
            let c = offs@.len();
            lemma_fundamental_div_mod(last as int, h as int);
            assert(c == (last as nat) / (h as nat) + 1) by (nonlinear_arith)
                requires c * h > last, c * h <= last + h, h > 0,
                    last == h * (last / h) + last % h, 0 <= last % h < h;
        }
        Ok(offs)
    }

    /// Length of the signal that overlap-add rebuilds from `frames` frames:
    /// zero for no frames, else `(frames - 1) * hop + window`.
    pub fn synthesis_len(&self, frames: usize) -> (n: usize)
        requires
            self.well_formed(),
            overlap_add_len(frames as nat, self.spec_window(), self.spec_hop()) <= usize::MAX,
        ensures
            n == overlap_add_len(frames as nat, self.spec_window(), self.spec_hop()),
    {
        if frames == 0 {
            0
        } else {
            proof {
                assert((frames - 1) * self.hop_size <= (frames - 1) * self.hop_size + self.window_size);
            }
            (frames - 1) * self.hop_size + self.window_size
        }
    }
}

/// Rebuilding from all the frames of a signal never yields more samples than
/// the signal had, and yields exactly as many when the hop divides the part
/// of the signal after the first window.
pub proof fn lemma_analysis_synthesis_len(len: nat, window: nat, hop: nat)
    requires
        0 < hop <= window,
        len >= window,
    ensures
        overlap_add_len(frame_count(len, window, hop), window, hop) <= len,
        overlap_add_len(frame_count(len, window, hop), window, hop) == len
            <==> ((len - window) as nat) % hop == 0,
{
    let r = (len - window) as nat;
    lemma_fundamental_div_mod(r as int, hop as int);
    let q = r / hop;
    assert(frame_count(len, window, hop) == q + 1);
    assert(overlap_add_len(q + 1, window, hop) == q * hop + window);
    assert(q * hop + r % hop == r) by (nonlinear_arith)
        requires r == hop * (r / hop) + r % hop, q == r / hop;
}

} // verus!
