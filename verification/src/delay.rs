use vstd::prelude::*;

verus! {

/// Storage slot of the `k`-th most recent sample in a ring of `n` slots whose
/// next write goes to `pos`.
pub open spec fn slot(pos: int, n: int, k: int) -> int {
    if k < pos {
        pos - 1 - k
    } else {
        pos + n - 1 - k
    }
}

/// The history that a ring of stored values `raw` with write position `pos`
/// represents: most recent value first.
pub open spec fn history<T>(raw: Seq<T>, pos: int) -> Seq<T> {
    Seq::new(raw.len(), |k: int| raw[slot(pos, raw.len() as int, k)])
}

/// History `h` after recording `x`: `x` first, the oldest value dropped.
pub open spec fn pushed<T>(h: Seq<T>, x: T) -> Seq<T> {
    seq![x].add(h.take(h.len() - 1))
}

/// History `h` after recording every value of `xs`, first to last.
pub open spec fn pushed_all<T>(h: Seq<T>, xs: Seq<T>) -> Seq<T>
    decreases xs.len(),
{
    if xs.len() == 0 {
        h
    } else {
        pushed(pushed_all(h, xs.drop_last()), xs.last())
    }
}

/// After recording `xs`, a history of `n > 0` values holds the last `n`
/// values recorded, most recent first, followed by what is left of the old
/// history. In particular, once `n` values have been recorded nothing of the
/// old history remains.
pub proof fn lemma_pushed_all<T>(h: Seq<T>, xs: Seq<T>)
    requires
        h.len() > 0,
    ensures
        pushed_all(h, xs).len() == h.len(),
        forall|k: int| 0 <= k < h.len() ==> #[trigger] pushed_all(h, xs)[k] == (if k < xs.len() {
            xs[xs.len() - 1 - k]
        } else {
            h[k - xs.len()]
        }),
    decreases xs.len(),
{
    if xs.len() > 0 {
        let init = xs.drop_last();
        lemma_pushed_all(h, init);
        let before = pushed_all(h, init);
        assert forall|k: int| 0 <= k < h.len() implies #[trigger] pushed_all(h, xs)[k] == (if k < xs.len() {
            xs[xs.len() - 1 - k]
        } else {
            h[k - xs.len()]
        }) by {
            if k > 0 {
                assert(pushed_all(h, xs)[k] == before[k - 1]);
                if k - 1 < init.len() {
                    assert(init[init.len() - 1 - (k - 1)] == xs[xs.len() - 1 - k]);
                }
            }
        }
    }
}

/// A fixed-length delay line (circular buffer) of the most recent samples.
///
/// Its view is the remembered history, most recent sample first; its length
/// is fixed at construction.
#[derive(Debug, Clone)]
pub struct DelayLine<T> {
    buf: Vec<T>,
    pos: usize,
}

impl<T> DelayLine<T> {
    /// At least one slot, and the write position is a slot.
    pub closed spec fn well_formed(&self) -> bool {
        &&& self.buf.len() > 0
        &&& self.pos < self.buf.len()
    }

    /// The stored values in storage order.
    pub closed spec fn raw(&self) -> Seq<T> {
        self.buf@
    }

    /// The slot that the next sample is written to.
    pub closed spec fn write_pos(&self) -> nat {
        self.pos as nat
    }
}

impl<T> View for DelayLine<T> {
    type V = Seq<T>;

    closed spec fn view(&self) -> Seq<T> {
        history(self.buf@, self.pos as int)
    }
}

impl<T: Copy> DelayLine<T> {
    /// A delay line of `len` slots, all holding `zero`.
    pub fn new(len: usize, zero: T) -> (d: Self)
        requires
            len > 0,
        ensures
            d.well_formed(),
            d@ == Seq::new(len as nat, |k: int| zero),
            d.raw() == Seq::new(len as nat, |k: int| zero),
            d.write_pos() == 0,
    {
        let mut buf: Vec<T> = Vec::new();
        let mut i: usize = 0;
        while i < len
            invariant
                i <= len,
                buf@ == Seq::new(i as nat, |k: int| zero),
            decreases len - i,
        {
            buf.push(zero);
            i = i + 1;
            proof {
                assert(buf@ =~= Seq::new(i as nat, |k: int| zero));
            }
        }
        let d = DelayLine { buf, pos: 0 };
        proof {
            assert(d@ =~= Seq::new(len as nat, |k: int| zero));
        }
        d
    }

    /// Number of samples remembered.
    pub fn len(&self) -> (n: usize)
        requires
            self.well_formed(),
        ensures
            n == self@.len(),
            n == self.raw().len(),
            n > 0,
    {
        self.buf.len()
    }

    /// The slot that the next sample will be written to.
    pub fn position(&self) -> (p: usize)
        requires
            self.well_formed(),
        ensures
            p == self.write_pos(),
            p < self.raw().len(),
    {
        self.pos
    }

    /// The stored values in storage order (not history order).
    pub fn contents(&self) -> (c: &Vec<T>)
        ensures
            c@ == self.raw(),
    {
        &self.buf
    }

    /// Records a new sample: it becomes the most recent one and the oldest
    /// is forgotten.
    pub fn push(&mut self, x: T)
        requires
            old(self).well_formed(),
        ensures
            final(self).well_formed(),
            final(self)@ == pushed(old(self)@, x),
            final(self).raw() == old(self).raw().update(old(self).write_pos() as int, x),
            final(self).write_pos() == if old(self).write_pos() + 1 == old(self).raw().len() { 0 } else { old(self).write_pos() + 1 },
    {
        let n = self.buf.len();
        let p = self.pos;
        self.buf.set(p, x);
        self.pos = if p + 1 == n { 0 } else { p + 1 };
        proof {
            let old_view = old(self)@;
            assert(self@ =~= seq![x].add(old_view.take(n - 1)));
        }
    }

    /// The `k`-th most recent sample (0 is the newest).
    pub fn get(&self, k: usize) -> (v: T)
        requires
            self.well_formed(),
            k < self@.len(),
        ensures
            v == self@[k as int],
    {
        let n = self.buf.len();
        if k < self.pos {
            self.buf[self.pos - 1 - k]
        } else {
            self.buf[self.pos + (n - 1 - k)]
        }
    }

    /// Writes the history, newest first, into `out`.
    pub fn linearize_into(&self, out: &mut [T])
        requires
            self.well_formed(),
            old(out)@.len() == self@.len(),
        ensures
            final(out)@ == self@,
    {
        let n = out.len();
        let mut k: usize = 0;
        while k < n
            invariant
                k <= n,
                n == out@.len(),
                n == self@.len(),
                self.well_formed(),
                forall|j: int| 0 <= j < k ==> out@[j] == self@[j],
            decreases n - k,
        {
            let v = self.get(k);
            out[k] = v;
            k = k + 1;
        }
        proof {
            assert(out@ =~= self@);
        }
    }

    /// Forgets every sample: all slots hold `zero` and writing restarts at slot 0.
    pub fn reset(&mut self, zero: T)
        requires
            old(self).well_formed(),
        ensures
            final(self).well_formed(),
            final(self)@ == Seq::new(old(self)@.len(), |k: int| zero),
            final(self).raw() == Seq::new(old(self)@.len(), |k: int| zero),
            final(self).write_pos() == 0,
    {
        let n = self.buf.len();
        let mut i: usize = 0;
        while i < n
            invariant
                i <= n,
                n == self.buf@.len(),
                n == old(self).buf@.len(),
                forall|j: int| 0 <= j < i ==> self.buf@[j] == zero,
                self.pos < n,
            decreases n - i,
        {
            self.buf.set(i, zero);
            i = i + 1;
        }
        self.pos = 0;
        proof {
            assert(self.buf@ =~= Seq::new(n as nat, |k: int| zero));
            assert(self@ =~= Seq::new(n as nat, |k: int| zero));
        }
    }
}

} // verus!
