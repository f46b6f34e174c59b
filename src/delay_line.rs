//! The circular delay line of an FIR filter: it keeps the last `n` input
//! samples and hands them out newest first, to be paired with the taps.
use vstd::prelude::*;

verus! {

/// Slot of the `k`-th most recent sample in a ring of `n` slots whose next
/// write goes to slot `pos`.
pub open spec fn ring_slot(pos: int, k: int, n: int) -> int {
    if k < pos {
        pos - 1 - k
    } else {
        pos + n - 1 - k
    }
}

/// The newest-first contents after `xs` is pushed, in order, into a line
/// holding `line`.
pub open spec fn push_all<T>(line: Seq<T>, xs: Seq<T>) -> Seq<T>
    decreases xs.len(),
{
    if xs.len() == 0 {
        line
    } else {
        seq![xs.last()] + push_all(line, xs.drop_last()).drop_last()
    }
}

/// A fixed-length delay line.
#[derive(Clone)]
pub struct DelayLine<T> {
    buffer: Vec<T>,
    position: usize,
}

impl<T> DelayLine<T> {
    /// The held samples, most recent first.
    pub closed spec fn view(&self) -> Seq<T> {
        Seq::new(
            self.buffer@.len(),
            |k: int| self.buffer@[ring_slot(self.position as int, k, self.buffer@.len() as int)],
        )
    }

    pub closed spec fn wf(&self) -> bool {
        self.position < self.buffer@.len()
    }
}

impl<T: Copy> DelayLine<T> {
    /// A line of `len` slots, all holding `zero`.
    pub fn new(len: usize, zero: T) -> (r: Self)
        requires
            len > 0,
        ensures
            r.wf(),
            r@ == Seq::new(len as nat, |k: int| zero),
    {
        let mut buffer: Vec<T> = Vec::new();
        let mut i: usize = 0;
        while i < len
            invariant
                i <= len,
                buffer@ == Seq::new(i as nat, |k: int| zero),
            decreases len - i,
        {
            buffer.push(zero);
            i = i + 1;
            assert(buffer@ =~= Seq::new(i as nat, |k: int| zero));
        }
        let r = DelayLine { buffer, position: 0 };
        assert(r@ =~= Seq::new(len as nat, |k: int| zero));
        r
    }

    /// The number of slots.
    pub fn len(&self) -> (r: usize)
        ensures
            r == self@.len(),
    {
        self.buffer.len()
    }

    /// Pushes a sample; the oldest one drops out.
    pub fn push(&mut self, sample: T)
        requires
            old(self).wf(),
        ensures
            final(self).wf(),
            final(self)@ == seq![sample] + old(self)@.drop_last(),
    {
        let n = self.buffer.len();
        self.buffer.set(self.position, sample);
        if self.position + 1 == n {
            self.position = 0;
        } else {
            self.position = self.position + 1;
        }
        assert(self@ =~= seq![sample] + old(self)@.drop_last());
    }

    /// The `k`-th most recent sample (`0` is the newest).
    pub fn recent(&self, k: usize) -> (r: T)
        requires
            self.wf(),
            k < self@.len(),
        ensures
            r == self@[k as int],
    {
        let n = self.buffer.len();
        if k < self.position {
            self.buffer[self.position - 1 - k]
        } else {
            self.buffer[n - 1 - k + self.position]
        }
    }
}

/// Pushing samples into a delay line shifts them in newest first: the
/// `k`-th slot holds the `k`-th most recent sample pushed, or, if fewer
/// than `k + 1` were pushed, an earlier content moved down.
pub proof fn lemma_push_all<T>(line: Seq<T>, xs: Seq<T>)
    requires
        line.len() > 0,
    ensures
        push_all(line, xs).len() == line.len(),
        forall|k: int|
            0 <= k < line.len() ==> #[trigger] push_all(line, xs)[k] == if k < xs.len() {
                xs[xs.len() - 1 - k]
            } else {
                line[k - xs.len()]
            },
    decreases xs.len(),
{
    if xs.len() > 0 {
        lemma_push_all(line, xs.drop_last());
    }
}

/// Once at least as many samples as it has slots have been pushed, a delay
/// line holds exactly the most recent ones, newest first, whatever it held
/// before.
pub proof fn lemma_delay_line_holds_recent<T>(line: Seq<T>, xs: Seq<T>)
    requires
        line.len() > 0,
        xs.len() >= line.len(),
    ensures
        push_all(line, xs) == Seq::new(line.len(), |k: int| xs[xs.len() - 1 - k]),
{
    lemma_push_all(line, xs);
    assert(push_all(line, xs) =~= Seq::new(line.len(), |k: int| xs[xs.len() - 1 - k]));
}

} // verus!
