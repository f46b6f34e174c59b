//! Rechunking between a generator that produces samples a fixed chunk at a
//! time and a consumer that takes them in any amounts.
use vstd::prelude::*;

verus! {

/// A source of samples, asked for one chunk at a time. What it writes, and
/// the state it moves to, depend only on its own state and the chunk's
/// length.
pub trait Generator<T>: Sized {
    /// The samples written into a chunk of `len` samples, and the state
    /// after writing them.
    spec fn next_chunk(&self, len: nat) -> (Seq<T>, Self);

    /// Writes the next samples into `chunk`.
    fn generate(&mut self, chunk: &mut [T])
        ensures
            final(chunk)@.len() == old(chunk)@.len(),
            final(chunk)@ == old(self).next_chunk(old(chunk)@.len()).0,
            *final(self) == old(self).next_chunk(old(chunk)@.len()).1,
    ;
}

/// The samples of `k` successive chunks of `len` samples from `g`, and the
/// state of the generator after them.
pub open spec fn generated<T, G: Generator<T>>(g: G, len: nat, k: nat) -> (Seq<T>, G)
    decreases k,
{
    if k == 0 {
        (Seq::empty(), g)
    } else {
        let prev = generated(g, len, (k - 1) as nat);
        let next = prev.1.next_chunk(len);
        (prev.0 + next.0, next.1)
    }
}

/// Buffers a [`Generator`]'s output so that it can be consumed in any
/// amounts up to the buffer size.
pub struct Buffer<T> {
    buffer: Vec<T>,
    buffer_size: usize,
    chunk_size: usize,
    position: usize,
    available: usize,
}

impl<T> Buffer<T> {
    /// The samples waiting to be consumed, oldest first.
    pub closed spec fn view(&self) -> Seq<T> {
        self.buffer@.subrange(self.position as int, self.position + self.available)
    }

    /// How many more samples fit behind the waiting ones.
    pub closed spec fn room(&self) -> nat {
        (self.buffer@.len() - self.position - self.available) as nat
    }

    /// The largest amount that [`Self::fill_buffer`] can be asked for.
    pub closed spec fn spec_buffer_size(&self) -> nat {
        self.buffer_size as nat
    }

    /// How many samples each call of the generator produces.
    pub closed spec fn spec_chunk_size(&self) -> nat {
        self.chunk_size as nat
    }

    /// The storage holds two chunks, the waiting samples lie within it, and a
    /// full buffer size fits in one chunk and one sample.
    pub closed spec fn wf(&self) -> bool {
        &&& 0 < self.chunk_size
        &&& self.buffer_size <= self.chunk_size + 1
        &&& 2 * self.chunk_size <= usize::MAX
        &&& self.buffer@.len() == 2 * self.chunk_size
        &&& self.position + self.available <= self.buffer@.len()
    }

    /// The most that can be asked for at once.
    pub fn buffer_size(&self) -> (r: usize)
        ensures
            r == self.spec_buffer_size(),
    {
        self.buffer_size
    }

    /// How many samples each call of the generator produces.
    pub fn chunk_size(&self) -> (r: usize)
        ensures
            r == self.spec_chunk_size(),
    {
        self.chunk_size
    }
}

impl<T: Copy + Default> Buffer<T> {
    /// An empty buffer that takes samples in chunks of `chunk_size`; at most
    /// `buffer_size` samples can be asked for at once.
    pub fn new(buffer_size: usize, chunk_size: usize) -> (r: Self)
        requires
            0 < chunk_size,
            buffer_size <= chunk_size + 1,
            2 * chunk_size <= usize::MAX,
        ensures
            r.wf(),
            r@ == Seq::<T>::empty(),
            r.spec_buffer_size() == buffer_size,
            r.spec_chunk_size() == chunk_size,
    {
        let mut buffer: Vec<T> = Vec::new();
        let capacity = 2 * chunk_size;
        let mut i: usize = 0;
        while i < capacity
            invariant
                i <= capacity,
                buffer@.len() == i,
            decreases capacity - i,
        {
            buffer.push(T::default());
            i = i + 1;
        }
        let r = Buffer { buffer, buffer_size, chunk_size, position: 0, available: 0 };
        assert(r@ =~= Seq::<T>::empty());
        r
    }

    /// The samples waiting to be consumed.
    pub fn available(&self) -> (r: &[T])
        requires
            self.wf(),
        ensures
            r@ == self@,
    {
        &self.buffer[self.position..self.position + self.available]
    }

    /// Appends `chunk` behind the waiting samples.
    pub fn append_chunk(&mut self, chunk: &[T])
        requires
            old(self).wf(),
            chunk@.len() <= old(self).room(),
        ensures
            final(self).wf(),
            final(self)@ == old(self)@ + chunk@,
            final(self).room() == old(self).room() - chunk@.len(),
            final(self).spec_buffer_size() == old(self).spec_buffer_size(),
            final(self).spec_chunk_size() == old(self).spec_chunk_size(),
    {
        let base = self.position + self.available;
        let mut k: usize = 0;
        while k < chunk.len()
            invariant
                self.wf(),
                self.position == old(self).position,
                self.available == old(self).available,
                self.buffer_size == old(self).buffer_size,
                self.chunk_size == old(self).chunk_size,
                base == self.position + self.available,
                base + chunk@.len() <= self.buffer@.len(),
                k <= chunk@.len(),
                forall|j: int| 0 <= j < base ==> self.buffer@[j] == old(self).buffer@[j],
                forall|j: int| 0 <= j < k ==> self.buffer@[base + j] == chunk@[j],
            decreases chunk@.len() - k,
        {
            self.buffer.set(base + k, chunk[k]);
            k = k + 1;
        }
        self.available = self.available + chunk.len();
        assert(self@ =~= old(self)@ + chunk@);
    }

    /// Moves the waiting samples to the front of the storage, so that all
    /// the room left lies behind them.
    pub fn make_room(&mut self)
        requires
            old(self).wf(),
        ensures
            final(self).wf(),
            final(self)@ == old(self)@,
            final(self)@.len() + final(self).room() == 2 * old(self).spec_chunk_size(),
            final(self).spec_buffer_size() == old(self).spec_buffer_size(),
            final(self).spec_chunk_size() == old(self).spec_chunk_size(),
    {
        let mut i: usize = 0;
        while i < self.available
            invariant
                self.wf(),
                i <= self.available,
                self.buffer_size == old(self).buffer_size,
                self.chunk_size == old(self).chunk_size,
                self.available == old(self).available,
                self.position == old(self).position,
                forall|j: int| 0 <= j < i ==> self.buffer@[j] == old(self)@[j],
                forall|j: int|
                    i <= j < self.available ==> self.buffer@[self.position + j] == old(self)@[j],
            decreases self.available - i,
        {
            let v = self.buffer[self.position + i];
            self.buffer.set(i, v);
            i = i + 1;
        }
        self.position = 0;
        assert(self@ =~= old(self)@);
    }

    /// Ensures that at least `num_samples` samples are waiting, asking
    /// `generator` for as few whole chunks of the chunk size as that takes
    /// and appending what it writes, in order, behind the waiting samples.
    pub fn fill_buffer<G: Generator<T>>(&mut self, generator: &mut G, num_samples: usize)
        requires
            old(self).wf(),
            num_samples <= old(self).spec_buffer_size(),
        ensures
            final(self).wf(),
            final(self).spec_buffer_size() == old(self).spec_buffer_size(),
            final(self).spec_chunk_size() == old(self).spec_chunk_size(),
            exists|k: nat|
                {
                    let g = #[trigger] generated(
                        *old(generator),
                        old(self).spec_chunk_size(),
                        k,
                    );
                    &&& final(self)@ == old(self)@ + g.0
                    &&& *final(generator) == g.1
                    &&& final(self)@.len() == old(self)@.len() + k * old(self).spec_chunk_size()
                },
            final(self)@.len() >= num_samples,
            old(self)@.len() >= num_samples ==> final(self)@ == old(self)@,
            old(self)@.len() < num_samples ==> final(self)@.len() < num_samples
                + old(self).spec_chunk_size(),
    {
        let ghost g0 = *generator;
        let ghost cs = self.chunk_size as nat;
        if self.available >= num_samples {
            proof {
                assert(self@ =~= self@ + generated(g0, cs, 0).0);
                assert({
                    let g = generated(*old(generator), old(self).spec_chunk_size(), 0);
                    &&& self@ == old(self)@ + g.0
                    &&& *generator == g.1
                    &&& self@.len() == old(self)@.len() + 0 * old(self).spec_chunk_size()
                });
            }
            return;
        }
        self.make_room();
        let ghost waiting = self@;
        let ghost mut k: nat = 0;
        proof {
            assert(self@ =~= waiting + generated(g0, cs, 0).0);
        }
        while self.available < num_samples
            invariant
                self.wf(),
                self@.len() + self.room() == 2 * cs,
                self.buffer_size == old(self).buffer_size,
                self.chunk_size == cs,
                num_samples <= self.buffer_size,
                waiting == old(self)@,
                self@ == waiting + generated(g0, cs, k).0,
                *generator == generated(g0, cs, k).1,
                self.available == waiting.len() + k * cs,
                self.available < num_samples + self.chunk_size,
            decreases num_samples + self.chunk_size - self.available,
        {
            let mut chunk: Vec<T> = Vec::new();
            let mut j: usize = 0;
            while j < self.chunk_size
                invariant
                    self.wf(),
                    j <= self.chunk_size,
                    chunk@.len() == j,
                decreases self.chunk_size - j,
            {
                chunk.push(self.buffer[j]);
                j = j + 1;
            }
            generator.generate(chunk.as_mut_slice());
            proof {
                assert(generated(g0, cs, k + 1) == (
                    generated(g0, cs, k).0 + chunk@,
                    *generator,
                ));
                assert((k + 1) * cs == k * cs + cs) by (nonlinear_arith);
            }
            self.append_chunk(chunk.as_slice());
            proof {
                assert(self@ =~= waiting + generated(g0, cs, k + 1).0);
                k = k + 1;
            }
        }
        proof {
            assert({
                let g = generated(*old(generator), old(self).spec_chunk_size(), k);
                &&& self@ == old(self)@ + g.0
                &&& *generator == g.1
                &&& self@.len() == old(self)@.len() + k * old(self).spec_chunk_size()
            });
        }
    }

    /// Discards the oldest `num_samples` waiting samples.
    pub fn consume(&mut self, num_samples: usize)
        requires
            old(self).wf(),
            num_samples <= old(self)@.len(),
        ensures
            final(self).wf(),
            final(self).spec_buffer_size() == old(self).spec_buffer_size(),
            final(self).spec_chunk_size() == old(self).spec_chunk_size(),
            final(self)@ == old(self)@.subrange(num_samples as int, old(self)@.len() as int),
    {
        self.available = self.available - num_samples;
        self.position = self.position + num_samples;
        assert(self@ =~= old(self)@.subrange(num_samples as int, old(self)@.len() as int));
    }
}

} // verus!
