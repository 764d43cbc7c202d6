//! A running average over the most recent samples.

use vstd::prelude::*;

verus! {

/// The sum of the samples.
pub open spec fn total(samples: Seq<usize>) -> nat
    decreases samples.len(),
{
    if samples.len() == 0 {
        0
    } else {
        total(samples.drop_last()) + samples.last() as nat
    }
}

/// The mean of the samples, rounded down; zero where there is none.
pub open spec fn mean(samples: Seq<usize>) -> nat {
    if samples.len() == 0 {
        0
    } else {
        total(samples) / samples.len()
    }
}

/// The window of a buffer of `capacity` samples after one more sample: the
/// sample is appended, and where the window was full its oldest sample
/// leaves. A buffer of capacity zero keeps nothing.
pub open spec fn window_after(window: Seq<usize>, sample: usize, capacity: nat) -> Seq<usize> {
    if capacity == 0 {
        window
    } else if window.len() < capacity {
        window.push(sample)
    } else {
        window.drop_first().push(sample)
    }
}

/// Appending a sample adds it to the sum.
pub proof fn lemma_total_push(samples: Seq<usize>, sample: usize)
    ensures
        total(samples.push(sample)) == total(samples) + sample,
{
    assert(samples.push(sample).drop_last() =~= samples);
}

/// Dropping the oldest sample takes it off the sum.
pub proof fn lemma_total_drop_first(samples: Seq<usize>)
    requires
        samples.len() > 0,
    ensures
        total(samples.drop_first()) == total(samples) - samples[0],
    decreases samples.len(),
{
    if samples.len() == 1 {
        assert(samples.drop_first() =~= Seq::<usize>::empty());
        assert(samples.drop_last() =~= Seq::<usize>::empty());
    } else {
        lemma_total_drop_first(samples.drop_last());
        assert(samples.drop_first().drop_last() =~= samples.drop_last().drop_first());
    }
}

/// No sum exceeds the largest sample times the number of samples.
pub proof fn lemma_total_bound(samples: Seq<usize>)
    ensures
        total(samples) <= samples.len() * usize::MAX,
    decreases samples.len(),
{
    if samples.len() > 0 {
        lemma_total_bound(samples.drop_last());
        assert((samples.len() - 1) * usize::MAX + usize::MAX == samples.len() * usize::MAX)
            by (nonlinear_arith);
    }
}

/// A window that fits its capacity still fits after one more sample.
pub proof fn lemma_window_stays_within(window: Seq<usize>, sample: usize, capacity: nat)
    requires
        window.len() <= capacity,
    ensures
        window_after(window, sample, capacity).len() <= capacity,
        capacity > 0 ==> window_after(window, sample, capacity).last() == sample,
{
}

/// The `N` most recent samples of a stream and their running sum, from which
/// the average comes in constant time.
pub struct RingBuffer<const N: usize> {
    data: [usize; N],
    /// The slot that the next sample goes to.
    cursor: usize,
    /// The sum of all slots.
    sum: u128,
    /// How many slots hold a sample: the samples seen, capped at `N`.
    count: usize,
}

impl<const N: usize> View for RingBuffer<N> {
    type V = Seq<usize>;

    /// The samples held, the oldest first.
    closed spec fn view(&self) -> Seq<usize> {
        if self.count < N {
            self.data@.take(self.count as int)
        } else {
            self.data@.subrange(self.cursor as int, N as int) + self.data@.take(self.cursor as int)
        }
    }
}

impl<const N: usize> RingBuffer<N> {
    /// The buffer's invariant: the slots beyond the samples seen hold zero,
    /// and the running sum is the sum of the samples held.
    pub closed spec fn wf(&self) -> bool {
        &&& self.count <= N
        &&& self.cursor < N || (N == 0 && self.cursor == 0)
        &&& self.count < N ==> self.cursor == self.count
        &&& forall|i: int| self.count <= i < N ==> self.data@[i] == 0
        &&& self.sum == total(self@)
    }

    /// A well-formed buffer holds at most `N` samples.
    pub proof fn lemma_window_fits(&self)
        requires
            self.wf(),
        ensures
            self@.len() <= N,
    {
    }

    /// An empty buffer.
    pub fn new() -> (buffer: RingBuffer<N>)
        ensures
            buffer.wf(),
            buffer@ == Seq::<usize>::empty(),
    {
        let buffer = RingBuffer::<N> { data: [0; N], cursor: 0, sum: 0, count: 0 };
        assert(buffer@ =~= Seq::<usize>::empty());
        buffer
    }

    /// Takes one more sample in. Where the buffer is full, the oldest sample
    /// leaves.
    pub fn push(&mut self, val: usize)
        requires
            old(self).wf(),
        ensures
            final(self).wf(),
            final(self)@ == window_after(old(self)@, val, N as nat),
    {
        if N == 0 {
            return ;
        }
        assert((self.cursor + 1) % (N as int) == if self.cursor + 1 == N {
            0
        } else {
            self.cursor + 1
        }) by (nonlinear_arith)
            requires
                0 <= self.cursor < N,
        ;
        let ghost window = self@;
        let evicted = self.data[self.cursor];
        proof {
            lemma_total_bound(window);
            if self.count == N {
                assert(window[0] == evicted);
                lemma_total_drop_first(window);
                lemma_total_bound(window.drop_first());
            }
            lemma_total_push(window, val);
            lemma_total_push(window.drop_first(), val);
            assert(N * usize::MAX <= usize::MAX * usize::MAX) by (nonlinear_arith)
                requires
                    N <= usize::MAX,
            ;
            assert(window.len() * usize::MAX <= N * usize::MAX) by (nonlinear_arith)
                requires
                    window.len() <= N,
            ;
            assert((window.len() - 1) * usize::MAX + usize::MAX == window.len() * usize::MAX)
                by (nonlinear_arith);
        }
        self.sum = self.sum - evicted as u128 + val as u128;
        self.data[self.cursor] = val;
        self.cursor = (self.cursor + 1) % N;
        if self.count < N {
            self.count += 1;
            assert(self@ =~= window.push(val));
        } else {
            assert(self@ =~= window.drop_first().push(val));
        }
    }

    /// The mean of the samples held, rounded down; zero before the first
    /// sample.
    pub fn average(&self) -> (avg: usize)
        requires
            self.wf(),
        ensures
            avg == mean(self@),
    {
        if self.count == 0 {
            0
        } else {
            proof {
                lemma_total_bound(self@);
                assert(total(self@) / self@.len() <= usize::MAX) by (nonlinear_arith)
                    requires
                        total(self@) <= self@.len() * usize::MAX,
                        self@.len() > 0,
                ;
            }
            (self.sum / self.count as u128) as usize
        }
    }

    /// The samples held, the oldest first.
    pub fn samples(&self) -> (samples: Vec<usize>)
        requires
            self.wf(),
        ensures
            samples@ == self@,
    {
        let mut samples: Vec<usize> = Vec::new();
        let start: usize = if self.count < N {
            0
        } else {
            self.cursor
        };
        let mut i: usize = start;
        while i < self.count
            invariant
                self.wf(),
                start <= i <= self.count,
                samples@ =~= self.data@.subrange(start as int, i as int),
            decreases self.count - i,
        {
            samples.push(self.data[i]);
            i += 1;
        }
        if self.count == N {
            let mut j: usize = 0;
            while j < start
                invariant
                    self.wf(),
                    self.count == N,
                    start == self.cursor,
                    j <= start,
                    samples@ =~= self.data@.subrange(start as int, N as int) + self.data@.take(
                        j as int,
                    ),
                decreases start - j,
            {
                samples.push(self.data[j]);
                j += 1;
            }
        }
        samples
    }
}

impl<const N: usize> Default for RingBuffer<N> {
    fn default() -> (buffer: RingBuffer<N>)
        ensures
            buffer.wf(),
            buffer@ == Seq::<usize>::empty(),
    {
        RingBuffer::new()
    }
}

} // verus!
