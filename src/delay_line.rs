use vstd::prelude::*;
use crate::history::push_sample;
use vstd::arithmetic::div_mod::{lemma_add_mod_noop, lemma_mod_add_multiples_vanish, lemma_small_mod};

verus! {

/// Relies on num::Zero::zero for the silent sample a fresh line is filled with.
#[verifier::external_body]
fn silence<T: num::Float>() -> (r: T) {
    T::zero()
}

/// A multi-channel delay line. The samples of all channels live in one flat
/// buffer: channel `c` owns the ring `[c * buf_size, (c + 1) * buf_size)`,
/// and `write_indexes[c]` is the slot of that ring that the next write fills.
pub struct DelayLine<T> {
    buf_size: usize,
    data: Vec<T>,
    write_indexes: Vec<usize>,
}

impl<T> DelayLine<T> {
    /// Samples of delay that each channel retains.
    pub closed spec fn capacity(&self) -> nat {
        self.buf_size as nat
    }

    pub closed spec fn channels(&self) -> nat {
        self.write_indexes@.len()
    }

    pub closed spec fn wf(&self) -> bool {
        &&& self.buf_size > 0
        &&& self.data@.len() == self.buf_size * self.write_indexes@.len()
        &&& self.buf_size * self.write_indexes@.len() <= usize::MAX
        &&& forall|c: int|
            0 <= c < self.write_indexes@.len() ==> self.write_indexes@[c] < self.buf_size
    }

    /// What channel `c` holds, newest first: entry `d` is the sample written
    /// `d` writes ago.
    pub closed spec fn history(&self, c: int) -> Seq<T> {
        Seq::new(
            self.buf_size as nat,
            |d: int|
                self.data@[c * self.buf_size + ring_slot(
                    self.write_indexes@[c] as int,
                    d,
                    self.buf_size as int,
                )],
        )
    }
}

impl<T> DelayLine<T> {
    /// A well-formed line has one history per channel, each as long as the
    /// capacity.
    pub proof fn lemma_view_shape(&self)
        requires
            self.wf(),
        ensures
            self.capacity() > 0,
            self@.len() == self.channels(),
            forall|c: int| 0 <= c < self.channels() ==> #[trigger] self@[c].len() == self.capacity(),
    {
    }
}

impl<T> View for DelayLine<T> {
    type V = Seq<Seq<T>>;

    /// One history per channel.
    closed spec fn view(&self) -> Seq<Seq<T>> {
        Seq::new(self.channels(), |c: int| self.history(c))
    }
}

/// The slot of a ring of `n` slots that holds the sample written `d` writes
/// before the one that the next write, at `cursor`, will replace.
pub open spec fn ring_slot(cursor: int, d: int, n: int) -> int {
    (cursor - 1 - d) % n
}

proof fn lemma_ring_slot_bounds(cursor: int, d: int, n: int)
    requires
        n > 0,
    ensures
        0 <= ring_slot(cursor, d, n) < n,
{
}

/// Reduction modulo `n` of a value less than one ring length outside `[0, n)`.
proof fn lemma_mod_near(x: int, n: int)
    requires
        n > 0,
        -n <= x < n,
    ensures
        x % n == if x < 0 {
            x + n
        } else {
            x
        },
{
    if x < 0 {
        lemma_mod_add_multiples_vanish(x, n);
        lemma_small_mod((x + n) as nat, n as nat);
    } else {
        lemma_small_mod(x as nat, n as nat);
    }
}

/// Advancing the cursor by one slot makes the slot just filled the newest
/// and shifts every older age by one; the slot just filled is none of the
/// older ones.
proof fn lemma_ring_advance(cur: int, n: int, d: int)
    requires
        0 <= cur < n,
        0 <= d < n,
    ensures
        d == 0 ==> ring_slot((cur + 1) % n, d, n) == cur,
        d > 0 ==> ring_slot((cur + 1) % n, d, n) == ring_slot(cur, d - 1, n),
        d > 0 ==> ring_slot(cur, d - 1, n) != cur,
{
    if cur + 1 == n {
        lemma_small_mod(0, n as nat);
        lemma_mod_add_multiples_vanish(0, n);
        assert((cur + 1) % n == 0);
        lemma_mod_near(-1 - d, n);
    } else {
        lemma_small_mod((cur + 1) as nat, n as nat);
    }
    lemma_mod_near(cur - d, n);
}

/// Slots of two different channels never coincide.
proof fn lemma_blocks_disjoint(c1: int, k1: int, c2: int, k2: int, n: int)
    requires
        0 <= c1,
        0 <= c2,
        c1 != c2,
        0 <= k1 < n,
        0 <= k2 < n,
    ensures
        c1 * n + k1 != c2 * n + k2,
{
    if c1 < c2 {
        assert(c1 * n + k1 < c2 * n + k2) by (nonlinear_arith)
            requires
                c1 < c2,
                0 <= k1 < n,
                0 <= k2,
        ;
    } else {
        assert(c2 * n + k2 < c1 * n + k1) by (nonlinear_arith)
            requires
                c2 < c1,
                0 <= k2 < n,
                0 <= k1,
        ;
    }
}

proof fn lemma_block_index(c: int, k: int, n: int, m: int)
    requires
        0 <= c < m,
        0 <= k < n,
    ensures
        0 <= c * n + k < n * m,
{
    assert(0 <= c * n + k < n * m) by (nonlinear_arith)
        requires
            0 <= c < m,
            0 <= k < n,
    ;
}

impl<T: num::Float> DelayLine<T> {
    /// A line of `num_channels` channels that each retain `buf_size` samples,
    /// all of them silent.
    pub fn new(buf_size: usize, num_channels: usize) -> (r: Self)
        requires
            buf_size > 0,
            buf_size * num_channels <= usize::MAX,
        ensures
            r.wf(),
            r.capacity() == buf_size,
            r.channels() == num_channels,
            r@.len() == num_channels,
            forall|c: int| 0 <= c < num_channels ==> #[trigger] r@[c].len() == buf_size,
            forall|c: int, d: int, e: int, f: int|
                0 <= c < num_channels && 0 <= d < buf_size && 0 <= e < num_channels && 0 <= f
                    < buf_size ==> #[trigger] r@[c][d] == #[trigger] r@[e][f],
    {
        let zero: T = silence();
        let total: usize = buf_size * num_channels;
        let mut data: Vec<T> = Vec::with_capacity(total);
        let mut i: usize = 0;
        while i < total
            invariant
                i <= total,
                data@.len() == i,
                forall|j: int| 0 <= j < i ==> data@[j] == zero,
            decreases total - i,
        {
            data.push(zero);
            i = i + 1;
        }
        let mut write_indexes: Vec<usize> = Vec::with_capacity(num_channels);
        let mut c: usize = 0;
        while c < num_channels
            invariant
                c <= num_channels,
                write_indexes@.len() == c,
                forall|j: int| 0 <= j < c ==> write_indexes@[j] == 0,
            decreases num_channels - c,
        {
            write_indexes.push(0);
            c = c + 1;
        }
        let r = DelayLine { buf_size, data, write_indexes };
        assert forall|c: int, d: int|
            0 <= c < num_channels && 0 <= d < buf_size implies #[trigger] r@[c][d] == zero by {
            let k = ring_slot(0, d, buf_size as int);
            lemma_ring_slot_bounds(0, d, buf_size as int);
            lemma_block_index(c, k, buf_size as int, num_channels as int);
            assert(r@[c] == r.history(c));
            assert(r@[c][d] == r.data@[c * buf_size + k]);
        }
        r
    }
}

impl<T: Copy> DelayLine<T> {
    /// Samples of delay that each channel retains.
    pub fn buf_size(&self) -> (r: usize)
        ensures
            r == self.capacity(),
    {
        self.buf_size
    }

    pub fn num_channels(&self) -> (r: usize)
        ensures
            r == self.channels(),
    {
        self.write_indexes.len()
    }

    /// Stores `sample` as the newest sample of `channel`; the oldest sample
    /// of that channel is overwritten and the other channels keep theirs.
    pub fn write(&mut self, channel: usize, sample: T)
        requires
            old(self).wf(),
            channel < old(self).channels(),
        ensures
            final(self).wf(),
            final(self).capacity() == old(self).capacity(),
            final(self).channels() == old(self).channels(),
            final(self)@ == old(self)@.update(
                channel as int,
                push_sample(old(self)@[channel as int], sample),
            ),
            forall|c: int|
                0 <= c < old(self).channels() && c != channel ==> #[trigger] final(self)@[c]
                    == old(self)@[c],
    {
        let ghost before = *self;
        let n = self.buf_size;
        let cur = self.write_indexes[channel];
        proof {
            lemma_block_index(channel as int, cur as int, n as int, self.write_indexes@.len() as int);
        }
        let ix = channel * n + cur;
        self.data.set(ix, sample);
        let next = (cur + 1) % n;
        self.write_indexes.set(channel, next);
        proof {
            let m = before.channels() as int;
            assert forall|c: int| 0 <= c < m implies #[trigger] self@[c] == before@.update(
                channel as int,
                push_sample(before@[channel as int], sample),
            )[c] by {
                assert(self@[c] == self.history(c));
                assert(before@[c] == before.history(c));
                if c == channel {
                    let h = push_sample(before.history(c), sample);
                    assert forall|d: int| 0 <= d < n implies #[trigger] self.history(c)[d] == h[d] by {
                        lemma_ring_slot_bounds(next as int, d, n as int);
                        lemma_ring_advance(cur as int, n as int, d);
                        if d > 0 {
                            lemma_ring_slot_bounds(cur as int, d - 1, n as int);
                            lemma_block_index(c, ring_slot(cur as int, d - 1, n as int), n as int, m);
                        }
                    }
                    assert(self.history(c) =~= h);
                } else {
                    assert forall|d: int| 0 <= d < n implies #[trigger] self.history(c)[d]
                        == before.history(c)[d] by {
                        let k = ring_slot(self.write_indexes@[c] as int, d, n as int);
                        lemma_ring_slot_bounds(self.write_indexes@[c] as int, d, n as int);
                        lemma_blocks_disjoint(c, k, channel as int, cur as int, n as int);
                        lemma_block_index(c, k, n as int, m);
                    }
                    assert(self.history(c) =~= before.history(c));
                }
            }
            assert(self@ =~= before@.update(channel as int, push_sample(before@[channel as int], sample)));
        }
    }

    /// The sample written `delay_samples` writes ago on `channel`. A delay of
    /// the capacity or more is taken modulo the capacity, so it never reaches
    /// outside the samples the channel retains.
    pub fn read(&self, channel: usize, delay_samples: usize) -> (r: &T)
        requires
            self.wf(),
            channel < self.channels(),
        ensures
            *r == self@[channel as int][delay_samples as int % self.capacity() as int],
    {
        let n = self.buf_size;
        let d = delay_samples % n;
        let cur = self.write_indexes[channel];
        let slot = if cur > d {
            cur - d - 1
        } else {
            n - (d + 1 - cur)
        };
        proof {
            lemma_mod_near(cur - 1 - d, n as int);
            lemma_block_index(channel as int, slot as int, n as int, self.write_indexes@.len() as int);
            assert(self@[channel as int] == self.history(channel as int));
        }
        &self.data[channel * n + slot]
    }

    /// The two neighbouring samples that a read at a fractional delay blends:
    /// the one `floored` writes ago and the one a write before it, both with
    /// the delay taken modulo the capacity.
    pub fn read_taps(&self, channel: usize, floored: usize) -> (r: (T, T))
        requires
            self.wf(),
            channel < self.channels(),
        ensures
            r.0 == self@[channel as int][floored as int % self.capacity() as int],
            r.1 == self@[channel as int][(floored as int + 1) % self.capacity() as int],
    {
        let n = self.buf_size;
        let d = floored % n;
        let y1 = *self.read(channel, d);
        let y2 = *self.read(channel, d + 1);
        proof {
            lemma_small_mod(d as nat, n as nat);
            lemma_add_mod_noop(floored as int, 1, n as int);
            lemma_add_mod_noop(d as int, 1, n as int);
        }
        (y1, y2)
    }
}

} // verus!
