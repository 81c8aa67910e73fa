//! A circular buffer of audio samples, written by a producer and read back as
//! frames aligned to the phase of a tuning frequency.
//!
//! The sample type is a parameter: the buffer moves samples around without
//! looking at them. The frame length and the read offset are computed by the
//! caller from the sample rate and the tuning frequency, and handed in as
//! integers.

use vstd::prelude::*;
use vstd::arithmetic::div_mod::{
    lemma_add_mod_noop_right, lemma_mod_add_multiples_vanish, lemma_mod_bound, lemma_small_mod,
    lemma_sub_mod_noop, lemma_mod_sub_multiples_vanish,
};
use crate::window::{
    window_of, pushed, sample_back, frame_of, lemma_write_shifts_window, lemma_pushed_step,
    lemma_pushed_empty, lemma_same_slot_shift, lemma_window_of_filled, lemma_pushed_slots,
};

verus! {

/// A buffer for one tuning frequency, holding one frame of samples.
pub struct FrameBuffer<T> {
    pub tuning_frequency: T,
    pub nr_periods: T,
    pub buffer: Vec<T>,
}

/// The most recent `samples.len()` samples of a stream, stored circularly.
pub struct WaveBuffer<T> {
    /// Sample rate of the stream.
    pub rate: T,
    /// The backing store; the sample of stream position `n` sits in slot `n % len`.
    pub samples: Vec<T>,
    /// Number of samples written so far; the next one goes to `index % len`.
    pub index: usize,
    /// Pre-allocated buffers, one per tuning frequency.
    pub frame_buffers: Vec<FrameBuffer<T>>,
}

/// `len` copies of `fill`.
fn filled<T: Copy>(len: usize, fill: T) -> (v: Vec<T>)
    ensures
        v@ == Seq::new(len as nat, |i: int| fill),
{
    let mut v: Vec<T> = Vec::new();
    let mut i: usize = 0;
    while i < len
        invariant
            i <= len,
            v@ == Seq::new(i as nat, |j: int| fill),
        decreases len - i,
    {
        v.push(fill);
        i += 1;
        proof {
            assert(v@ =~= Seq::new(i as nat, |j: int| fill));
        }
    }
    v
}

impl<T: Copy> FrameBuffer<T> {
    /// A frame buffer for `tuning_frequency`, holding `frame_len` samples, all
    /// `fill` (the frame length is the sample rate over the tuning frequency,
    /// rounded).
    pub fn new(nr_periods: T, tuning_frequency: T, frame_len: usize, fill: T) -> (fb: Self)
        ensures
            fb.tuning_frequency == tuning_frequency,
            fb.nr_periods == nr_periods,
            fb.buffer@ == Seq::new(frame_len as nat, |i: int| fill),
    {
        FrameBuffer { tuning_frequency, nr_periods, buffer: filled(frame_len, fill) }
    }
}

impl<T: Copy> WaveBuffer<T> {
    /// An empty wave buffer of `len` samples, all `fill`, with one frame buffer
    /// per tuning: `tunings[i]` is a tuning frequency and its frame length.
    pub fn new(rate: T, len: usize, periods: T, tunings: &[(T, usize)], fill: T) -> (wb: Self)
        ensures
            wb.rate == rate,
            wb.index == 0,
            wb.samples@ == Seq::new(len as nat, |i: int| fill),
            wb.window() == Seq::new(len as nat, |i: int| fill),
            wb.frame_buffers.len() == tunings.len(),
            forall|i: int|
                0 <= i < tunings.len() ==> {
                    &&& (#[trigger] wb.frame_buffers@[i]).tuning_frequency == tunings@[i].0
                    &&& wb.frame_buffers@[i].nr_periods == periods
                    &&& wb.frame_buffers@[i].buffer@ == Seq::new(tunings@[i].1 as nat, |j: int| fill)
                },
    {
        let mut frame_buffers: Vec<FrameBuffer<T>> = Vec::new();
        let mut i: usize = 0;
        while i < tunings.len()
            invariant
                i <= tunings.len(),
                frame_buffers.len() == i,
                forall|k: int|
                    0 <= k < i ==> {
                        &&& (#[trigger] frame_buffers@[k]).tuning_frequency == tunings@[k].0
                        &&& frame_buffers@[k].nr_periods == periods
                        &&& frame_buffers@[k].buffer@ == Seq::new(tunings@[k].1 as nat, |j: int| fill)
                    },
            decreases tunings.len() - i,
        {
            let (tuning_frequency, frame_len) = tunings[i];
            frame_buffers.push(FrameBuffer::new(periods, tuning_frequency, frame_len, fill));
            i += 1;
        }
        let wb = WaveBuffer {
            rate,
            samples: filled(len, fill),
            // we start at index 0
            index: 0,
            frame_buffers,
        };
        proof {
            lemma_window_of_filled(len as nat, 0, fill);
        }
        wb
    }

    /// The buffer in chronological order: oldest sample first, newest last.
    pub open spec fn window(&self) -> Seq<T> {
        window_of(self.samples@, self.index as int)
    }

    /// Appends `input` to the stream. Once the buffer is full, each new sample
    /// overwrites the oldest one.
    pub fn add_samples(&mut self, input: &[T])
        requires
            old(self).samples.len() > 0,
            old(self).index + input.len() <= usize::MAX,
        ensures
            final(self).samples.len() == old(self).samples.len(),
            final(self).index == old(self).index + input.len(),
            final(self).window() == pushed(old(self).window(), input@),
            // the last `len` input samples sit in the slots of their stream positions
            forall|j: int|
                0 <= j < input.len() && input.len() - old(self).samples.len() <= j
                    ==> #[trigger] final(self).samples@[(old(self).index + j) % (
                old(self).samples.len() as int)] == input@[j],
            // the slots that no input sample lands in are kept
            forall|p: int|
                0 <= p < old(self).samples.len() && (p - old(self).index) % (
                old(self).samples.len() as int) >= input.len() ==> #[trigger] final(self).samples@[p]
                    == old(self).samples@[p],
            final(self).rate == old(self).rate,
            final(self).frame_buffers == old(self).frame_buffers,
    {
        let len = self.samples.len();
        let mut index = self.index % len;
        let mut i: usize = 0;
        proof {
            lemma_pushed_empty(old(self).window());
            assert(input@.take(0) =~= Seq::<T>::empty());
        }
        while i < input.len()
            invariant
                len == self.samples.len(),
                len > 0,
                self.index == old(self).index,
                self.rate == old(self).rate,
                self.frame_buffers == old(self).frame_buffers,
                old(self).samples.len() == len,
                i <= input.len(),
                index == (self.index + i) % (len as int),
                window_of(self.samples@, self.index + i) == pushed(
                    old(self).window(),
                    input@.take(i as int),
                ),
            decreases input.len() - i,
        {
            let sample = input[i];
            proof {
                lemma_write_shifts_window(self.samples@, self.index + i, sample);
                lemma_pushed_step(old(self).window(), input@.take(i as int), sample);
                assert(input@.take(i as int).push(sample) =~= input@.take(i + 1));
            }
            self.samples.set(index, sample);
            proof {
                lemma_add_mod_noop_right(1, self.index + i, len as int);
                lemma_mod_bound(self.index + i, len as int);
                assert(1 + (self.index + i) == self.index + (i + 1));
            }
            index = (index + 1) % len;
            i += 1;
        }
        proof {
            assert(input@.take(i as int) =~= input@);
        }
        self.index = self.index + input.len();
        proof {
            lemma_pushed_slots(old(self).samples@, self.samples@, old(self).index as int, input@);
        }
    }

    /// The sample written `k` writes ago (for `1 <= k <= samples.len()`).
    pub open spec fn sample_back(&self, k: int) -> T {
        sample_back(self.samples@, self.index as int, k)
    }

    /// The frame that `to_iterator(offset, frame_len)` reads.
    pub open spec fn frame(&self, offset: int, frame_len: int) -> Seq<T> {
        frame_of(self.samples@, self.index as int, offset, frame_len)
    }

    /// Reads one frame of `frame_len` samples, phase aligned by `offset`:
    /// first the `frame_len - offset` older samples of the previous frame,
    /// most recent first, then the `offset` most recent samples, most recent
    /// first. A frame longer than the buffer wraps around it.
    pub fn to_iterator(&self, offset: usize, frame_len: usize) -> (frame: Vec<T>)
        requires
            offset <= frame_len,
            frame_len == 0 || self.samples.len() > 0,
        ensures
            frame@ == self.frame(offset as int, frame_len as int),
            frame@.len() == frame_len,
            forall|t: int|
                0 <= t < frame_len ==> #[trigger] frame@[t] == self.sample_back(
                    1 + (offset + t) % (frame_len as int),
                ),
    {
        let len = self.samples.len();
        let head = if len == 0 { 0 } else { self.index % len };
        // slot of stream position `index - offset`
        let start = if len == 0 {
            0
        } else {
            let back = offset % len;
            if head >= back { head - back } else { head + (len - back) }
        };
        proof {
            if len > 0 {
                let l = len as int;
                lemma_mod_bound(self.index as int, l);
                lemma_mod_bound(offset as int, l);
                lemma_sub_mod_noop(self.index as int, offset as int, l);
                lemma_small_mod(head as nat, len as nat);
                if head >= offset % len {
                    lemma_small_mod(start as nat, len as nat);
                } else {
                    lemma_mod_add_multiples_vanish(head as int - (offset as int) % l, l);
                    lemma_small_mod(start as nat, len as nat);
                }
                assert(start as int % l == (self.index - offset) % l);
            }
        }
        // the older part of the frame, read backwards from `index - offset`
        let mut older = WaveBufferIter { buffer: self, index: start, nr_items: frame_len - offset };
        // the most recent part, read backwards from `index`
        let mut newer = WaveBufferIter { buffer: self, index: self.index, nr_items: offset };
        proof {
            let l = len as int;
            assert forall|t: int| 0 <= t < older.nr_items implies #[trigger] older.pending()[t]
                == self.sample_back(offset + 1 + t) by {
                lemma_same_slot_shift(start as int, self.index - offset, -(1 + t), l);
            }
        }
        let ghost older_pending = older.pending();
        let ghost newer_pending = newer.pending();
        let mut frame: Vec<T> = Vec::new();
        older.collect_into(&mut frame);
        newer.collect_into(&mut frame);
        proof {
            let f = frame_len as int;
            let o = offset as int;
            assert forall|t: int| 0 <= t < f implies #[trigger] frame@[t] == self.frame(o, f)[t] by {
                if t < f - o {
                    lemma_small_mod((o + t) as nat, f as nat);
                    assert(frame@[t] == older_pending[t]);
                } else {
                    lemma_mod_sub_multiples_vanish(o + t, f);
                    lemma_small_mod((o + t - f) as nat, f as nat);
                    assert(-f + (o + t) == t - (f - o));
                    assert(frame@[t] == newer_pending[t - (f - o)]);
                }
            }
            assert(frame@ =~= self.frame(o, f));
        }
        frame
    }
}

/// Reads a wave buffer backwards in time, one slot at a time.
struct WaveBufferIter<'a, T> {
    buffer: &'a WaveBuffer<T>,
    /// the slot just after the next one to read
    index: usize,
    /// how many samples are still to be read
    nr_items: usize,
}

impl<'a, T: Copy> WaveBufferIter<'a, T> {
    /// A non-empty read needs a non-empty buffer; the position may be any
    /// stream position, it is taken modulo the buffer length.
    spec fn inv(&self) -> bool {
        self.nr_items > 0 ==> self.buffer.samples.len() > 0
    }

    /// The samples still to be read, in the order they come out.
    spec fn pending(&self) -> Seq<T> {
        Seq::new(
            self.nr_items as nat,
            |t: int| sample_back(self.buffer.samples@, self.index as int, 1 + t),
        )
    }

    /// What one call of `next` does, taking `self` to `after` and giving
    /// `sample`: with samples left to read it steps back one slot, wrapping
    /// around, and reads that slot; with none left it gives `None` and stays.
    spec fn steps_to(&self, after: Self, sample: Option<T>) -> bool {
        &&& after.buffer == self.buffer
        &&& self.nr_items == 0 ==> {
            &&& sample is None
            &&& after.index == self.index
            &&& after.nr_items == 0
        }
        &&& self.nr_items > 0 ==> {
            let len = self.buffer.samples.len() as int;
            &&& after.index == (self.index + len - 1) % len
            &&& after.nr_items == self.nr_items - 1
            &&& sample == Some(self.buffer.samples@[after.index as int])
        }
    }

    /// One step gives the first sample still to be read, and leaves the rest.
    proof fn lemma_step_pending(&self, after: Self, sample: Option<T>)
        requires
            self.inv(),
            self.steps_to(after, sample),
        ensures
            after.inv(),
            self.nr_items == 0 ==> sample is None && after.pending() == self.pending(),
            self.nr_items > 0 ==> sample == Some(self.pending()[0])
                && after.pending() == self.pending().drop_first(),
    {
        if self.nr_items == 0 {
            assert(after.pending() =~= self.pending());
        } else {
            let l = self.buffer.samples.len() as int;
            let prev = after.index as int;
            lemma_mod_add_multiples_vanish(self.index - 1, l);
            assert(l + (self.index - 1) == self.index + l - 1);
            assert(prev % l == (self.index - 1) % l) by {
                lemma_mod_bound(self.index - 1, l);
                lemma_small_mod(prev as nat, l as nat);
            }
            lemma_same_slot_shift(prev, self.index - 1, -1, l);
            assert forall|t: int| 0 <= t < self.nr_items - 1 implies
                #[trigger] after.pending()[t] == self.pending()[t + 1] by {
                lemma_same_slot_shift(prev, self.index - 1, -(1 + t), l);
            }
            assert(after.pending() =~= self.pending().drop_first());
        }
    }

    /// Successive calls of `next` on an iterator with `nr_items == m` give the
    /// `m` samples still to be read, in order, and `None` at every call after
    /// that: `states[j]` is the iterator after `j` calls and `samples[j]` what
    /// call `j + 1` gave.
    proof fn lemma_successive_next(states: Seq<Self>, samples: Seq<Option<T>>)
        requires
            states.len() == samples.len() + 1,
            states[0].inv(),
            forall|j: int| 0 <= j < samples.len() ==> #[trigger] states[j].steps_to(states[j + 1], samples[j]),
        ensures
            forall|j: int|
                0 <= j < samples.len() && j < states[0].nr_items ==> #[trigger] samples[j] == Some(
                    states[0].pending()[j],
                ),
            forall|j: int| 0 <= j < samples.len() && j >= states[0].nr_items ==> #[trigger] samples[j] is None,
            forall|j: int|
                0 <= j < states.len() ==> {
                    &&& (#[trigger] states[j]).inv()
                    &&& states[j].buffer == states[0].buffer
                    &&& j <= states[0].nr_items ==> states[j].pending() == states[0].pending().skip(j)
                    &&& j >= states[0].nr_items ==> states[j].nr_items == 0
                },
        decreases samples.len(),
    {
        if samples.len() > 0 {
            let n = samples.len() - 1;
            Self::lemma_successive_next(states.drop_last(), samples.drop_last());
            assert(states.drop_last()[n] == states[n]);
            assert(states.drop_last()[0] == states[0]);
            assert(states[n].steps_to(states[n + 1], samples[n]));
            states[n].lemma_step_pending(states[n + 1], samples[n]);
            let m = states[0].nr_items as int;
            assert forall|j: int| 0 <= j < samples.len() && j < m implies #[trigger] samples[j]
                == Some(states[0].pending()[j]) by {
                if j < n {
                    assert(samples.drop_last()[j] == samples[j]);
                    assert(samples.drop_last()[j] == Some(states.drop_last()[0].pending()[j]));
                } else {
                    assert(states[n].pending() == states[0].pending().skip(n));
                    assert(states[0].pending().skip(n).len() == m - n);
                    assert(states[n].pending().len() == states[n].nr_items);
                    assert(states[n].nr_items > 0);
                    assert(samples[n] == Some(states[n].pending()[0]));
                    assert(states[0].pending().skip(n)[0] == states[0].pending()[n]);
                }
            }
            assert forall|j: int| 0 <= j < samples.len() && j >= m implies #[trigger] samples[j] is None by {
                if j < n {
                    assert(samples.drop_last()[j] == samples[j]);
                }
            }
            assert forall|j: int| 0 <= j < states.len() implies {
                &&& (#[trigger] states[j]).inv()
                &&& states[j].buffer == states[0].buffer
                &&& j <= m ==> states[j].pending() == states[0].pending().skip(j)
                &&& j >= m ==> states[j].nr_items == 0
            } by {
                if j <= n {
                    assert(states.drop_last()[j] == states[j]);
                } else if j <= m {
                    assert(states[0].pending().skip(n).drop_first() =~= states[0].pending().skip(j));
                }
            }
        }
    }

    /// Steps back one slot, wrapping around, and reads it; `None` once
    /// `nr_items` samples have been read.
    fn next(&mut self) -> (sample: Option<T>)
        requires
            old(self).inv(),
        ensures
            final(self).inv(),
            old(self).steps_to(*final(self), sample),
            old(self).nr_items > 0 ==> sample == Some(old(self).pending()[0])
                && final(self).pending() == old(self).pending().drop_first(),
    {
        if self.nr_items == 0 {
            return None;
        }
        let len = self.buffer.samples.len();
        // index points past the next sample, so step back first, wrapping
        // around: the slot of stream position `index - 1`
        let prev = if self.index == 0 { len - 1 } else { (self.index - 1) % len };
        proof {
            let l = len as int;
            lemma_mod_add_multiples_vanish(self.index - 1, l);
            assert(l + (self.index - 1) == self.index + l - 1);
            lemma_mod_bound(self.index - 1, l);
            lemma_small_mod(prev as nat, len as nat);
            assert(prev as int == (self.index + l - 1) % l);
        }
        self.index = prev;
        let sample = self.buffer.samples[self.index];
        self.nr_items = self.nr_items - 1;
        proof {
            old(self).lemma_step_pending(*self, Some(sample));
        }
        Some(sample)
    }

    /// Appends the samples still to be read to `frame`.
    fn collect_into(&mut self, frame: &mut Vec<T>)
        requires
            old(self).inv(),
        ensures
            final(frame)@ == old(frame)@ + old(self).pending(),
            final(self).buffer == old(self).buffer,
            final(self).nr_items == 0,
    {
        loop
            invariant
                self.inv(),
                self.buffer == old(self).buffer,
                frame@ + self.pending() == old(frame)@ + old(self).pending(),
            ensures
                frame@ == old(frame)@ + old(self).pending(),
                self.nr_items == 0,
            decreases self.nr_items,
        {
            let ghost before = self.pending();
            match self.next() {
                Some(sample) => {
                    proof {
                        assert(frame@.push(sample) + self.pending() =~= frame@ + before);
                    }
                    frame.push(sample);
                },
                None => {
                    proof {
                        assert(frame@ + self.pending() =~= frame@);
                    }
                    break;
                },
            }
        }
    }
}

} // verus!
