//! What holds of a wave buffer across calls: the buffer keeps the latest
//! samples, chunking the input does not matter, and a frame read with the
//! phase offset shows a periodic signal the same way whenever it is read.

use vstd::prelude::*;
use vstd::arithmetic::div_mod::{
    lemma_mod_bound, lemma_small_mod, lemma_mod_sub_multiples_vanish, lemma_add_mod_noop_right,
    lemma_mod_add_multiples_vanish,
};
use crate::wave_buffer::WaveBuffer;
use crate::window::{
    pushed, stream_at, lemma_pushed_concat, lemma_pushed_empty, lemma_window_determines_slots,
    lemma_window_back, lemma_frame_phase, lemma_periodic_phase, lemma_distinct_slots,
};

verus! {

/// After samples are added, reading `k` samples back (for `k` up to both the
/// number added and the buffer length) gives the `k`-th last sample added: a
/// read gives back what the write wrote, until the buffer wraps over it.
pub proof fn law_read_back_written<T: Copy>(
    before: WaveBuffer<T>,
    after: WaveBuffer<T>,
    input: Seq<T>,
    k: int,
)
    requires
        after.samples.len() == before.samples.len(),
        after.index == before.index + input.len(),
        after.window() == pushed(before.window(), input),
        1 <= k <= input.len(),
        k <= before.samples.len(),
    ensures
        after.sample_back(k) == input[input.len() - k],
{
    lemma_window_back(after.samples@, after.index as int, k);
}

/// Once at least as many samples as the buffer holds have been added, the
/// buffer holds exactly the last of them, oldest first; before that, it holds
/// the newest of its previous samples followed by all of them.
pub proof fn law_window_after_add<T: Copy>(before: WaveBuffer<T>, after: WaveBuffer<T>, input: Seq<T>)
    requires
        after.samples.len() == before.samples.len(),
        after.index == before.index + input.len(),
        after.window() == pushed(before.window(), input),
    ensures
        input.len() >= before.samples.len() ==> after.window() == input.subrange(
            input.len() - before.samples.len(),
            input.len() as int,
        ),
        input.len() < before.samples.len() ==> after.window() == before.window().subrange(
            input.len() as int,
            before.samples.len() as int,
        ) + input,
{
    let l = before.samples.len() as int;
    let m = input.len() as int;
    if m >= l {
        assert(after.window() =~= input.subrange(m - l, m));
    } else {
        assert(after.window() =~= before.window().subrange(m, l) + input);
    }
}

/// Adding `first` and then `second` leaves the buffer exactly as adding
/// `first + second` at once.
pub proof fn law_add_samples_in_chunks<T: Copy>(
    start: WaveBuffer<T>,
    middle: WaveBuffer<T>,
    end: WaveBuffer<T>,
    at_once: WaveBuffer<T>,
    first: Seq<T>,
    second: Seq<T>,
)
    requires
        middle.samples.len() == start.samples.len(),
        middle.index == start.index + first.len(),
        middle.window() == pushed(start.window(), first),
        end.samples.len() == middle.samples.len(),
        end.index == middle.index + second.len(),
        end.window() == pushed(middle.window(), second),
        at_once.samples.len() == start.samples.len(),
        at_once.index == start.index + (first + second).len(),
        at_once.window() == pushed(start.window(), first + second),
    ensures
        end.samples@ == at_once.samples@,
        end.index == at_once.index,
{
    lemma_pushed_concat(start.window(), first, second);
    lemma_window_determines_slots(end.samples@, at_once.samples@, end.index as int);
}

/// A frame holds exactly `frame_len` samples, and each of the last
/// `frame_len` written appears in it: the one written `k` writes ago sits at
/// position `(k - 1 - offset) mod frame_len`, a distinct position for each `k`,
/// so these fill the frame. When
/// `0 < offset < frame_len`, the oldest of them (end of the older part) is
/// directly followed by the newest (start of the recent part).
pub proof fn law_frame_holds_last_samples<T: Copy>(
    buffer: WaveBuffer<T>,
    offset: int,
    frame_len: int,
    k: int,
)
    requires
        0 <= offset <= frame_len,
        1 <= k <= frame_len,
    ensures
        buffer.frame(offset, frame_len).len() == frame_len,
        buffer.frame(offset, frame_len)[(k - 1 - offset) % frame_len] == buffer.sample_back(k),
        0 < offset < frame_len ==> buffer.frame(offset, frame_len)[frame_len - offset - 1]
            == buffer.sample_back(frame_len),
        0 < offset < frame_len ==> buffer.frame(offset, frame_len)[frame_len - offset]
            == buffer.sample_back(1),
{
    let t = (k - 1 - offset) % frame_len;
    lemma_mod_bound(k - 1 - offset, frame_len);
    lemma_add_mod_noop_right(offset, k - 1 - offset, frame_len);
    lemma_small_mod((k - 1) as nat, frame_len as nat);
    assert(offset + (k - 1 - offset) == k - 1);
    if 0 < offset < frame_len {
        lemma_small_mod((frame_len - 1) as nat, frame_len as nat);
        lemma_mod_sub_multiples_vanish(frame_len, frame_len);
        lemma_small_mod(0, frame_len as nat);
        assert(offset + (frame_len - offset - 1) == frame_len - 1);
        assert(-frame_len + (offset + (frame_len - offset)) == 0);
    }
}

/// Distinct samples among the last `frame_len` sit at distinct frame
/// positions, so the `frame_len` positions of a frame hold each of them once.
pub proof fn law_frame_positions_distinct(offset: int, frame_len: int, k1: int, k2: int)
    requires
        1 <= k1 < k2 <= frame_len,
    ensures
        (k1 - 1 - offset) % frame_len != (k2 - 1 - offset) % frame_len,
{
    lemma_distinct_slots(k1 - 1 - offset, k2 - k1, frame_len);
    assert(k1 - 1 - offset + (k2 - k1) == k2 - 1 - offset);
}

/// A signal with period `period` whose last period fills the end of the
/// buffer, read as a frame of `period` samples with the phase offset
/// `index % period`, shows the same frame whatever the number of samples
/// written so far: position `t` holds the signal at phase `period - 1 - t`.
/// An in-tune signal stands still, whatever the older samples hold.
pub proof fn law_frame_phase_aligned<T: Copy>(
    buffer: WaveBuffer<T>,
    signal: spec_fn(int) -> T,
    period: int,
    t: int,
)
    requires
        0 < period <= buffer.samples.len(),
        forall|k: int|
            buffer.samples.len() - period <= k < buffer.samples.len() ==> #[trigger] buffer.window()[k]
                == signal((buffer.index - buffer.samples.len() + k) % period),
        0 <= t < period,
    ensures
        buffer.frame((buffer.index as int) % period, period)[t] == signal(period - 1 - t),
{
    let n = buffer.index as int;
    let l = buffer.samples.len() as int;
    let j = (n % period + t) % period;
    lemma_mod_bound(n % period + t, period);
    lemma_window_back(buffer.samples@, n, 1 + j);
    assert(buffer.window()[l - (1 + j)] == signal((n - l + (l - (1 + j))) % period));
    assert(n - l + (l - (1 + j)) == n - 1 - j);
    lemma_frame_phase(n, period, t);
}

/// The buffer is what `WaveBuffer::new` with `fill` leaves after `stream` has
/// been added to it, in any number of `add_samples` calls.
pub open spec fn holds_stream<T: Copy>(buffer: WaveBuffer<T>, fill: T, stream: Seq<T>) -> bool {
    &&& buffer.index == stream.len()
    &&& buffer.window() == pushed(Seq::new(buffer.samples.len() as nat, |i: int| fill), stream)
}

/// A new buffer holds the empty stream.
pub proof fn law_new_holds_empty_stream<T: Copy>(buffer: WaveBuffer<T>, fill: T)
    requires
        buffer.index == 0,
        buffer.window() == Seq::new(buffer.samples.len() as nat, |i: int| fill),
    ensures
        holds_stream(buffer, fill, Seq::empty()),
{
    lemma_pushed_empty(Seq::new(buffer.samples.len() as nat, |i: int| fill));
}

/// Adding `input` to a buffer that holds `stream` makes it hold `stream + input`.
pub proof fn law_add_extends_stream<T: Copy>(
    before: WaveBuffer<T>,
    after: WaveBuffer<T>,
    fill: T,
    stream: Seq<T>,
    input: Seq<T>,
)
    requires
        holds_stream(before, fill, stream),
        after.samples.len() == before.samples.len(),
        after.index == before.index + input.len(),
        after.window() == pushed(before.window(), input),
    ensures
        holds_stream(after, fill, stream + input),
{
    lemma_pushed_concat(Seq::new(before.samples.len() as nat, |i: int| fill), stream, input);
}

/// A buffer of `len` slots that holds `stream` keeps its last `len` samples,
/// stream position `q` in slot `q % len`, and `fill` in the slots not yet
/// written; reading `k` back gives stream position `index - k` (`fill` before
/// the stream starts).
pub proof fn law_slots_hold_stream<T: Copy>(buffer: WaveBuffer<T>, fill: T, stream: Seq<T>)
    requires
        buffer.samples.len() > 0,
        holds_stream(buffer, fill, stream),
    ensures
        forall|q: int|
            stream.len() - buffer.samples.len() <= q < stream.len() && 0 <= q ==> buffer.samples@[q
                % (buffer.samples.len() as int)] == #[trigger] stream[q],
        forall|q: int|
            stream.len() <= q < buffer.samples.len() ==> #[trigger] buffer.samples@[q] == fill,
        forall|k: int|
            1 <= k <= buffer.samples.len() ==> #[trigger] buffer.sample_back(k) == stream_at(
                stream,
                fill,
                stream.len() - k,
            ),
{
    let n = stream.len() as int;
    let l = buffer.samples.len() as int;
    let initial = Seq::new(l as nat, |i: int| fill);
    assert forall|q: int| n - l <= q < n && 0 <= q implies buffer.samples@[q % l]
        == #[trigger] stream[q] by {
        let k = q - n + l;
        assert(buffer.window()[k] == buffer.samples@[(n + k) % l]);
        assert(n + k == l + q);
        lemma_mod_add_multiples_vanish(q, l);
        assert(pushed(initial, stream)[k] == (initial + stream)[n + k]);
    }
    assert forall|q: int| n <= q < l implies #[trigger] buffer.samples@[q] == fill by {
        let k = q - n;
        assert(buffer.window()[k] == buffer.samples@[(n + k) % l]);
        lemma_small_mod(q as nat, l as nat);
        assert(pushed(initial, stream)[k] == (initial + stream)[n + k]);
    }
    assert forall|k: int| 1 <= k <= l implies #[trigger] buffer.sample_back(k) == stream_at(
        stream,
        fill,
        n - k,
    ) by {
        lemma_window_back(buffer.samples@, n, k);
        assert(pushed(initial, stream)[l - k] == (initial + stream)[n + l - k]);
    }
}

/// In a buffer that holds `stream`, frame position `t` reads stream position
/// `index - 1 - (offset + t) % frame_len`. With the phase offset
/// `index % frame_len`, that position lies in the last `frame_len` samples and
/// its phase is `frame_len - 1 - t`, whatever the number of samples written.
pub proof fn law_frame_of_stream<T: Copy>(
    buffer: WaveBuffer<T>,
    fill: T,
    stream: Seq<T>,
    offset: int,
    frame_len: int,
    t: int,
)
    requires
        holds_stream(buffer, fill, stream),
        0 < frame_len <= buffer.samples.len(),
        0 <= offset <= frame_len,
        0 <= t < frame_len,
    ensures
        buffer.frame(offset, frame_len).len() == frame_len,
        buffer.frame(offset, frame_len)[t] == stream_at(
            stream,
            fill,
            stream.len() - 1 - (offset + t) % frame_len,
        ),
        offset == (stream.len() as int) % frame_len ==> {
            let q = stream.len() - 1 - (offset + t) % frame_len;
            &&& stream.len() - frame_len <= q < stream.len()
            &&& q % frame_len == frame_len - 1 - t
        },
{
    lemma_mod_bound(offset + t, frame_len);
    law_slots_hold_stream(buffer, fill, stream);
    assert(buffer.sample_back(1 + (offset + t) % frame_len) == stream_at(
        stream,
        fill,
        stream.len() - (1 + (offset + t) % frame_len),
    ));
    if offset == (stream.len() as int) % frame_len {
        lemma_frame_phase(stream.len() as int, frame_len, t);
    }
}

/// Two buffers fed the same in-tune signal (one that repeats every
/// `frame_len` samples) show the same frame once a frame's worth has been
/// written, however many samples that was: position `t` holds the signal's
/// sample `frame_len - 1 - t`.
pub proof fn law_steady_frame<T: Copy>(
    buffer: WaveBuffer<T>,
    fill: T,
    stream: Seq<T>,
    frame_len: int,
    t: int,
)
    requires
        holds_stream(buffer, fill, stream),
        0 < frame_len <= buffer.samples.len(),
        frame_len <= stream.len(),
        forall|p: int|
            0 <= p && p + frame_len < stream.len() ==> #[trigger] stream[p] == stream[p + frame_len],
        0 <= t < frame_len,
    ensures
        buffer.frame((buffer.index as int) % frame_len, frame_len)[t] == stream[frame_len - 1 - t],
{
    let n = stream.len() as int;
    law_frame_of_stream(buffer, fill, stream, n % frame_len, frame_len, t);
    lemma_mod_bound(n, frame_len);
    let q = n - 1 - (n % frame_len + t) % frame_len;
    lemma_periodic_phase(stream, frame_len, q);
}

} // verus!
