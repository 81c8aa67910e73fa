//! The mathematical model of a circular sample buffer: where a write lands,
//! what the buffer holds in chronological order, and how a frame is read back.

use vstd::prelude::*;
use vstd::arithmetic::div_mod::{
    lemma_mod_equivalence, lemma_small_mod, lemma_mod_bound, lemma_add_mod_noop,
    lemma_mod_add_multiples_vanish, lemma_add_mod_noop_right, lemma_fundamental_div_mod,
    lemma_fundamental_div_mod_converse, lemma_mod_sub_multiples_vanish,
};

verus! {

/// The slots of `samples` read in stream order, starting at the slot of stream
/// position `start` and wrapping around: `samples[start % len]`,
/// `samples[(start + 1) % len]`, and so on, `len` of them.
pub open spec fn window_of<T>(samples: Seq<T>, start: int) -> Seq<T> {
    Seq::new(samples.len(), |k: int| samples[(start + k) % (samples.len() as int)])
}

/// What a window of fixed length holds after `input` has been streamed into it:
/// the last `window.len()` values of the old window followed by the input.
pub open spec fn pushed<T>(window: Seq<T>, input: Seq<T>) -> Seq<T> {
    (window + input).subrange(input.len() as int, (input.len() + window.len()) as int)
}

/// The value in the slot of stream position `n - k`: after `n` writes, the
/// sample written `k` writes ago (for `1 <= k <= samples.len()`).
pub open spec fn sample_back<T>(samples: Seq<T>, n: int, k: int) -> T {
    samples[(n - k) % (samples.len() as int)]
}

/// The frame of `frame_len` samples that is read back after `n` writes with a
/// phase offset of `offset`: position `t` holds the sample written
/// `1 + (offset + t) % frame_len` writes ago. The first `frame_len - offset`
/// positions run back in time from `offset + 1` writes ago, the remaining
/// `offset` positions run back in time from the newest sample.
pub open spec fn frame_of<T>(samples: Seq<T>, n: int, offset: int, frame_len: int) -> Seq<T> {
    Seq::new(frame_len as nat, |t: int| sample_back(samples, n, 1 + (offset + t) % frame_len))
}

/// Stream positions in the same slot stay in the same slot when both move by `d`.
pub proof fn lemma_same_slot_shift(a: int, b: int, d: int, len: int)
    requires
        len > 0,
        a % len == b % len,
    ensures
        (a + d) % len == (b + d) % len,
{
    lemma_add_mod_noop(a, d, len);
    lemma_add_mod_noop(b, d, len);
}

/// Two distinct stream positions less than `len` apart land in distinct slots.
pub proof fn lemma_distinct_slots(n: int, j: int, len: int)
    requires
        0 < j < len,
    ensures
        (n + j) % len != n % len,
{
    lemma_mod_equivalence(n + j, n, len);
    lemma_small_mod(j as nat, len as nat);
}

/// Writing `x` into the slot of stream position `n` shifts the window that
/// starts there by one: the oldest value leaves and `x` becomes the newest.
pub proof fn lemma_write_shifts_window<T>(samples: Seq<T>, n: int, x: T)
    requires
        samples.len() > 0,
    ensures
        window_of(samples.update(n % (samples.len() as int), x), n + 1)
            =~= window_of(samples, n).drop_first().push(x),
{
    let len = samples.len() as int;
    let s2 = samples.update(n % len, x);
    let w = window_of(samples, n);
    let w2 = window_of(s2, n + 1);
    lemma_mod_bound(n, len);
    assert forall|k: int| 0 <= k < len implies #[trigger] w2[k] == w.drop_first().push(x)[k] by {
        lemma_mod_bound(n + 1 + k, len);
        if k < len - 1 {
            lemma_distinct_slots(n, 1 + k, len);
            assert(n + 1 + k == n + (1 + k));
        } else {
            lemma_mod_add_multiples_vanish(n, len);
            assert(n + 1 + k == len + n);
        }
    }
}

/// Streaming one more value into a window is the same as dropping its oldest
/// value and appending the new one.
pub proof fn lemma_pushed_step<T>(window: Seq<T>, input: Seq<T>, x: T)
    requires
        window.len() > 0,
    ensures
        pushed(window, input.push(x)) =~= pushed(window, input).drop_first().push(x),
{
}

/// Streaming nothing leaves a window unchanged.
pub proof fn lemma_pushed_empty<T>(window: Seq<T>)
    ensures
        pushed(window, Seq::<T>::empty()) =~= window,
{
}

/// The window of a buffer whose slots all hold `fill` holds `fill` throughout.
pub proof fn lemma_window_of_filled<T>(len: nat, n: int, fill: T)
    ensures
        window_of(Seq::new(len, |i: int| fill), n) =~= Seq::new(len, |i: int| fill),
{
    let s = Seq::new(len, |i: int| fill);
    assert forall|k: int| 0 <= k < len implies #[trigger] window_of(s, n)[k] == fill by {
        lemma_mod_bound(n + k, len as int);
    }
}

/// Streaming `a` and then `b` into a window leaves it as streaming `a + b` at once.
pub proof fn lemma_pushed_concat<T>(window: Seq<T>, a: Seq<T>, b: Seq<T>)
    ensures
        pushed(pushed(window, a), b) =~= pushed(window, a + b),
{
    let l = window.len() as int;
    assert forall|k: int| 0 <= k < l implies #[trigger] pushed(pushed(window, a), b)[k]
        == pushed(window, a + b)[k] by {
        if b.len() + k < l {
            assert(pushed(pushed(window, a), b)[k] == pushed(window, a)[b.len() + k]);
        }
    }
}

/// A window determines the slots it was read from: two buffers of one length
/// with equal windows at the same stream position are equal.
pub proof fn lemma_window_determines_slots<T>(s1: Seq<T>, s2: Seq<T>, n: int)
    requires
        s1.len() == s2.len(),
        window_of(s1, n) == window_of(s2, n),
    ensures
        s1 == s2,
{
    let l = s1.len() as int;
    assert forall|p: int| 0 <= p < l implies #[trigger] s1[p] == s2[p] by {
        let k = (p - n) % l;
        lemma_mod_bound(p - n, l);
        lemma_add_mod_noop_right(n, p - n, l);
        lemma_small_mod(p as nat, l as nat);
        assert(n + (p - n) == p);
        assert((n + k) % l == p);
        assert(window_of(s1, n)[k] == s1[(n + k) % l]);
        assert(window_of(s1, n)[k] == window_of(s2, n)[k]);
    }
    assert(s1 =~= s2);
}

/// Reading `k` writes back is reading the window `k` places from its end.
pub proof fn lemma_window_back<T>(samples: Seq<T>, n: int, k: int)
    requires
        1 <= k <= samples.len(),
    ensures
        window_of(samples, n)[samples.len() - k] == sample_back(samples, n, k),
{
    let l = samples.len() as int;
    lemma_mod_add_multiples_vanish(n - k, l);
    assert(n + (l - k) == l + (n - k));
}

/// Streaming `input` into the window at stream position `n` writes `input[j]`
/// into the slot of stream position `n + j` for the last `len` values of the
/// input, and leaves the slots that no input value lands in as they were.
pub proof fn lemma_pushed_slots<T>(before: Seq<T>, after: Seq<T>, n: int, input: Seq<T>)
    requires
        before.len() > 0,
        after.len() == before.len(),
        window_of(after, n + input.len()) == pushed(window_of(before, n), input),
    ensures
        forall|j: int|
            0 <= j < input.len() && input.len() - before.len() <= j ==> #[trigger] after[(n + j)
                % (before.len() as int)] == input[j],
        forall|p: int|
            0 <= p < before.len() && (p - n) % (before.len() as int) >= input.len() ==> #[trigger] after[p]
                == before[p],
{
    let l = before.len() as int;
    let m = input.len() as int;
    let w = window_of(before, n);
    assert forall|j: int| 0 <= j < m && m - l <= j implies #[trigger] after[(n + j) % l]
        == input[j] by {
        let k = j - m + l;
        assert(window_of(after, n + m)[k] == after[(n + m + k) % l]);
        assert(n + m + k == l + (n + j));
        lemma_mod_add_multiples_vanish(n + j, l);
        assert(pushed(w, input)[k] == (w + input)[m + k]);
    }
    assert forall|p: int| 0 <= p < l && (p - n) % l >= m implies #[trigger] after[p] == before[p] by {
        let d = (p - n) % l;
        lemma_mod_bound(p - n, l);
        let k = d - m;
        assert(window_of(after, n + m)[k] == after[(n + m + k) % l]);
        assert(n + m + k == n + d);
        lemma_add_mod_noop_right(n, p - n, l);
        assert(n + (p - n) == p);
        lemma_small_mod(p as nat, l as nat);
        assert(pushed(w, input)[k] == (w + input)[m + k]);
        assert(w[d] == before[(n + d) % l]);
    }
}

/// Position `q` of a stream that is preceded by `fill`: the stream's value at
/// `0 <= q < stream.len()`, `fill` before it (and after it).
pub open spec fn stream_at<T>(stream: Seq<T>, fill: T, q: int) -> T {
    if 0 <= q < stream.len() {
        stream[q]
    } else {
        fill
    }
}

/// With the phase offset `n % period`, frame position `t` reads stream
/// position `n - 1 - (n % period + t) % period`, which lies in the last
/// period and has phase `period - 1 - t`, whatever `n` is.
pub proof fn lemma_frame_phase(n: int, period: int, t: int)
    requires
        0 < period,
        0 <= t < period,
    ensures
        ({
            let q = n - 1 - (n % period + t) % period;
            &&& n - period <= q < n
            &&& q % period == period - 1 - t
        }),
{
    let o = n % period;
    let j = (o + t) % period;
    lemma_mod_bound(n, period);
    lemma_mod_bound(o + t, period);
    let a = n / period;
    let b = (o + t) / period;
    let x = n - 1 - j;
    lemma_fundamental_div_mod(n, period);
    lemma_fundamental_div_mod(o + t, period);
    assert(x == (a + b - 1) * period + (period - 1 - t)) by (nonlinear_arith)
        requires
            n == period * a + o,
            o + t == period * b + j,
            x == n - 1 - j,
    ;
    lemma_fundamental_div_mod_converse(x, period, a + b - 1, period - 1 - t);
}

/// A sequence that repeats with period `period` holds at each position the
/// value at its phase.
pub proof fn lemma_periodic_phase<T>(s: Seq<T>, period: int, q: int)
    requires
        0 < period,
        0 <= q < s.len(),
        forall|p: int| 0 <= p && p + period < s.len() ==> #[trigger] s[p] == s[p + period],
    ensures
        s[q] == s[q % period],
    decreases q,
{
    if q < period {
        lemma_small_mod(q as nat, period as nat);
    } else {
        lemma_periodic_phase(s, period, q - period);
        assert(s[q - period] == s[(q - period) + period]);
        lemma_mod_sub_multiples_vanish(q, period);
        assert(-period + q == q - period);
    }
}

} // verus!
