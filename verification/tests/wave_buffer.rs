use bevy_audio_widgets::wave_buffer::{FrameBuffer, WaveBuffer};

/// Frame length for a tuning frequency: the sample rate over the frequency, rounded.
fn frame_len(rate: f32, freq: f32) -> usize {
    (rate / freq).round() as usize
}

/// A wave buffer as the tuner builds it: zero filled, one frame buffer per frequency.
fn wave_buffer(rate: f32, len: usize, periods: f32, freqs: &[f32]) -> WaveBuffer<f32> {
    let tunings: Vec<(f32, usize)> = freqs.iter().map(|&f| (f, frame_len(rate, f))).collect();
    WaveBuffer::new(rate, len, periods, &tunings, 0.0)
}

/// The frame for `periods` periods of `freq`, with its (unrounded) frame size.
fn frame(buffer: &WaveBuffer<f32>, periods: f32, freq: f32) -> (f32, Vec<f32>) {
    let frame_size = periods * buffer.rate / freq;
    let offset = (buffer.index as f32 % frame_size).round() as usize;
    (frame_size, buffer.to_iterator(offset, frame_size.round() as usize))
}

fn floats(range: std::ops::Range<i32>) -> Vec<f32> {
    range.map(|i| i as f32).collect()
}

#[test]
fn test_wave_buffer() {
    let mut buffer = wave_buffer(15.0, 20, 4.0, &[1.0]);
    for i in 0..25 {
        buffer.add_samples(&[i as f32]);
    }
    println!("Buffer index: {:?}", buffer.index);
    assert!(buffer.index == 25);

    let (_frame_size, iter) = frame(&buffer, 1.0, 1.0);
    iter.iter().for_each(|s| println!("Sample: {}", s));

    println!("---");
    for i in 25..30 {
        buffer.add_samples(&[i as f32]);
    }
    assert!(buffer.index == 30);

    let (_frame_size, iter) = frame(&buffer, 1.0, 1.0);
    iter.iter().for_each(|s| println!("Sample: {}", s));

    println!("---");
    for i in 30..35 {
        buffer.add_samples(&[i as f32]);
    }
    assert!(buffer.index == 35);
    let (_frame_size, iter) = frame(&buffer, 1.0, 1.0);
    iter.iter().for_each(|s| println!("Sample: {}", s));
}

#[test]
fn frames_of_the_wave_buffer_scenario() {
    let mut buffer = wave_buffer(15.0, 20, 4.0, &[1.0]);
    for i in 0..25 {
        buffer.add_samples(&[i as f32]);
    }
    // frame size 15, offset round(25 % 15) = 10
    let (frame_size, samples) = frame(&buffer, 1.0, 1.0);
    assert_eq!(frame_size, 15.0);
    let mut expected: Vec<f32> = floats(10..15).into_iter().rev().collect();
    expected.extend(floats(15..25).into_iter().rev());
    assert_eq!(samples, expected);

    for i in 25..30 {
        buffer.add_samples(&[i as f32]);
    }
    // offset 0: the whole frame is the previous one
    let (_, samples) = frame(&buffer, 1.0, 1.0);
    let expected: Vec<f32> = floats(15..30).into_iter().rev().collect();
    assert_eq!(samples, expected);

    for i in 30..35 {
        buffer.add_samples(&[i as f32]);
    }
    // offset 5
    let (_, samples) = frame(&buffer, 1.0, 1.0);
    let mut expected: Vec<f32> = floats(20..30).into_iter().rev().collect();
    expected.extend(floats(30..35).into_iter().rev());
    assert_eq!(samples, expected);
}

#[test]
fn new_buffer_is_filled_and_has_frame_buffers() {
    let buffer = wave_buffer(48000.0, 8, 4.0, &[82.41, 110.0]);
    assert_eq!(buffer.rate, 48000.0);
    assert_eq!(buffer.index, 0);
    assert_eq!(buffer.samples, vec![0.0f32; 8]);
    assert_eq!(buffer.frame_buffers.len(), 2);
    assert_eq!(buffer.frame_buffers[0].tuning_frequency, 82.41);
    assert_eq!(buffer.frame_buffers[0].nr_periods, 4.0);
    // 48000 / 82.41 = 582.45..., rounded
    assert_eq!(buffer.frame_buffers[0].buffer.len(), 582);
    assert_eq!(buffer.frame_buffers[1].buffer.len(), 436);
    assert!(buffer.frame_buffers[1].buffer.iter().all(|&s| s == 0.0));
}

#[test]
fn frame_buffer_new_holds_fill() {
    let fb = FrameBuffer::new(2u8, 7u8, 3, 9u8);
    assert_eq!(fb.nr_periods, 2);
    assert_eq!(fb.tuning_frequency, 7);
    assert_eq!(fb.buffer, vec![9u8, 9, 9]);
    let empty = FrameBuffer::new(1u8, 1u8, 0, 0u8);
    assert!(empty.buffer.is_empty());
}

#[test]
fn add_samples_wraps_around() {
    let mut buffer = WaveBuffer::new(0u32, 3, 0u32, &[], 0u32);
    buffer.add_samples(&[1, 2, 3, 4]);
    assert_eq!(buffer.index, 4);
    // 4 overwrote 1 in slot 0
    assert_eq!(buffer.samples, vec![4, 2, 3]);
    buffer.add_samples(&[]);
    assert_eq!(buffer.index, 4);
    assert_eq!(buffer.samples, vec![4, 2, 3]);
    buffer.add_samples(&[5, 6, 7, 8, 9, 10, 11]);
    assert_eq!(buffer.index, 11);
    // the last three written are 9, 10, 11 at slots 8 % 3, 9 % 3, 10 % 3
    assert_eq!(buffer.samples, vec![10, 11, 9]);
}

#[test]
fn adding_in_chunks_equals_adding_at_once() {
    let input: Vec<u32> = (1..=17).collect();
    let mut at_once = WaveBuffer::new(0u32, 5, 0u32, &[], 0u32);
    at_once.add_samples(&input);
    let mut chunked = WaveBuffer::new(0u32, 5, 0u32, &[], 0u32);
    chunked.add_samples(&input[..6]);
    chunked.add_samples(&input[6..]);
    assert_eq!(chunked.samples, at_once.samples);
    assert_eq!(chunked.index, at_once.index);
    let mut one_by_one = WaveBuffer::new(0u32, 5, 0u32, &[], 0u32);
    for s in &input {
        one_by_one.add_samples(&[*s]);
    }
    assert_eq!(one_by_one.samples, at_once.samples);
}

#[test]
fn reading_back_gives_what_was_written() {
    let mut buffer = WaveBuffer::new(0i64, 4, 0i64, &[], -1i64);
    buffer.add_samples(&[10, 20, 30, 40, 50, 60]);
    // the last four written, newest first
    assert_eq!(buffer.to_iterator(4, 4), vec![60, 50, 40, 30]);
    assert_eq!(buffer.to_iterator(0, 4), vec![60, 50, 40, 30]);
    assert_eq!(buffer.to_iterator(1, 1), vec![60]);
    // before the buffer is full, the fill value shows behind the written samples
    let mut fresh = WaveBuffer::new(0i64, 4, 0i64, &[], -1i64);
    fresh.add_samples(&[7, 8]);
    assert_eq!(fresh.to_iterator(4, 4), vec![8, 7, -1, -1]);
}

#[test]
fn frame_splits_at_offset() {
    let mut buffer = WaveBuffer::new(0u8, 3, 0u8, &[], 0u8);
    buffer.add_samples(&[1, 2, 3, 4]);
    // older part: 3 then 2 (written 2 and 3 writes ago), then the newest: 4
    assert_eq!(buffer.to_iterator(1, 3), vec![3, 2, 4]);
    // oldest of the older part directly followed by the newest sample
    assert_eq!(buffer.to_iterator(2, 3), vec![2, 4, 3]);
}

#[test]
fn frame_longer_than_buffer_wraps_around() {
    let mut buffer = WaveBuffer::new(0u8, 3, 0u8, &[], 0u8);
    buffer.add_samples(&[1, 2, 3]);
    assert_eq!(buffer.to_iterator(0, 7), vec![3, 2, 1, 3, 2, 1, 3]);
    assert_eq!(buffer.to_iterator(2, 5), vec![1, 3, 2, 3, 2]);
}

#[test]
fn empty_frame_of_empty_buffer() {
    let buffer = WaveBuffer::new(0u8, 0, 0u8, &[], 0u8);
    assert!(buffer.to_iterator(0, 0).is_empty());
    let buffer = WaveBuffer::new(0u8, 4, 0u8, &[], 0u8);
    assert!(buffer.to_iterator(0, 0).is_empty());
}

#[test]
fn periodic_signal_frame_stands_still() {
    // a signal of period 4, phases 0..3 valued 100..103
    let period = 4usize;
    let signal = |n: usize| 100 + (n % period) as u32;
    let mut buffer = WaveBuffer::new(0u32, 12, 0u32, &[], 0u32);
    let mut frames = Vec::new();
    for n in 0..40usize {
        buffer.add_samples(&[signal(n)]);
        if buffer.index >= 12 {
            frames.push(buffer.to_iterator(buffer.index % period, period));
        }
    }
    // position t holds phase period - 1 - t, whatever the write count
    for f in &frames {
        assert_eq!(f, &vec![103, 102, 101, 100]);
    }
}

#[test]
fn phase_aligned_float_frames_of_a_tuned_signal() {
    // frame size 8 samples, signal period 8
    let mut buffer = wave_buffer(8.0, 32, 1.0, &[1.0]);
    for n in 0..50 {
        buffer.add_samples(&[(n % 8) as f32]);
        if buffer.index >= 32 {
            let (_, samples) = frame(&buffer, 1.0, 1.0);
            assert_eq!(samples, vec![7.0, 6.0, 5.0, 4.0, 3.0, 2.0, 1.0, 0.0]);
        }
    }
}

#[test]
fn steady_frame_before_the_buffer_is_full() {
    let period = 4usize;
    let signal = |n: usize| 100 + (n % period) as u32;
    let mut buffer = WaveBuffer::new(0u32, 12, 0u32, &[], 0u32);
    for n in 0..11usize {
        buffer.add_samples(&[signal(n)]);
        if buffer.index >= period {
            assert_eq!(buffer.to_iterator(buffer.index % period, period), vec![103, 102, 101, 100]);
        }
    }
}

#[test]
fn steady_frame_after_a_new_note() {
    // the buffer first holds an unrelated sound, then an in-tune note starts
    let period = 4usize;
    let mut buffer = WaveBuffer::new(0u32, 48, 0u32, &[], 0u32);
    buffer.add_samples(&[7, 3, 9, 1, 8, 2, 6]);
    for n in 7..40usize {
        buffer.add_samples(&[100 + (n % period) as u32]);
        if n >= 7 + period - 1 {
            assert_eq!(buffer.to_iterator(buffer.index % period, period), vec![103, 102, 101, 100]);
        }
    }
}

#[test]
fn slots_hold_the_latest_stream_samples() {
    let mut buffer = WaveBuffer::new(0i32, 5, 0i32, &[], -1i32);
    buffer.add_samples(&[1, 2]);
    buffer.add_samples(&[3]);
    // stream positions 0, 1, 2 in their slots, the rest still filled
    assert_eq!(buffer.samples, vec![1, 2, 3, -1, -1]);
    buffer.add_samples(&[4, 5, 6, 7]);
    // stream positions 2..7 in slots q % 5
    assert_eq!(buffer.samples, vec![6, 7, 3, 4, 5]);
    assert_eq!(buffer.index, 7);
}
