# bevy_audio_widgets

A verified circular buffer for audio visualisation. A producer appends samples
(`WaveBuffer::add_samples`); a view reads back a frame of the most recent
samples, phase aligned to a tuning frequency (`WaveBuffer::to_iterator`).

- `src/window.rs`: the model — the buffer in chronological order, how a write
  shifts it, and which sample each frame position reads.
- `src/wave_buffer.rs`: the buffer and its frame reader, with contracts over
  that model.
- `src/laws.rs`: properties across calls (reads give back what was written,
  chunking does not matter, periodic signals give standing frames).
- `app/lib.rs`: the `f32` front end that computes frame sizes and offsets and
  logs through `log`.
