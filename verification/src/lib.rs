//! Buffers that keep the most recent samples of an audio stream and read them
//! back as phase aligned frames.

pub mod window;
pub mod wave_buffer;
pub mod laws;
