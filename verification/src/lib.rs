//! Core logic of a video-to-ASCII-art frame store: deciding which decoded
//! frames to keep, numbering them into per-second buckets, rediscovering a
//! written store as one deterministically ordered frame sequence, and driving
//! playback timing with optional looping and audio resynchronisation.
//!
//! All I/O (video decoding, file reads and writes, terminal drawing, audio
//! output) lives outside this crate; the functions here work on plain values
//! and carry contracts for every decision the pipeline makes.

pub mod discover;
pub mod names;
pub mod player;
pub mod sampler;
pub mod store;
