//! Verified building blocks of an audio analysis engine: transforms,
//! filters, loudness measurement and the WAV container.
//!
//! The library owns the index arithmetic, the layout of buffers and the
//! order in which samples are visited, and proves them once for every
//! representation of a sample. The arithmetic on samples is handed in by the
//! caller as a function value, and the contracts say what the library does
//! with whatever that function returns.

pub mod audio;
pub mod circular_buffer;
pub mod dft;
pub mod fft;
pub mod file_analyzer;
pub mod file_io;
pub mod fir_filter;
pub mod fir_filter_constants;
pub mod img_generator;
pub mod parametric_eq;
pub mod players;
pub mod util;
