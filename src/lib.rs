//! A perceptual audio distance engine: a cochlear filter bank that turns a
//! signal into a spectrogram, a dynamic time warping aligner, and a windowed
//! structural similarity score between two aligned spectrograms.
//!
//! All arithmetic is integer or fixed point. Samples are 16-bit PCM values
//! (full scale is 32767), spectrogram cells are loudness levels in hundredths
//! of a decibel held as unsigned 16-bit values, and distances
//! and similarities are reported in parts per million.
pub mod align;
pub mod bank;
pub mod config;
pub mod engine;
pub mod limits;
pub mod loudness;
pub mod nsim;
pub mod spectrogram;
