//! Verified core of a singing-voice resampler.
//!
//! Samples, spectra and mel cells are moved around by functions that are generic over
//! the sample type or that work on IEEE 754 bit patterns; the arithmetic on them is
//! handed in by the caller as closures.

pub mod ieee;

pub mod config;
pub mod reflect;
pub mod frames;
pub mod tension;
pub mod loudness;
pub mod interp;
pub mod mel;
pub mod wav;
pub mod resampler;
