//! Forensic analysis of a recorded waveform in exact integer arithmetic.
//!
//! Amplitudes are counted in millionths of full scale, levels in thousandths of
//! a decibel, frequencies in hertz and positions in samples. Every public
//! function carries a contract over these integers; nothing here rounds
//! except where a contract says so.

pub mod units;
pub mod error;
pub mod spectrogram;
pub mod quality;
pub mod sort;
pub mod snr;
pub mod splice;
pub mod enf;
pub mod forensics;
pub mod transfer;
