//! Signal generation for the PlutoSDR transmitter: 16-bit I/Q samples.

pub mod nco;
pub mod modulator;
