//! The HackRF transmitter: 8-bit I/Q samples, and the modes the device
//! goes through.

pub mod nco;
pub mod scrambler;
pub mod modulator;
pub mod mode;
