//! Protocol data unit tooling for software defined radios: KISS framing,
//! hexadecimal configuration parsing, the G3RUH scrambler, table driven
//! numerically controlled oscillators, continuous-phase 2-FSK modulation,
//! the rigctld-style frequency control protocol and the transmit sequence.

pub mod byte_buffer;
pub mod kiss;
pub mod hex;
pub mod phase;
pub mod fsk;
pub mod hackrf;
pub mod pluto;
pub mod cat_text;
pub mod cat;
pub mod engine;
pub mod radio;
