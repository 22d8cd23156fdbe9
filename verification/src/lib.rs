//! A modem that sends text over sound: bit-level encodings, an extended
//! Hamming code, physical and data link frames, and the decision logic of
//! the receivers.
pub mod args;
pub mod ascii;
pub mod bytes;
pub mod config;
pub mod datalink;
pub mod error;
pub mod hamming;
pub mod modem;
pub mod physical;
pub mod receiver;
pub mod recorder;
pub mod transmitter;

use vstd::prelude::*;

verus! {

/// Alternating bits sent before every physical frame.
pub const PREAMBLE: [u8; 8] = [1, 0, 1, 0, 1, 0, 1, 0];

/// Start frame delimiter, as sent.
pub const USFD: [u8; 8] = [0, 0, 0, 1, 0, 1, 1, 0];

/// Start frame delimiter, as the demodulated bits compare against it.
pub const ISFD: [i8; 8] = [0, 0, 0, 1, 0, 1, 1, 0];

/// Where a receiver stands.
#[derive(PartialEq, Eq, Structural, Clone, Copy, Debug)]
pub enum Status {
    LISTENING,
    RECEIVING,
    TRANSMITTING,
    ANSWER,
    RESET,
}

/// How bits are carried by tones.
#[derive(PartialEq, Eq, Structural, Debug, Clone, Copy)]
pub enum ModulationMethod {
    BFSK,
    QFSK,
}

} // verus!
