//! Data link layer: frame types and frames with a CRC-32 check sequence.
pub mod enums;
pub mod frame;
