//! Physical layer: the header that precedes every data link frame.
pub mod frame;
