//! The modem's framing: protocol frames and the decision logic of its
//! receiver.
pub mod protocol;
pub mod reception;
