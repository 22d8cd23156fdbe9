//! Kinds of data link frames.
use vstd::prelude::*;

verus! {

/// The kind of a data link frame.
#[derive(Debug, Clone, Copy, PartialEq, Eq, Structural)]
pub enum FrameType {
    Data,
    Acknowledgement,
    Beacon,
    Command,
}

/// The four bits that stand for each frame type.
pub open spec fn frame_type_bits(t: FrameType) -> Seq<u8> {
    match t {
        FrameType::Data => seq![0u8, 0u8, 0u8, 0u8],
        FrameType::Acknowledgement => seq![0u8, 0u8, 0u8, 1u8],
        FrameType::Beacon => seq![0u8, 0u8, 1u8, 0u8],
        FrameType::Command => seq![0u8, 0u8, 1u8, 1u8],
    }
}

/// `b` is the bit pattern of some frame type.
pub open spec fn is_frame_type_bits(b: Seq<u8>) -> bool {
    b == seq![0u8, 0u8, 0u8, 0u8] || b == seq![0u8, 0u8, 0u8, 1u8] || b == seq![0u8, 0u8, 1u8, 0u8]
        || b == seq![0u8, 0u8, 1u8, 1u8]
}

/// The frame type whose bit pattern is `b`.
pub open spec fn frame_type_of_bits(b: Seq<u8>) -> FrameType {
    if b == seq![0u8, 0u8, 0u8, 0u8] {
        FrameType::Data
    } else if b == seq![0u8, 0u8, 0u8, 1u8] {
        FrameType::Acknowledgement
    } else if b == seq![0u8, 0u8, 1u8, 0u8] {
        FrameType::Beacon
    } else {
        FrameType::Command
    }
}

/// Reading a frame type's bit pattern gives the frame type back.
pub proof fn lemma_frame_type_roundtrip(t: FrameType)
    ensures
        is_frame_type_bits(frame_type_bits(t)),
        frame_type_of_bits(frame_type_bits(t)) == t,
{
}

impl FrameType {
    pub fn is_data(&self) -> (r: bool)
        ensures
            r == (*self is Data),
    {
        matches!(self, FrameType::Data)
    }

    pub fn is_acknowledgement(&self) -> (r: bool)
        ensures
            r == (*self is Acknowledgement),
    {
        matches!(self, FrameType::Acknowledgement)
    }

    pub fn is_beacon(&self) -> (r: bool)
        ensures
            r == (*self is Beacon),
    {
        matches!(self, FrameType::Beacon)
    }

    pub fn is_command(&self) -> (r: bool)
        ensures
            r == (*self is Command),
    {
        matches!(self, FrameType::Command)
    }

    /// The frame type's four bits.
    pub fn to_bytes(&self) -> (b: [u8; 4])
        ensures
            b@ == frame_type_bits(*self),
    {
        let b: [u8; 4] = match self {
            FrameType::Data => [0, 0, 0, 0],
            FrameType::Acknowledgement => [0, 0, 0, 1],
            FrameType::Beacon => [0, 0, 1, 0],
            FrameType::Command => [0, 0, 1, 1],
        };
        assert(b@ =~= frame_type_bits(*self));
        b
    }

    /// Whether `bytes` is the bit pattern of a frame type.
    pub fn is_valid_bits(bytes: &[u8]) -> (r: bool)
        ensures
            r == is_frame_type_bits(bytes@),
    {
        if bytes.len() != 4 || bytes[0] != 0 || bytes[1] != 0 {
            assert(!is_frame_type_bits(bytes@)) by {
                if bytes@.len() == 4 {
                    assert(bytes@[0] != 0 || bytes@[1] != 0);
                }
            }
            return false;
        }
        let r = bytes[2] <= 1 && bytes[3] <= 1;
        if r {
            assert(is_frame_type_bits(bytes@)) by {
                if bytes@[2] == 0 && bytes@[3] == 0 {
                    assert(bytes@ =~= seq![0u8, 0u8, 0u8, 0u8]);
                } else if bytes@[2] == 0 {
                    assert(bytes@ =~= seq![0u8, 0u8, 0u8, 1u8]);
                } else if bytes@[3] == 0 {
                    assert(bytes@ =~= seq![0u8, 0u8, 1u8, 0u8]);
                } else {
                    assert(bytes@ =~= seq![0u8, 0u8, 1u8, 1u8]);
                }
            }
        }
        r
    }

    /// The frame type whose bit pattern is `bytes`.
    pub fn from(bytes: &[u8]) -> (t: FrameType)
        requires
            is_frame_type_bits(bytes@),
        ensures
            t == frame_type_of_bits(bytes@),
            frame_type_bits(t) == bytes@,
    {
        assert(bytes@.len() == 4);
        if bytes[2] == 0 && bytes[3] == 0 {
            assert(bytes@ =~= seq![0u8, 0u8, 0u8, 0u8]);
            FrameType::Data
        } else if bytes[2] == 0 && bytes[3] == 1 {
            assert(bytes@ =~= seq![0u8, 0u8, 0u8, 1u8]);
            FrameType::Acknowledgement
        } else if bytes[2] == 1 && bytes[3] == 0 {
            assert(bytes@ =~= seq![0u8, 0u8, 1u8, 0u8]);
            FrameType::Beacon
        } else {
            assert(bytes@ =~= seq![0u8, 0u8, 1u8, 1u8]);
            FrameType::Command
        }
    }
}

} // verus!
