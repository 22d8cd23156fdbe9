//! A complete frame as sent: physical header followed by a data link frame.
use vstd::prelude::*;

use crate::bytes::{encode_u8, extend_bits, text_bits};
use crate::datalink::enums::is_frame_type_bits;
use crate::datalink::frame::{
    datalink_result_view, frame_bits, header_bits, parse_datalink, crc32_mpeg2, Datalink,
    DatalinkView, FrameType,
};
use crate::error::{Error, Result};
use crate::physical::frame::{
    is_modulation_bits, physical_bits, physical_from, ModulationType, Physical,
};

verus! {

/// A physical header and the data link frame it announces.
#[derive(Debug)]
pub struct Protocol {
    datalink: Datalink,
    physical: Physical,
}

/// The two parts of a protocol frame.
#[verifier::ext_equal]
pub struct ProtocolView {
    pub datalink: DatalinkView,
    pub physical: Physical,
}

impl View for Protocol {
    type V = ProtocolView;

    closed spec fn view(&self) -> ProtocolView {
        ProtocolView { datalink: self.datalink@, physical: self.physical }
    }
}

/// The frame that `Protocol::new` builds: a data link frame carrying the
/// bits of `text` with a consistent check sequence, announced by a header of
/// its length in bits (kept to 16 bits).
pub open spec fn new_protocol_view(text: Seq<char>, src: u8, dst: u8, seq: u16, f_type: FrameType)
    -> ProtocolView {
    ProtocolView {
        datalink: DatalinkView {
            frame_type: f_type,
            destination_address: dst,
            source_address: src,
            sequence_number: seq,
            data: text_bits(text),
            fcs: crc32_mpeg2(header_bits(f_type, dst, src, seq) + text_bits(text)),
        },
        physical: Physical {
            mod_type: ModulationType::BfskNoErrorCorrection,
            length: (68 + text_bits(text).len()) as u16,
            detect_checksum: true,
        },
    }
}

/// The bits of a protocol frame as sent: the header, then the data link frame.
pub open spec fn protocol_bits(p: ProtocolView) -> Seq<u8> {
    physical_bits(p.physical) + frame_bits(p.datalink)
}

/// Reading a protocol frame from `b` stops short of a panic.
pub open spec fn protocol_parsable(b: Seq<u8>) -> bool {
    b.len() < 68 || (is_modulation_bits(b.take(4)) && crate::datalink::frame::datalink_parsable(
        b.skip(36),
    ))
}

/// What reading a protocol frame from `b`, the values after the start frame
/// delimiter, gives: the header from its first 36 values (modulation type,
/// length, checksum), the data link frame from the values that follow.
pub open spec fn parse_protocol(b: Seq<u8>) -> core::result::Result<ProtocolView, Error> {
    if b.len() < 68 {
        Err(Error::InvalidFrameLength)
    } else {
        match parse_datalink(b.skip(36)) {
            Ok(d) => Ok(ProtocolView { datalink: d, physical: physical_from(b.take(36)) }),
            Err(e) => Err(e),
        }
    }
}

/// The view of a parse result.
pub open spec fn protocol_result_view(r: Result<Protocol>) -> core::result::Result<
    ProtocolView,
    Error,
> {
    match r {
        Ok(p) => Ok(p@),
        Err(e) => Err(e),
    }
}

/// The bit values of signed values, each cast to `u8`.
pub open spec fn signed_as_bits(b: Seq<i8>) -> Seq<u8> {
    Seq::new(b.len(), |i: int| b[i] as u8)
}

impl Protocol {
    /// A data frame carrying the text `data` (eight bits per character) from
    /// `src` to `dst`, announced by a header of its length in bits (kept to
    /// 16 bits).
    pub fn new(data: &str, src: u8, dst: u8, seq: u16, f_type: FrameType) -> (p: Self)
        ensures
            p@ == new_protocol_view(data@, src, dst, seq, f_type),
    {
        let datalink = Datalink::new(f_type, dst, src, seq, encode_u8(data));
        let len = datalink.to_bytes().len();
        let physical = Physical::new(
            #[verifier::truncate]
            (len as u16),
            ModulationType::BfskNoErrorCorrection,
        );
        Self { datalink, physical }
    }

    /// The data link frame.
    pub fn datalink(&self) -> (d: &Datalink)
        ensures
            d@ == self@.datalink,
    {
        &self.datalink
    }

    /// The physical header.
    pub fn physical(&self) -> (p: Physical)
        ensures
            p == self@.physical,
    {
        self.physical
    }

    /// The frame as sent: physical header, then data link frame.
    pub fn to_bytes(&self) -> (bytes: Vec<u8>)
        ensures
            bytes@ == protocol_bits(self@),
    {
        let mut bytes: Vec<u8> = Vec::new();
        let p = self.physical.to_bytes();
        extend_bits(&mut bytes, p.as_slice());
        let d = self.datalink.to_bytes();
        extend_bits(&mut bytes, d.as_slice());
        bytes
    }

    /// Reads a frame from the values after the start frame delimiter: at
    /// least 68 values; the header from the first 36, the data link frame
    /// from the rest.
    pub fn from_bytes(bytes: &[u8]) -> (r: Result<Self>)
        requires
            protocol_parsable(bytes@),
        ensures
            protocol_result_view(r) == parse_protocol(bytes@),
    {
        if bytes.len() < 68 {
            return Err(Error::InvalidFrameLength);
        }
        let mut physical_bytes = [0u8; 36];
        let mut i: usize = 0;
        while i < 36
            invariant
                i <= 36,
                bytes@.len() >= 68,
                forall|j: int| 0 <= j < i ==> #[trigger] physical_bytes@[j] == bytes@[j],
            decreases 36 - i,
        {
            physical_bytes[i] = bytes[i];
            i += 1;
        }
        assert(physical_bytes@ =~= bytes@.take(36));
        assert(physical_bytes@.take(4) =~= bytes@.take(4));
        let physical = match Physical::from_bytes(&physical_bytes) {
            Ok(p) => p,
            Err(e) => {
                return Err(e);
            },
        };
        assert(bytes@.subrange(36, bytes@.len() as int) =~= bytes@.skip(36));
        let datalink = match Datalink::from_bytes(&bytes[36..bytes.len()]) {
            Ok(d) => d,
            Err(e) => {
                return Err(e);
            },
        };
        Ok(Self { datalink, physical })
    }

    /// Reads a frame that must be readable, from the values after the start
    /// frame delimiter: the conversion of a received bit vector.
    pub fn from(bytes: Vec<u8>) -> (p: Self)
        requires
            bytes@.len() >= 68,
            protocol_parsable(bytes@),
            parse_protocol(bytes@) is Ok,
        ensures
            parse_protocol(bytes@) == Ok::<ProtocolView, Error>(p@),
    {
        match Self::from_bytes(bytes.as_slice()) {
            Ok(p) => p,
            Err(_) => {
                proof {
                    assert(false);
                }
                Self::new("", 0, 0, 0, FrameType::Data)
            },
        }
    }

    /// Reads a frame from signed bit values, each cast to `u8`.
    pub fn from_signed(bytes: Vec<i8>) -> (p: Self)
        requires
            bytes@.len() >= 68,
            protocol_parsable(signed_as_bits(bytes@)),
            parse_protocol(signed_as_bits(bytes@)) is Ok,
        ensures
            parse_protocol(signed_as_bits(bytes@)) == Ok::<ProtocolView, Error>(p@),
    {
        let mut bytes_u8: Vec<u8> = Vec::new();
        let mut i: usize = 0;
        while i < bytes.len()
            invariant
                i <= bytes@.len(),
                bytes_u8@ == signed_as_bits(bytes@).take(i as int),
            decreases bytes@.len() - i,
        {
            bytes_u8.push(bytes[i] as u8);
            assert(bytes_u8@ =~= signed_as_bits(bytes@).take(i + 1));
            i += 1;
        }
        assert(bytes_u8@ =~= signed_as_bits(bytes@));
        Self::from(bytes_u8)
    }
}

/// Reading back a protocol frame as sent, from the values after its start
/// frame delimiter, gives the frame, with a matching header checksum, when
/// its data link check sequence is consistent.
#[verifier::spinoff_prover]
#[verifier::rlimit(40)]
pub proof fn lemma_protocol_roundtrip(p: ProtocolView)
    requires
        crate::datalink::frame::fcs_consistent(p.datalink),
    ensures
        protocol_parsable(protocol_bits(p).skip(16)),
        parse_protocol(protocol_bits(p).skip(16)) == Ok::<ProtocolView, Error>(
            ProtocolView { physical: Physical { detect_checksum: true, ..p.physical }, ..p },
        ),
{
    let b = protocol_bits(p).skip(16);
    let ph = physical_bits(p.physical);
    let f = frame_bits(p.datalink);
    let h = ph.subrange(16, 52);
    crate::datalink::frame::lemma_frame_bits_len(p.datalink);
    crate::physical::frame::lemma_physical_roundtrip(p.physical);
    crate::datalink::frame::lemma_datalink_roundtrip(p.datalink);
    assert(ph.len() == 52);
    assert(b.take(36) =~= h);
    assert(b.take(4) =~= h.take(4));
    assert(b.skip(36) =~= f);
    assert(b.len() >= 68);
    assert(physical_from(b.take(36)) == Physical { detect_checksum: true, ..p.physical });
    assert(parse_datalink(b.skip(36)) == Ok::<DatalinkView, Error>(p.datalink));
}

} // verus!
