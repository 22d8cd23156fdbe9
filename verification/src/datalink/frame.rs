//! Data link frames.
//!
//! | Frame Type | Destination Address | Source Address | Sequence Number | Data | FCS    |
//! |------------|---------------------|----------------|-----------------|------|--------|
//! | 4 bits     | 8 bits              | 8 bits         | 16 bits         | ..   | 32 bits|
//!
//! Every field is sent as one value per bit; the numbers least significant
//! bit first.  The frame check sequence is the CRC-32/MPEG-2 of all that
//! precedes it.
use vstd::prelude::*;

pub use super::enums::FrameType;
use super::enums::{frame_type_bits, frame_type_of_bits, is_frame_type_bits};
use crate::bytes::{
    extend_bits, u16_bits, u16_from_bytes, u16_of_bits, u16_to_bytes, u32_bits, u32_from_bytes,
    u32_of_bits, u32_to_bytes, u8_bits, u8_from_bytes, u8_of_bits, u8_to_bytes,
};
use crate::error::{Error, Result};

verus! {

/// One shift of the CRC-32/MPEG-2 register: it shifts left, and the
/// polynomial is 0x04c11db7.
pub open spec fn crc32_shift(r: u32) -> u32 {
    if r & 0x8000_0000u32 != 0 {
        (r << 1u32) ^ 0x04c1_1db7u32
    } else {
        r << 1u32
    }
}

/// A byte added into the top of the CRC-32/MPEG-2 register and shifted
/// through, one shift per bit, most significant bit first.
pub open spec fn crc32_byte(r: u32, b: u8) -> u32 {
    let x = r ^ ((b as u32) << 24u32);
    crc32_shift(
        crc32_shift(
            crc32_shift(crc32_shift(crc32_shift(crc32_shift(crc32_shift(crc32_shift(x)))))),
        ),
    )
}

/// The CRC-32/MPEG-2 register after `data`: it starts at 0xffffffff and
/// takes in each byte in turn.
pub open spec fn crc32_register(data: Seq<u8>) -> u32
    decreases data.len(),
{
    if data.len() == 0 {
        0xffff_ffffu32
    } else {
        crc32_byte(crc32_register(data.drop_last()), data.last())
    }
}

/// The CRC-32/MPEG-2 checksum of `data`, each value taken as one byte
/// (polynomial 0x04c11db7, initial value 0xffffffff, input and output not
/// reflected, no final XOR).
#[verifier::opaque]
pub open spec fn crc32_mpeg2(data: Seq<u8>) -> u32 {
    crc32_register(data)
}

/// Calls `crc::Crc::<u32>::checksum` with the catalogue algorithm
/// `crc::CRC_32_MPEG_2` (width 32, polynomial 0x04c11db7, initial value
/// 0xffffffff, no reflection, no final XOR); the claim is that its result
/// is that algorithm, `crc32_mpeg2`, on the bytes.
#[verifier::external_body]
fn crc32_checksum(data: &[u8]) -> (c: u32)
    ensures
        c == crc32_mpeg2(data@),
{
    crc::Crc::<u32>::new(&crc::CRC_32_MPEG_2).checksum(data)
}

/// The CRC-32/MPEG-2 checksum of `data`, as the frame check sequence uses it.
pub fn frame_checksum(data: &[u8]) -> (c: u32)
    ensures
        c == crc32_mpeg2(data@),
{
    crc32_checksum(data)
}

/// A data link frame: frame type, destination and source addresses, a
/// sequence number, the data bits and the frame check sequence.
#[derive(Debug, Clone)]
pub struct Datalink {
    frame_type: FrameType,
    pub destination_address: u8,
    pub source_address: u8,
    pub sequence_number: u16,
    pub data: Vec<u8>,
    fcs: u32,
}

/// The fields of a data link frame.
#[verifier::ext_equal]
pub struct DatalinkView {
    pub frame_type: FrameType,
    pub destination_address: u8,
    pub source_address: u8,
    pub sequence_number: u16,
    pub data: Seq<u8>,
    pub fcs: u32,
}

impl View for Datalink {
    type V = DatalinkView;

    closed spec fn view(&self) -> DatalinkView {
        DatalinkView {
            frame_type: self.frame_type,
            destination_address: self.destination_address,
            source_address: self.source_address,
            sequence_number: self.sequence_number,
            data: self.data@,
            fcs: self.fcs,
        }
    }
}

/// The 36 header bits: frame type, destination, source, sequence number.
pub open spec fn header_bits(t: FrameType, dst: u8, src: u8, seq: u16) -> Seq<u8> {
    frame_type_bits(t) + u8_bits(dst) + u8_bits(src) + u16_bits(seq)
}

/// The bits that the frame check sequence covers: header and data.
pub open spec fn body_bits(v: DatalinkView) -> Seq<u8> {
    header_bits(v.frame_type, v.destination_address, v.source_address, v.sequence_number)
        + v.data
}

/// The bits of a frame as sent: header, data, then the check sequence
/// computed over them.
pub open spec fn frame_bits(v: DatalinkView) -> Seq<u8> {
    body_bits(v) + u32_bits(crc32_mpeg2(body_bits(v)))
}

/// The frame check sequence is the checksum of header and data.
pub open spec fn fcs_consistent(v: DatalinkView) -> bool {
    v.fcs == crc32_mpeg2(body_bits(v))
}

/// Reading `b` as a frame stops short of a panic: it is too short to be
/// read (under 52 values), or it starts with a frame type's bits and is
/// long enough (68 values) for the data range between header and check
/// sequence.
pub open spec fn datalink_parsable(b: Seq<u8>) -> bool {
    b.len() < 52 || (b.len() >= 68 && is_frame_type_bits(b.take(4)))
}

/// The fields read from `b`: too short a stream is an error; otherwise the
/// header fields, the data up to the last 32 values, and those 32 as the
/// check sequence.
pub open spec fn parse_datalink(b: Seq<u8>) -> core::result::Result<DatalinkView, Error> {
    if b.len() < 52 {
        Err(Error::InvalidFrameLength)
    } else {
        Ok(
            DatalinkView {
                frame_type: frame_type_of_bits(b.take(4)),
                destination_address: u8_of_bits(b.subrange(4, 12)),
                source_address: u8_of_bits(b.subrange(12, 20)),
                sequence_number: u16_of_bits(b.subrange(20, 36)),
                data: b.subrange(36, b.len() - 32),
                fcs: u32_of_bits(b.subrange(b.len() - 32, b.len() as int)),
            },
        )
    }
}

/// The view of a parse result.
pub open spec fn datalink_result_view(r: Result<Datalink>) -> core::result::Result<
    DatalinkView,
    Error,
> {
    match r {
        Ok(d) => Ok(d@),
        Err(e) => Err(e),
    }
}

impl Datalink {
    /// Header and data bits of a frame with the given fields.
    pub fn body(
        frame_type: FrameType,
        destination_address: u8,
        source_address: u8,
        sequence_number: u16,
        data: &[u8],
    ) -> (frame: Vec<u8>)
        ensures
            frame@ == header_bits(frame_type, destination_address, source_address, sequence_number)
                + data@,
    {
        let mut frame: Vec<u8> = Vec::new();
        let t = frame_type.to_bytes();
        extend_bits(&mut frame, t.as_slice());
        let d = u8_to_bytes(destination_address);
        extend_bits(&mut frame, d.as_slice());
        let s = u8_to_bytes(source_address);
        extend_bits(&mut frame, s.as_slice());
        let n = u16_to_bytes(sequence_number);
        extend_bits(&mut frame, n.as_slice());
        extend_bits(&mut frame, data);
        frame
    }

    /// A frame with the given fields and frame check sequence.
    pub fn from_parts(
        frame_type: FrameType,
        destination_address: u8,
        source_address: u8,
        sequence_number: u16,
        data: Vec<u8>,
        fcs: u32,
    ) -> (d: Self)
        ensures
            d@ == (DatalinkView {
                frame_type,
                destination_address,
                source_address,
                sequence_number,
                data: data@,
                fcs,
            }),
    {
        Self { frame_type, destination_address, source_address, sequence_number, data, fcs }
    }

    /// A frame with the given fields whose check sequence is the checksum of
    /// its header and data.
    pub fn new(
        frame_type: FrameType,
        destination_address: u8,
        source_address: u8,
        sequence_number: u16,
        data: Vec<u8>,
    ) -> (d: Self)
        ensures
            d@ == (DatalinkView {
                frame_type,
                destination_address,
                source_address,
                sequence_number,
                data: data@,
                fcs: crc32_mpeg2(
                    header_bits(frame_type, destination_address, source_address, sequence_number)
                        + data@,
                ),
            }),
            fcs_consistent(d@),
    {
        let frame = Self::body(
            frame_type,
            destination_address,
            source_address,
            sequence_number,
            data.as_slice(),
        );
        let fcs = crc32_checksum(frame.as_slice());
        Self::from_parts(frame_type, destination_address, source_address, sequence_number, data, fcs)
    }

    /// The frame type.
    pub fn frame_type(&self) -> (t: FrameType)
        ensures
            t == self@.frame_type,
    {
        self.frame_type
    }

    /// The destination address.
    pub fn destination_address(&self) -> (a: u8)
        ensures
            a == self@.destination_address,
    {
        self.destination_address
    }

    /// The source address.
    pub fn source_address(&self) -> (a: u8)
        ensures
            a == self@.source_address,
    {
        self.source_address
    }

    /// The sequence number.
    pub fn sequence_number(&self) -> (n: u16)
        ensures
            n == self@.sequence_number,
    {
        self.sequence_number
    }

    /// The data bits.
    pub fn data(&self) -> (d: &Vec<u8>)
        ensures
            d@ == self@.data,
    {
        &self.data
    }

    /// The frame check sequence as received or computed.
    pub fn fcs(&self) -> (f: u32)
        ensures
            f == self@.fcs,
    {
        self.fcs
    }

    /// Whether `computed` equals the frame check sequence.
    pub fn fcs_matches(&self, computed: u32) -> (r: bool)
        ensures
            r == (computed == self@.fcs),
    {
        computed == self.fcs
    }

    /// Whether the frame check sequence is the checksum of header and data.
    pub fn detect_checksum(&self) -> (r: bool)
        ensures
            r == fcs_consistent(self@),
    {
        let frame = Self::body(
            self.frame_type,
            self.destination_address,
            self.source_address,
            self.sequence_number,
            self.data.as_slice(),
        );
        let fcs = crc32_checksum(frame.as_slice());
        self.fcs_matches(fcs)
    }

    /// Reads a frame from a bit stream.
    pub fn from_bytes(bytes: &[u8]) -> (r: Result<Self>)
        requires
            datalink_parsable(bytes@),
        ensures
            datalink_result_view(r) == parse_datalink(bytes@),
    {
        if bytes.len() < 52 {
            return Err(Error::InvalidFrameLength);
        }
        let frame_type = FrameType::from(&bytes[0..4]);
        let destination_address = u8_from_bytes(&bytes[4..12]);
        let source_address = u8_from_bytes(&bytes[12..20]);
        let sequence_number = u16_from_bytes(&bytes[20..36]);
        let data_slice = &bytes[36..bytes.len() - 32];
        let mut data: Vec<u8> = Vec::new();
        extend_bits(&mut data, data_slice);
        let fcs = u32_from_bytes(&bytes[bytes.len() - 32..bytes.len()]);
        Ok(
            Self::from_parts(
                frame_type,
                destination_address,
                source_address,
                sequence_number,
                data,
                fcs,
            ),
        )
    }

    /// Header and data followed by the 32 bits of `fcs`.
    pub fn to_bytes_with_fcs(&self, fcs: u32) -> (frame: Vec<u8>)
        ensures
            frame@ == body_bits(self@) + u32_bits(fcs),
    {
        let mut frame = Self::body(
            self.frame_type,
            self.destination_address,
            self.source_address,
            self.sequence_number,
            self.data.as_slice(),
        );
        let f = u32_to_bytes(fcs);
        extend_bits(&mut frame, f.as_slice());
        frame
    }

    /// The frame as sent: header, data, and the checksum computed over them.
    pub fn to_bytes(&self) -> (frame: Vec<u8>)
        ensures
            frame@ == frame_bits(self@),
    {
        let body = Self::body(
            self.frame_type,
            self.destination_address,
            self.source_address,
            self.sequence_number,
            self.data.as_slice(),
        );
        let fcs = crc32_checksum(body.as_slice());
        self.to_bytes_with_fcs(fcs)
    }
}

/// The frame as sent has 68 bits more than its data.
pub proof fn lemma_frame_bits_len(v: DatalinkView)
    ensures
        frame_bits(v).len() == 68 + v.data.len(),
{
}

/// Reading back the bits of a frame as sent gives its fields, with the
/// check sequence computed over header and data; for a frame whose check
/// sequence is consistent, the frame itself.
pub proof fn lemma_datalink_roundtrip(v: DatalinkView)
    ensures
        datalink_parsable(frame_bits(v)),
        parse_datalink(frame_bits(v)) == Ok::<DatalinkView, Error>(
            DatalinkView { fcs: crc32_mpeg2(body_bits(v)), ..v },
        ),
        fcs_consistent(v) ==> parse_datalink(frame_bits(v)) == Ok::<DatalinkView, Error>(v),
{
    let b = frame_bits(v);
    let t = frame_type_bits(v.frame_type);
    let crc = crc32_mpeg2(body_bits(v));
    crate::datalink::enums::lemma_frame_type_roundtrip(v.frame_type);
    crate::bytes::lemma_u8_bits_roundtrip(v.destination_address);
    crate::bytes::lemma_u8_bits_roundtrip(v.source_address);
    crate::bytes::lemma_u16_bits_roundtrip(v.sequence_number);
    crate::bytes::lemma_u32_bits_roundtrip(crc);
    assert(b.take(4) == t);
    assert(b.subrange(4, 12) == u8_bits(v.destination_address));
    assert(b.subrange(12, 20) == u8_bits(v.source_address));
    assert(b.subrange(20, 36) == u16_bits(v.sequence_number));
    assert(b.subrange(36, b.len() - 32) == v.data);
    assert(b.subrange(b.len() - 32, b.len() as int) == u32_bits(crc));
}

/// A frame read from the bits of a consistent frame passes the check.
pub proof fn lemma_parsed_frame_consistent(v: DatalinkView)
    requires
        fcs_consistent(v),
    ensures
        parse_datalink(frame_bits(v)) matches Ok(w) && fcs_consistent(w) && w == v,
{
    lemma_datalink_roundtrip(v);
}

/// The checksum of the ASCII digits 1 to 9 is the catalogue's check value
/// of CRC-32/MPEG-2.
pub proof fn lemma_crc32_check_value()
    ensures
        crc32_mpeg2(seq![0x31u8, 0x32u8, 0x33u8, 0x34u8, 0x35u8, 0x36u8, 0x37u8, 0x38u8, 0x39u8])
            == 0x0376e6e7u32,
{
    reveal(crc32_mpeg2);
    assert({
        &&& crc32_byte(0xffffffffu32, 0x31u8) == 0x9efbcf93u32
        &&& crc32_byte(0x9efbcf93u32, 0x32u8) == 0x3fec5e6au32
        &&& crc32_byte(0x3fec5e6au32, 0x33u8) == 0xd952f164u32
        &&& crc32_byte(0xd952f164u32, 0x34u8) == 0xa695c4aau32
        &&& crc32_byte(0xa695c4aau32, 0x35u8) == 0xbd9ab747u32
        &&& crc32_byte(0xbd9ab747u32, 0x36u8) == 0xd8f06c8fu32
        &&& crc32_byte(0xd8f06c8fu32, 0x37u8) == 0x0d8a14c4u32
        &&& crc32_byte(0x0d8a14c4u32, 0x38u8) == 0x49e3c2fbu32
        &&& crc32_byte(0x49e3c2fbu32, 0x39u8) == 0x0376e6e7u32
    }) by (bit_vector);
    let d = seq![0x31u8, 0x32u8, 0x33u8, 0x34u8, 0x35u8, 0x36u8, 0x37u8, 0x38u8, 0x39u8];
    assert(crc32_register(d.take(0)) == 0xffffffffu32);
    assert(d[0] == 0x31u8 && d[1] == 0x32u8 && d[2] == 0x33u8 && d[3] == 0x34u8 && d[4] == 0x35u8
        && d[5] == 0x36u8 && d[6] == 0x37u8 && d[7] == 0x38u8 && d[8] == 0x39u8);
    assert(d.take(1).drop_last() =~= d.take(0));
    assert(crc32_register(d.take(1)) == 0x9efbcf93u32);
    assert(d.take(2).drop_last() =~= d.take(1));
    assert(crc32_register(d.take(2)) == 0x3fec5e6au32);
    assert(d.take(3).drop_last() =~= d.take(2));
    assert(crc32_register(d.take(3)) == 0xd952f164u32);
    assert(d.take(4).drop_last() =~= d.take(3));
    assert(crc32_register(d.take(4)) == 0xa695c4aau32);
    assert(d.take(5).drop_last() =~= d.take(4));
    assert(crc32_register(d.take(5)) == 0xbd9ab747u32);
    assert(d.take(6).drop_last() =~= d.take(5));
    assert(crc32_register(d.take(6)) == 0xd8f06c8fu32);
    assert(d.take(7).drop_last() =~= d.take(6));
    assert(crc32_register(d.take(7)) == 0x0d8a14c4u32);
    assert(d.take(8).drop_last() =~= d.take(7));
    assert(crc32_register(d.take(8)) == 0x49e3c2fbu32);
    assert(d.take(9).drop_last() =~= d.take(8));
    assert(crc32_register(d.take(9)) == 0x0376e6e7u32);
    assert(d.take(9) =~= d);
}

/// A byte taken into different registers, or different bytes taken into
/// one register, leave different registers.
proof fn lemma_crc32_byte_injective(r1: u32, r2: u32, b1: u8, b2: u8)
    by (bit_vector)
    ensures
        r1 != r2 ==> crc32_byte(r1, b1) != crc32_byte(r2, b1),
        b1 != b2 ==> crc32_byte(r1, b1) != crc32_byte(r1, b2),
{
}

/// Two byte strings of one length that differ in exactly one position have
/// different CRC-32/MPEG-2 checksums.
pub proof fn lemma_crc32_detects_one_change(a: Seq<u8>, b: Seq<u8>, i: int)
    requires
        a.len() == b.len(),
        0 <= i < a.len(),
        a[i] != b[i],
        forall|j: int| 0 <= j < a.len() && j != i ==> a[j] == b[j],
    ensures
        crc32_mpeg2(a) != crc32_mpeg2(b),
    decreases a.len(),
{
    reveal(crc32_mpeg2);
    let n = a.len() - 1;
    if i == n {
        assert(a.drop_last() =~= b.drop_last());
        lemma_crc32_byte_injective(crc32_register(a.drop_last()), 0, a.last(), b.last());
    } else {
        lemma_crc32_detects_one_change(a.drop_last(), b.drop_last(), i);
        assert(a.last() == b.last()) by {
            assert(a[n] == b[n]);
        }
        lemma_crc32_byte_injective(
            crc32_register(a.drop_last()),
            crc32_register(b.drop_last()),
            a.last(),
            0,
        );
    }
}

/// A frame whose check sequence is consistent, with one value of its data
/// changed and nothing else, fails the check.
pub proof fn lemma_frame_detects_one_change(v: DatalinkView, i: int, x: u8)
    requires
        fcs_consistent(v),
        0 <= i < v.data.len(),
        x != v.data[i],
    ensures
        !fcs_consistent(DatalinkView { data: v.data.update(i, x), ..v }),
{
    let w = DatalinkView { data: v.data.update(i, x), ..v };
    let h = header_bits(v.frame_type, v.destination_address, v.source_address, v.sequence_number);
    assert(body_bits(v)[36 + i] == v.data[i]);
    assert(body_bits(w)[36 + i] == x);
    assert forall|j: int| 0 <= j < body_bits(v).len() && j != 36 + i implies body_bits(v)[j]
        == body_bits(w)[j] by {
        if j >= 36 {
            assert(body_bits(v)[j] == v.data[j - 36]);
            assert(body_bits(w)[j] == w.data[j - 36]);
        }
    }
    lemma_crc32_detects_one_change(body_bits(v), body_bits(w), 36 + i);
}

} // verus!
