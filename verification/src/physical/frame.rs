//! Physical frames.
//!
//! | Preamble | SFD    | Modulation Type | Length  | CRC     | Payload |
//! |----------|--------|-----------------|---------|---------|---------|
//! | 8 bits   | 8 bits | 4 bits          | 16 bits | 16 bits | ..      |
//!
//! The CRC is the CRC-16/IBM-SDLC of modulation type and length.
use vstd::prelude::*;

use crate::bytes::{decimal, decimal_string, push_char, u16_bits, u16_from_bytes, u16_of_bits, u16_to_bytes};
use crate::error::{Error, Result};
use crate::{PREAMBLE, USFD};

verus! {

/// One shift of the CRC-16/IBM-SDLC register: the register is reflected,
/// so it shifts right, and the polynomial 0x1021 reads 0x8408.
pub open spec fn crc16_shift(r: u16) -> u16 {
    if r & 1u16 == 1u16 {
        (r >> 1u16) ^ 0x8408u16
    } else {
        r >> 1u16
    }
}

/// A byte added into the CRC-16/IBM-SDLC register and shifted through, one
/// shift per bit.
pub open spec fn crc16_byte(r: u16, b: u8) -> u16 {
    let x = r ^ (b as u16);
    crc16_shift(
        crc16_shift(
            crc16_shift(crc16_shift(crc16_shift(crc16_shift(crc16_shift(crc16_shift(x)))))),
        ),
    )
}

/// The CRC-16/IBM-SDLC register after `data`: it starts at 0xffff, and
/// takes in each byte in turn, least significant bit first.
pub open spec fn crc16_register(data: Seq<u8>) -> u16
    decreases data.len(),
{
    if data.len() == 0 {
        0xffffu16
    } else {
        crc16_byte(crc16_register(data.drop_last()), data.last())
    }
}

/// The CRC-16/IBM-SDLC checksum of `data`, each value taken as one byte
/// (polynomial 0x1021, initial value 0xffff, reflected input and output,
/// final XOR 0xffff).
#[verifier::opaque]
pub open spec fn crc16_ibm_sdlc(data: Seq<u8>) -> u16 {
    crc16_register(data) ^ 0xffffu16
}

/// Calls `crc::Crc::<u16>::checksum` with the catalogue algorithm
/// `crc::CRC_16_IBM_SDLC` (width 16, polynomial 0x1021, initial value
/// 0xffff, reflected input and output, final XOR 0xffff); the claim is that
/// its result is that algorithm, `crc16_ibm_sdlc`, on the bytes.
#[verifier::external_body]
fn crc16_checksum(data: &[u8]) -> (c: u16)
    ensures
        c == crc16_ibm_sdlc(data@),
{
    crc::Crc::<u16>::new(&crc::CRC_16_IBM_SDLC).checksum(data)
}

/// The CRC-16/IBM-SDLC checksum of `data`, as the header uses it.
pub fn header_checksum(data: &[u8]) -> (c: u16)
    ensures
        c == crc16_ibm_sdlc(data@),
{
    crc16_checksum(data)
}


/// How the payload is modulated.
#[derive(Debug, Clone, Copy, PartialEq, Eq, Structural)]
pub enum ModulationType {
    BfskNoErrorCorrection,
}

/// The four bits that stand for each modulation type.
pub open spec fn modulation_bits(m: ModulationType) -> Seq<u8> {
    match m {
        ModulationType::BfskNoErrorCorrection => seq![0u8, 0u8, 0u8, 1u8],
    }
}

/// `b` is the bit pattern of a modulation type.
pub open spec fn is_modulation_bits(b: Seq<u8>) -> bool {
    b == seq![0u8, 0u8, 0u8, 1u8]
}

/// The text that names each modulation type.
pub open spec fn modulation_name(m: ModulationType) -> Seq<char> {
    match m {
        ModulationType::BfskNoErrorCorrection => "BFSK no error correction"@,
    }
}

impl ModulationType {
    /// The modulation type's four bits.
    pub fn to_bytes(&self) -> (b: [u8; 4])
        ensures
            b@ == modulation_bits(*self),
    {
        let b: [u8; 4] = match self {
            ModulationType::BfskNoErrorCorrection => [0, 0, 0, 1],
        };
        assert(b@ =~= modulation_bits(*self));
        b
    }

    /// The modulation type whose bit pattern is `bytes`.
    pub fn from(bytes: &[u8]) -> (m: Self)
        requires
            is_modulation_bits(bytes@),
        ensures
            modulation_bits(m) == bytes@,
    {
        ModulationType::BfskNoErrorCorrection
    }

    /// Whether `bytes` is the bit pattern of a modulation type.
    pub fn is_valid_bits(bytes: &[u8]) -> (r: bool)
        ensures
            r == is_modulation_bits(bytes@),
    {
        let r = bytes.len() == 4 && bytes[0] == 0 && bytes[1] == 0 && bytes[2] == 0 && bytes[3]
            == 1;
        if r {
            assert(bytes@ =~= seq![0u8, 0u8, 0u8, 1u8]);
        }
        r
    }

    /// The text that names the modulation type.
    pub fn name(&self) -> (s: String)
        ensures
            s@ == modulation_name(*self),
    {
        match self {
            ModulationType::BfskNoErrorCorrection => String::from_str("BFSK no error correction"),
        }
    }
}

/// A physical header: modulation type, length of the data link frame that
/// follows, and whether the header's checksum matched when it was read.
#[derive(Debug, Clone, Copy, PartialEq, Eq, Structural)]
pub struct Physical {
    pub mod_type: ModulationType,
    pub length: u16,
    pub detect_checksum: bool,
}

/// The 20 bits that the header checksum covers: modulation type and length.
pub open spec fn physical_fields(m: ModulationType, length: u16) -> Seq<u8> {
    modulation_bits(m) + u16_bits(length)
}

/// The 52 bits of a physical header as sent, with `crc` as its checksum.
pub open spec fn physical_bits_with(m: ModulationType, length: u16, crc: u16) -> Seq<u8> {
    PREAMBLE@ + USFD@ + physical_fields(m, length) + u16_bits(crc)
}

/// The 52 bits of a physical header as sent.
pub open spec fn physical_bits(p: Physical) -> Seq<u8> {
    physical_bits_with(
        p.mod_type,
        p.length,
        crc16_ibm_sdlc(physical_fields(p.mod_type, p.length)),
    )
}

/// The header read from the 36 values after the start frame delimiter,
/// with `computed` as the checksum of its first 20 values.
pub open spec fn physical_from_with(b: Seq<u8>, computed: u16) -> Physical {
    Physical {
        mod_type: ModulationType::BfskNoErrorCorrection,
        length: u16_of_bits(b.subrange(4, 20)),
        detect_checksum: computed == u16_of_bits(b.subrange(20, 36)),
    }
}

/// The header read from the 36 values after the start frame delimiter.
pub open spec fn physical_from(b: Seq<u8>) -> Physical {
    physical_from_with(b, crc16_ibm_sdlc(b.take(20)))
}

/// The text that describes a header.
pub open spec fn physical_text(p: Physical) -> Seq<char> {
    "Modulation type: "@ + modulation_name(p.mod_type) + "\n"@ + "Physical Header Length: "@
        + decimal(p.length as nat) + "\n"@ + "Cecksum detected: "@ + (if p.detect_checksum {
        "true"@
    } else {
        "false"@
    }) + "\n"@
}

/// Copies `src` into `dst` from position `at`.
fn copy_into(dst: &mut [u8; 52], at: usize, src: &[u8])
    requires
        at + src@.len() <= 52,
    ensures
        final(dst)@ == old(dst)@.take(at as int) + src@ + old(dst)@.skip(at + src@.len()),
{
    let mut i: usize = 0;
    while i < src.len()
        invariant
            at + src@.len() <= 52,
            i <= src@.len(),
            dst@.len() == 52,
            dst@ == old(dst)@.take(at as int) + src@.take(i as int) + old(dst)@.skip(at + i),
        decreases src@.len() - i,
    {
        dst[at + i] = src[i];
        assert(dst@ =~= old(dst)@.take(at as int) + src@.take(i + 1) + old(dst)@.skip(at + i + 1));
        i += 1;
    }
    assert(src@.take(src@.len() as int) == src@);
}

impl Physical {
    /// A header for a frame of `length` bits, its checksum taken as matched.
    pub fn new(length: u16, mod_type: ModulationType) -> (p: Self)
        ensures
            p == (Physical { mod_type, length, detect_checksum: true }),
    {
        Self { mod_type, length, detect_checksum: true }
    }

    /// The header as sent with `checksum` in place of the computed one.
    pub fn to_bytes_with_checksum(&self, checksum: u16) -> (frame: [u8; 52])
        ensures
            frame@ == physical_bits_with(self.mod_type, self.length, checksum),
    {
        let mut frame = [0u8; 52];
        let preamble = PREAMBLE;
        copy_into(&mut frame, 0, preamble.as_slice());
        let sfd = USFD;
        copy_into(&mut frame, 8, sfd.as_slice());
        let m = self.mod_type.to_bytes();
        copy_into(&mut frame, 16, m.as_slice());
        let l = u16_to_bytes(self.length);
        copy_into(&mut frame, 20, l.as_slice());
        let c = u16_to_bytes(checksum);
        copy_into(&mut frame, 36, c.as_slice());
        assert(frame@ =~= physical_bits_with(self.mod_type, self.length, checksum));
        frame
    }

    /// The header as sent: preamble, start frame delimiter, modulation type,
    /// length, and the checksum of modulation type and length.
    pub fn to_bytes(&self) -> (frame: [u8; 52])
        ensures
            frame@ == physical_bits(*self),
    {
        let draft = self.to_bytes_with_checksum(0);
        assert(draft@.subrange(16, 36) =~= physical_fields(self.mod_type, self.length));
        let checksum = crc16_checksum(&draft[16..36]);
        self.to_bytes_with_checksum(checksum)
    }

    /// The header read from the 36 values after the start frame delimiter,
    /// given the checksum computed over its first 20 values.
    pub fn from_bytes_with_checksum(bytes: &[u8; 36], computed: u16) -> (p: Self)
        requires
            is_modulation_bits(bytes@.take(4)),
        ensures
            p == physical_from_with(bytes@, computed),
    {
        let mod_type = ModulationType::from(&bytes[0..4]);
        let length = u16_from_bytes(&bytes[4..20]);
        let crc = u16_from_bytes(&bytes[20..36]);
        Self { mod_type, length, detect_checksum: computed == crc }
    }

    /// The header read from the 36 values after the start frame delimiter;
    /// `detect_checksum` tells whether the checksum matched.
    pub fn from_bytes(bytes: &[u8; 36]) -> (r: Result<Self>)
        requires
            is_modulation_bits(bytes@.take(4)),
        ensures
            r == Ok::<Physical, Error>(physical_from(bytes@)),
    {
        let computed = crc16_checksum(&bytes[0..20]);
        Ok(Self::from_bytes_with_checksum(bytes, computed))
    }

    /// Text that describes the header, one field per line.
    pub fn describe(&self) -> (s: String)
        ensures
            s@ == physical_text(*self),
    {
        let mut s = String::from_str("Modulation type: ");
        let name = self.mod_type.name();
        s.append(name.as_str());
        push_char(&mut s, '\n');
        s.append("Physical Header Length: ");
        let len = decimal_string(self.length as usize);
        s.append(len.as_str());
        push_char(&mut s, '\n');
        s.append("Cecksum detected: ");
        if self.detect_checksum {
            s.append("true");
        } else {
            s.append("false");
        }
        push_char(&mut s, '\n');
        proof {
            reveal_strlit("\n");
        }
        s
    }
}

/// The checksum of the ASCII digits 1 to 9 is the catalogue's check value
/// of CRC-16/IBM-SDLC.
pub proof fn lemma_crc16_check_value()
    ensures
        crc16_ibm_sdlc(seq![0x31u8, 0x32u8, 0x33u8, 0x34u8, 0x35u8, 0x36u8, 0x37u8, 0x38u8, 0x39u8])
            == 0x906eu16,
{
    reveal(crc16_ibm_sdlc);
    assert({
        &&& crc16_byte(0xffffu16, 0x31u8) == 0x2f8du16
        &&& crc16_byte(0x2f8du16, 0x32u8) == 0x4d53u16
        &&& crc16_byte(0x4d53u16, 0x33u8) == 0x634bu16
        &&& crc16_byte(0x634bu16, 0x34u8) == 0x8b13u16
        &&& crc16_byte(0x8b13u16, 0x35u8) == 0x44bfu16
        &&& crc16_byte(0x44bfu16, 0x36u8) == 0x198du16
        &&& crc16_byte(0x198du16, 0x37u8) == 0x1ac8u16
        &&& crc16_byte(0x1ac8u16, 0x38u8) == 0xf795u16
        &&& crc16_byte(0xf795u16, 0x39u8) == 0x6f91u16
        &&& 0x6f91u16 ^ 0xffffu16 == 0x906eu16
    }) by (bit_vector);
    let d = seq![0x31u8, 0x32u8, 0x33u8, 0x34u8, 0x35u8, 0x36u8, 0x37u8, 0x38u8, 0x39u8];
    assert(crc16_register(d.take(0)) == 0xffffu16);
    assert(d[0] == 0x31u8 && d[1] == 0x32u8 && d[2] == 0x33u8 && d[3] == 0x34u8 && d[4] == 0x35u8
        && d[5] == 0x36u8 && d[6] == 0x37u8 && d[7] == 0x38u8 && d[8] == 0x39u8);
    assert(d.take(1).drop_last() =~= d.take(0));
    assert(crc16_register(d.take(1)) == 0x2f8du16);
    assert(d.take(2).drop_last() =~= d.take(1));
    assert(crc16_register(d.take(2)) == 0x4d53u16);
    assert(d.take(3).drop_last() =~= d.take(2));
    assert(crc16_register(d.take(3)) == 0x634bu16);
    assert(d.take(4).drop_last() =~= d.take(3));
    assert(crc16_register(d.take(4)) == 0x8b13u16);
    assert(d.take(5).drop_last() =~= d.take(4));
    assert(crc16_register(d.take(5)) == 0x44bfu16);
    assert(d.take(6).drop_last() =~= d.take(5));
    assert(crc16_register(d.take(6)) == 0x198du16);
    assert(d.take(7).drop_last() =~= d.take(6));
    assert(crc16_register(d.take(7)) == 0x1ac8u16);
    assert(d.take(8).drop_last() =~= d.take(7));
    assert(crc16_register(d.take(8)) == 0xf795u16);
    assert(d.take(9).drop_last() =~= d.take(8));
    assert(crc16_register(d.take(9)) == 0x6f91u16);
    assert(d.take(9) =~= d);
}

/// A byte taken into different registers, or different bytes taken into
/// one register, leave different registers; so does the final XOR.
proof fn lemma_crc16_byte_injective(r1: u16, r2: u16, b1: u8, b2: u8)
    by (bit_vector)
    ensures
        r1 != r2 ==> crc16_byte(r1, b1) != crc16_byte(r2, b1),
        b1 != b2 ==> crc16_byte(r1, b1) != crc16_byte(r1, b2),
        r1 != r2 ==> (r1 ^ 0xffffu16) != (r2 ^ 0xffffu16),
{
}

proof fn lemma_crc16_register_one_change(a: Seq<u8>, b: Seq<u8>, i: int)
    requires
        a.len() == b.len(),
        0 <= i < a.len(),
        a[i] != b[i],
        forall|j: int| 0 <= j < a.len() && j != i ==> a[j] == b[j],
    ensures
        crc16_register(a) != crc16_register(b),
    decreases a.len(),
{
    let n = a.len() - 1;
    if i == n {
        assert(a.drop_last() =~= b.drop_last());
        lemma_crc16_byte_injective(crc16_register(a.drop_last()), 0, a.last(), b.last());
    } else {
        lemma_crc16_register_one_change(a.drop_last(), b.drop_last(), i);
        assert(a.last() == b.last()) by {
            assert(a[n] == b[n]);
        }
        lemma_crc16_byte_injective(
            crc16_register(a.drop_last()),
            crc16_register(b.drop_last()),
            a.last(),
            0,
        );
    }
}

/// Two byte strings of one length that differ in exactly one position have
/// different CRC-16/IBM-SDLC checksums.
pub proof fn lemma_crc16_detects_one_change(a: Seq<u8>, b: Seq<u8>, i: int)
    requires
        a.len() == b.len(),
        0 <= i < a.len(),
        a[i] != b[i],
        forall|j: int| 0 <= j < a.len() && j != i ==> a[j] == b[j],
    ensures
        crc16_ibm_sdlc(a) != crc16_ibm_sdlc(b),
{
    reveal(crc16_ibm_sdlc);
    lemma_crc16_register_one_change(a, b, i);
    lemma_crc16_byte_injective(crc16_register(a), crc16_register(b), 0, 0);
}

/// Reading the 36 values after the start frame delimiter of a header as
/// sent gives the header back, with a matching checksum.
pub proof fn lemma_physical_roundtrip(p: Physical)
    ensures
        is_modulation_bits(physical_bits(p).subrange(16, 52).take(4)),
        physical_from(physical_bits(p).subrange(16, 52)) == (Physical {
            detect_checksum: true,
            ..p
        }),
{
    let b = physical_bits(p).subrange(16, 52);
    let crc = crc16_ibm_sdlc(physical_fields(p.mod_type, p.length));
    crate::bytes::lemma_u16_bits_roundtrip(p.length);
    crate::bytes::lemma_u16_bits_roundtrip(crc);
    assert(b.take(4) =~= modulation_bits(p.mod_type));
    assert(b.subrange(4, 20) =~= u16_bits(p.length));
    assert(b.subrange(20, 36) =~= u16_bits(crc));
    assert(b.take(20) =~= physical_fields(p.mod_type, p.length));
}

/// A header as sent with one value of its modulation type or length changed
/// is read with a checksum that does not match.
pub proof fn lemma_header_detects_one_change(p: Physical, i: int, v: u8)
    requires
        0 <= i < 20,
        v != physical_bits(p).subrange(16, 52)[i],
    ensures
        !physical_from(physical_bits(p).subrange(16, 52).update(i, v)).detect_checksum,
{
    let hb = physical_bits(p).subrange(16, 52);
    let hc = hb.update(i, v);
    let crc = crc16_ibm_sdlc(physical_fields(p.mod_type, p.length));
    lemma_physical_roundtrip(p);
    crate::bytes::lemma_u16_bits_roundtrip(crc);
    assert(hb.take(20) =~= physical_fields(p.mod_type, p.length));
    assert(hc.subrange(20, 36) =~= hb.subrange(20, 36));
    assert(hb.subrange(20, 36) =~= u16_bits(crc));
    lemma_crc16_detects_one_change(hb.take(20), hc.take(20), i);
}

} // verus!
