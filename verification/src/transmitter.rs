//! The bit stream that the transmitter sends for a text: the Hamming code
//! of the text's bits between two start frame delimiters.
use vstd::prelude::*;

use crate::bytes::{all_bits, extend_bits, text_bits};
use crate::hamming::Hamming::{get_hamming_code, hamming_code, hamming_encodable};
use crate::USFD;

verus! {

/// The bits sent for `text`.
pub open spec fn transmitted_bits(text: Seq<char>) -> Seq<u8> {
    USFD@ + hamming_code(text_bits(text)) + USFD@
}

/// `bin` between two start frame delimiters.
pub fn add_syn(bin: Vec<u8>) -> (buf: Vec<u8>)
    ensures
        buf@ == USFD@ + bin@ + USFD@,
{
    let mut buf: Vec<u8> = Vec::new();
    let sfd = USFD;
    extend_bits(&mut buf, sfd.as_slice());
    extend_bits(&mut buf, bin.as_slice());
    extend_bits(&mut buf, sfd.as_slice());
    buf
}

/// A sequence of bits whose length is a multiple of four can be Hamming
/// coded.
pub proof fn lemma_bits_encodable(s: Seq<u8>)
    requires
        all_bits(s),
        s.len() % 4 == 0,
    ensures
        hamming_encodable(s),
{
    assert forall|k: int| 0 <= k < s.len() / 4 implies #[trigger]
        crate::hamming::Hamming::block_encodable(s.subrange(4 * k, 4 * k + 4)) by {
        let b = s.subrange(4 * k, 4 * k + 4);
        assert(b[0] == s[4 * k] && b[1] == s[4 * k + 1] && b[2] == s[4 * k + 2] && b[3] == s[4 * k
            + 3]);
    }
}

/// The bits sent for a non-empty text: its bits, Hamming coded, between two
/// start frame delimiters.
pub fn encode(data: &str) -> (bin: Vec<u8>)
    requires
        data@.len() > 0,
    ensures
        bin@ == transmitted_bits(data@),
{
    let bits = crate::bytes::encode_u8(data);
    proof {
        crate::bytes::lemma_text_bits_len(data@);
        crate::bytes::lemma_text_bits_are_bits(data@);
        lemma_bits_encodable(bits@);
    }
    let code = get_hamming_code(bits);
    add_syn(code)
}

} // verus!
