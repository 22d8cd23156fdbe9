//! Text as bit streams, read back through the decimal text of each value.
use vstd::prelude::*;

use crate::bytes::{byte_bits, text_bits};

verus! {

/// The decimal text of `e` uses only the digits 0 and 1.
pub open spec fn is_binary_numeral(e: u8) -> bool {
    e == 0 || e == 1 || e == 10 || e == 11 || e == 100 || e == 101 || e == 110 || e == 111
}

/// Two to the number of decimal digits of a binary numeral.
pub open spec fn numeral_scale(e: u8) -> nat {
    if e < 10 {
        2
    } else if e < 100 {
        4
    } else {
        8
    }
}

/// The value of the decimal text of a binary numeral read in base 2.
pub open spec fn numeral_value(e: u8) -> nat {
    if e == 0 {
        0
    } else if e == 1 {
        1
    } else if e == 10 {
        2
    } else if e == 11 {
        3
    } else if e == 100 {
        4
    } else if e == 101 {
        5
    } else if e == 110 {
        6
    } else {
        7
    }
}

/// The decimal texts of the values of `c`, written one after the other and
/// read as a base-2 number.
pub open spec fn chunk_value(c: Seq<u8>) -> nat
    decreases c.len(),
{
    if c.len() == 0 {
        0
    } else {
        chunk_value(c.drop_last()) * numeral_scale(c.last()) + numeral_value(c.last())
    }
}

/// The decimal texts of the values of `c` read together in base 2 give a
/// number that fits in a byte.
pub open spec fn chunk_readable(c: Seq<u8>) -> bool {
    &&& forall|i: int| 0 <= i < c.len() ==> #[trigger] is_binary_numeral(c[i])
    &&& chunk_value(c) <= 255
}

/// Every complete group of eight values of `bin` is readable.
pub open spec fn numerals_readable(bin: Seq<u8>) -> bool {
    forall|k: int|
        0 <= k < bin.len() / 8 ==> #[trigger] chunk_readable(bin.subrange(8 * k, 8 * k + 8))
}

/// One character per complete group of eight values of `bin` (the values
/// after the last complete group are dropped): the character whose code is
/// the group's value.
pub open spec fn numerals_text(bin: Seq<u8>) -> Seq<char>
    decreases bin.len(),
{
    if bin.len() < 8 {
        Seq::empty()
    } else {
        let full = bin.take(bin.len() - bin.len() % 8);
        if full.len() < bin.len() {
            numerals_text(full)
        } else {
            numerals_text(bin.take(bin.len() - 8)) + seq![
                (chunk_value(bin.subrange(bin.len() - 8, bin.len() as int)) as u32) as char,
            ]
        }
    }
}

/// Encodes each character of `data` by the eight bits of its low byte, most
/// significant bit first.
pub fn encode_u8(data: &str) -> (res: Vec<u8>)
    ensures
        res@ == text_bits(data@),
{
    crate::bytes::encode_u8(data)
}

/// Writes the eight bits of `dec` into `buf`, most significant bit first.
pub fn char_to_bin_u8(buf: &mut [u8; 8], dec: u8)
    ensures
        final(buf)@ == byte_bits(dec),
{
    crate::bytes::char_to_bin_u8(buf, dec)
}

proof fn lemma_chunk_value_prefix(c: Seq<u8>, k: int)
    requires
        0 <= k <= c.len(),
        forall|i: int| 0 <= i < c.len() ==> #[trigger] is_binary_numeral(c[i]),
    ensures
        chunk_value(c.take(k)) <= chunk_value(c),
    decreases c.len() - k,
{
    if k < c.len() {
        let init = c.drop_last();
        assert forall|i: int| 0 <= i < init.len() implies #[trigger] is_binary_numeral(init[i]) by {
            assert(init[i] == c[i]);
        }
        lemma_chunk_value_prefix(init, k);
        assert(init.take(k) == c.take(k));
        let v = chunk_value(init);
        let s = numeral_scale(c.last());
        assert(v <= v * s) by (nonlinear_arith)
            requires
                s >= 1,
        ;
    } else {
        assert(c.take(k) == c);
    }
}

/// Whether every complete group of eight values of `bin` is readable.
pub fn is_readable(bin: &[u8]) -> (r: bool)
    ensures
        r == numerals_readable(bin@),
{
    let nchunks = bin.len() / 8;
    let mut k: usize = 0;
    while k < nchunks
        invariant
            nchunks == bin@.len() / 8,
            8 * nchunks <= bin.len(),
            k <= nchunks,
            forall|q: int| 0 <= q < k ==> #[trigger] chunk_readable(bin@.subrange(8 * q, 8 * q + 8)),
        decreases nchunks - k,
    {
        let start = 8 * k;
        let ghost chunk = bin@.subrange(8 * k, 8 * k + 8);
        let mut acc: u32 = 0;
        let mut j: usize = 0;
        while j < 8
            invariant
                j <= 8,
                start == 8 * k,
                start + 8 <= bin.len(),
                chunk == bin@.subrange(start as int, start + 8),
                acc <= 255,
                acc == chunk_value(chunk.take(j as int)),
                forall|i: int| 0 <= i < j ==> #[trigger] is_binary_numeral(chunk[i]),
            decreases 8 - j,
        {
            let e = bin[start + j];
            assert(chunk[j as int] == e);
            assert(chunk.take(j + 1).drop_last() == chunk.take(j as int));
            if !(e == 0 || e == 1 || e == 10 || e == 11 || e == 100 || e == 101 || e == 110 || e
                == 111) {
                assert(!is_binary_numeral(chunk[j as int]));
                assert(chunk_readable(chunk) ==> is_binary_numeral(chunk[j as int]));
                assert(!chunk_readable(chunk));
                return false;
            }
            let (scale, value): (u32, u32) = if e < 10 {
                (2, e as u32)
            } else if e < 100 {
                (4, if e == 10 {
                    2
                } else {
                    3
                })
            } else {
                (
                    8,
                    if e == 100 {
                        4
                    } else if e == 101 {
                        5
                    } else if e == 110 {
                        6
                    } else {
                        7
                    },
                )
            };
            assert(acc * scale <= 255 * 8) by (nonlinear_arith)
                requires
                    acc <= 255,
                    scale <= 8,
            ;
            assert(scale == numeral_scale(e) && value == numeral_value(e));
            assert(chunk.take(j + 1).last() == e);
            acc = acc * scale + value;
            if acc > 255 {
                proof {
                    if chunk_readable(chunk) {
                        lemma_chunk_value_prefix(chunk, j + 1);
                    }
                    assert(!chunk_readable(chunk));
                }
                return false;
            }
            j += 1;
        }
        assert(chunk.take(8) == chunk);
        k += 1;
    }
    true
}

/// Reads a bit stream eight values at a time: the decimal texts of the
/// values of each group, written one after the other, are read as a base-2
/// number, which becomes a character; values after the last complete group
/// are dropped.
pub fn decode_u8(bin: Vec<u8>) -> (decs: Vec<char>)
    requires
        numerals_readable(bin@),
    ensures
        decs@ == numerals_text(bin@),
{
    let nchunks = bin.len() / 8;
    let mut decs: Vec<char> = Vec::new();
    let mut k: usize = 0;
    while k < nchunks
        invariant
            nchunks == bin@.len() / 8,
            8 * nchunks <= bin.len(),
            numerals_readable(bin@),
            k <= nchunks,
            decs@ == numerals_text(bin@.take(8 * k)),
        decreases nchunks - k,
    {
        let start = 8 * k;
        let ghost chunk = bin@.subrange(8 * k, 8 * k + 8);
        assert(chunk_readable(chunk));
        let mut acc: u32 = 0;
        let mut j: usize = 0;
        while j < 8
            invariant
                j <= 8,
                start == 8 * k,
                start + 8 <= bin.len(),
                chunk == bin@.subrange(start as int, start + 8),
                chunk_readable(chunk),
                acc == chunk_value(chunk.take(j as int)),
            decreases 8 - j,
        {
            let e = bin[start + j];
            assert(chunk[j as int] == e);
            assert(chunk.take(j + 1).drop_last() == chunk.take(j as int));
            proof {
                lemma_chunk_value_prefix(chunk, j as int);
            }
            let (scale, value): (u32, u32) = if e < 10 {
                (2, e as u32)
            } else if e < 100 {
                (4, if e == 10 {
                    2
                } else {
                    3
                })
            } else {
                (
                    8,
                    if e == 100 {
                        4
                    } else if e == 101 {
                        5
                    } else if e == 110 {
                        6
                    } else {
                        7
                    },
                )
            };
            assert(acc * scale <= 255 * 8) by (nonlinear_arith)
                requires
                    acc <= 255,
                    scale <= 8,
            ;
            assert(is_binary_numeral(e));
            assert(scale == numeral_scale(e) && value == numeral_value(e));
            assert(chunk.take(j + 1).last() == e);
            acc = acc * scale + value;
            j += 1;
        }
        proof {
            assert(chunk.take(8) == chunk);
            let next = bin@.take(8 * k + 8);
            assert(next.take(next.len() - next.len() % 8) == next);
            assert(next.take(next.len() - 8) == bin@.take(8 * k));
            assert(next.subrange(next.len() - 8, next.len() as int) == chunk);
        }
        decs.push((acc as u8) as char);
        k += 1;
    }
    proof {
        let full = bin@.take(8 * nchunks);
        assert(bin@.take(bin@.len() - bin@.len() % 8) == full);
        if bin@.len() >= 8 && full.len() == bin@.len() {
            assert(full == bin@);
        }
    }
    decs
}

/// Read in base 2, the eight bits of a byte give the byte.
pub proof fn lemma_chunk_value_byte(b: u8)
    ensures
        chunk_value(byte_bits(b)) == b as nat,
        chunk_readable(byte_bits(b)),
{
    lemma_chunk_value_byte_prefix(b, 8);
    assert(byte_bits(b).take(8) =~= byte_bits(b));
    assert(b >> 0u8 == b) by (bit_vector);
    assert forall|i: int| 0 <= i < 8 implies #[trigger] is_binary_numeral(byte_bits(b)[i]) by {
        let v = b >> ((7 - i) as u8);
        assert(v & 1u8 <= 1) by (bit_vector);
    }
}

proof fn lemma_chunk_value_byte_prefix(b: u8, k: nat)
    requires
        k <= 8,
    ensures
        chunk_value(byte_bits(b).take(k as int)) == (b >> ((8 - k) as u8)) as nat,
    decreases k,
{
    if k == 0 {
        assert(b >> 8u8 == 0) by (bit_vector);
    } else {
        lemma_chunk_value_byte_prefix(b, (k - 1) as nat);
        let s = byte_bits(b).take(k as int);
        assert(s.drop_last() =~= byte_bits(b).take(k - 1));
        let j = (k - 1) as u8;
        let bit = (b >> ((7 - j) as u8)) & 1u8;
        assert(bit <= 1) by (bit_vector)
            requires
                bit == (b >> ((7 - j) as u8)) & 1u8,
        ;
        assert(((b >> ((8 - j) as u8)) as nat) * 2 + bit == (b >> ((7 - j) as u8)) as nat)
            by (bit_vector)
            requires
                j < 8,
                bit == (b >> ((7 - j) as u8)) & 1u8,
        ;
    }
}

/// The bits of a text, followed by fewer than eight more values, read as
/// text give the text back, as long as every character's code is below 256.
pub proof fn lemma_numerals_text_bits(t: Seq<char>, tail: Seq<u8>)
    requires
        forall|i: int| 0 <= i < t.len() ==> (#[trigger] t[i] as u32) < 256,
        tail.len() < 8,
    ensures
        numerals_readable(text_bits(t) + tail),
        numerals_text(text_bits(t) + tail) == t,
    decreases t.len(),
{
    crate::bytes::lemma_text_bits_len(t);
    let tb = text_bits(t);
    let all = tb + tail;
    if t.len() == 0 {
        assert(all =~= tail);
        assert(numerals_text(all) =~= Seq::<char>::empty());
    } else {
        let init = t.drop_last();
        let c = t.last();
        assert forall|i: int| 0 <= i < init.len() implies (#[trigger] init[i] as u32) < 256 by {
            assert(init[i] == t[i]);
        }
        lemma_numerals_text_bits(init, Seq::empty());
        crate::bytes::lemma_text_bits_len(init);
        let a = text_bits(init);
        lemma_chunk_value_byte(crate::bytes::low_byte(c));
        assert(tb == a + byte_bits(crate::bytes::low_byte(c)));
        assert(a + Seq::<u8>::empty() =~= a);
        // Readability of every complete group.
        assert forall|k: int| 0 <= k < all.len() / 8 implies #[trigger] chunk_readable(
            all.subrange(8 * k, 8 * k + 8),
        ) by {
            if k < a.len() / 8 {
                assert(all.subrange(8 * k, 8 * k + 8) =~= a.subrange(8 * k, 8 * k + 8));
            } else {
                assert(all.subrange(8 * k, 8 * k + 8) =~= byte_bits(crate::bytes::low_byte(c)));
            }
        }
        // The text.
        let full = all.take(all.len() - all.len() % 8);
        assert(full =~= tb);
        assert(tb.take(tb.len() - 8) =~= a);
        assert(tb.subrange(tb.len() - 8, tb.len() as int) =~= byte_bits(crate::bytes::low_byte(c)));
        let v = c as u32;
        assert((v as u8) as u32 == v) by (bit_vector)
            requires
                v < 256,
        ;
        vstd::utf8::char_u32_cast(c, v);
        assert(numerals_text(tb) == numerals_text(a) + seq![c]);
        if tail.len() > 0 {
            assert(numerals_text(all) == numerals_text(tb));
        } else {
            assert(all =~= tb);
        }
        assert(init.push(c) =~= t);
    }
}

} // verus!
