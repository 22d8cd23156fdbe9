//! Bit-level encodings: characters as 8-bit groups (most significant bit
//! first) and fixed-width integers as bit arrays (least significant bit first).
use vstd::prelude::*;

verus! {

/// Bit `j` (0 = most significant) of the byte `b`, as 0 or 1.
pub open spec fn msb_bit(b: u8, j: int) -> u8 {
    (b >> ((7 - j) as u8)) & 1u8
}

/// The eight bits of `b`, most significant first.
pub open spec fn byte_bits(b: u8) -> Seq<u8> {
    Seq::new(8, |j: int| msb_bit(b, j))
}

/// The low byte of a character's code point (what `c as u8` gives).
pub open spec fn low_byte(c: char) -> u8 {
    (c as u32) as u8
}

/// The bit stream of a text: the low byte of each character, eight bits per
/// character, most significant bit first.
pub open spec fn text_bits(s: Seq<char>) -> Seq<u8>
    decreases s.len(),
{
    if s.len() == 0 {
        Seq::empty()
    } else {
        text_bits(s.drop_last()) + byte_bits(low_byte(s.last()))
    }
}

/// The byte assembled from a group of at most eight values, the first one
/// shifted furthest to the left; each value is shifted as a `u8` and the
/// results are OR-ed together.
pub open spec fn msb_byte(c: Seq<u8>) -> u8
    decreases c.len(),
{
    if c.len() == 0 {
        0
    } else {
        msb_byte(c.drop_last()) | (c.last() << ((8 - c.len()) as u8))
    }
}

/// The characters of a bit stream whose length is a multiple of eight: one
/// character (code point 0 to 255) per group of eight.
pub open spec fn bits_text(bin: Seq<u8>) -> Seq<char>
    decreases bin.len(),
{
    if bin.len() < 8 {
        Seq::empty()
    } else {
        bits_text(bin.take(bin.len() - 8)) + seq![
            (msb_byte(bin.subrange(bin.len() - 8, bin.len() as int)) as u32) as char,
        ]
    }
}

/// The decimal digits of `n`.
pub open spec fn decimal(n: nat) -> Seq<char>
    decreases n,
{
    if n < 10 {
        seq![((n + 48) as u32) as char]
    } else {
        decimal(n / 10).push((((n % 10) + 48) as u32) as char)
    }
}

/// The message that `decode_u8` returns for a bit stream of `len` values
/// that is not a whole number of bytes.
pub open spec fn invalid_len_message(len: nat) -> Seq<char> {
    "Invalid binary data len: "@ + decimal(len)
}

/// Value of a bit array of width 8, bit `i` at index `i`: each value is
/// shifted left by its index as a `u8` and the results are OR-ed together.
pub open spec fn u8_of_bits(s: Seq<u8>) -> u8
    decreases s.len(),
{
    if s.len() == 0 {
        0
    } else {
        u8_of_bits(s.drop_last()) | (s.last() << ((s.len() - 1) as u8))
    }
}

/// As `u8_of_bits`, with each value widened to `u16` before the shift.
pub open spec fn u16_of_bits(s: Seq<u8>) -> u16
    decreases s.len(),
{
    if s.len() == 0 {
        0
    } else {
        u16_of_bits(s.drop_last()) | ((s.last() as u16) << ((s.len() - 1) as u16))
    }
}

/// As `u8_of_bits`, with each value widened to `u32` before the shift.
pub open spec fn u32_of_bits(s: Seq<u8>) -> u32
    decreases s.len(),
{
    if s.len() == 0 {
        0
    } else {
        u32_of_bits(s.drop_last()) | ((s.last() as u32) << ((s.len() - 1) as u32))
    }
}

/// The 8 bits of `n`, least significant first.
pub open spec fn u8_bits(n: u8) -> Seq<u8> {
    Seq::new(8, |i: int| (n >> (i as u8)) & 1u8)
}

/// The 16 bits of `n`, least significant first.
pub open spec fn u16_bits(n: u16) -> Seq<u8> {
    Seq::new(16, |i: int| ((n >> (i as u16)) & 1u16) as u8)
}

/// The 32 bits of `n`, least significant first.
pub open spec fn u32_bits(n: u32) -> Seq<u8> {
    Seq::new(32, |i: int| ((n >> (i as u32)) & 1u32) as u8)
}

/// Every value is 0 or 1.
pub open spec fn all_bits(s: Seq<u8>) -> bool {
    forall|i: int| 0 <= i < s.len() ==> #[trigger] s[i] <= 1
}

/// The decimal text of `n`, most significant digit first.
pub(crate) fn decimal_string(n: usize) -> (s: String)
    ensures
        s@ == decimal(n as nat),
    decreases n,
{
    let mut s = if n < 10 {
        String::new()
    } else {
        decimal_string(n / 10)
    };
    let digit = ((n % 10) as u8 + 48u8) as char;
    assert(digit == ((((n as nat) % 10) + 48) as u32) as char);
    push_char(&mut s, digit);
    s
}

/// Appends a character to a `String` (`String::push`).
#[verifier::external_body]
pub(crate) fn push_char(s: &mut String, c: char)
    ensures
        final(s)@ == old(s)@.push(c),
{
    s.push(c)
}

/// Appends the values of `s` to `v`.
pub(crate) fn extend_bits(v: &mut Vec<u8>, s: &[u8])
    ensures
        final(v)@ == old(v)@ + s@,
{
    let mut i: usize = 0;
    while i < s.len()
        invariant
            i <= s@.len(),
            v@ == old(v)@ + s@.take(i as int),
        decreases s@.len() - i,
    {
        v.push(s[i]);
        assert(s@.take(i + 1) == s@.take(i as int).push(s@[i as int]));
        i += 1;
    }
    assert(s@.take(s@.len() as int) == s@);
}

/// Writes the eight bits of `dec` into `buf`, most significant bit first.
pub fn char_to_bin_u8(buf: &mut [u8; 8], dec: u8)
    ensures
        final(buf)@ == byte_bits(dec),
{
    let mut idx: usize = 0;
    while idx < 8
        invariant
            idx <= 8,
            forall|j: int| 0 <= j < idx ==> #[trigger] buf@[j] == msb_bit(dec, j),
        decreases 8 - idx,
    {
        let ctr = (7 - idx) as u8;
        let k = dec >> ctr;
        let b = k & 1u8;
        if b == 1 {
            buf[idx] = 1;
        } else {
            assert(b == 0) by (bit_vector)
                requires
                    b == k & 1u8,
                    b != 1,
            ;
            buf[idx] = 0;
        }
        idx += 1;
    }
    assert(buf@ =~= byte_bits(dec));
}

/// Encodes each character of `data` by the eight bits of its low byte, most
/// significant bit first.
pub fn encode_u8(data: &str) -> (res: Vec<u8>)
    ensures
        res@ == text_bits(data@),
{
    let mut res: Vec<u8> = Vec::new();
    let ghost mut seen: Seq<char> = Seq::empty();
    for c in it: data.chars()
        invariant
            it.seq() == data@,
            seen == it.seq().take(it.index() as int),
            res@ == text_bits(seen),
    {
        let mut bits: [u8; 8] = [0; 8];
        let byte: u8 = #[verifier::truncate] ((c as u32) as u8);
        char_to_bin_u8(&mut bits, byte);
        assert(bits@ == byte_bits(low_byte(c)));
        let mut j: usize = 0;
        let ghost before = res@;
        while j < 8
            invariant
                j <= 8,
                bits@ == byte_bits(low_byte(c)),
                res@ == before + bits@.take(j as int),
            decreases 8 - j,
        {
            res.push(bits[j]);
            assert(bits@.take(j + 1) == bits@.take(j as int).push(bits@[j as int]));
            j += 1;
        }
        proof {
            assert(bits@.take(8) == bits@);
            assert(seen.push(c).drop_last() == seen);
            seen = seen.push(c);
        }
    }
    proof {
        assert(seen == data@);
    }
    res
}

/// Decodes a bit stream eight values at a time into characters; a stream
/// whose length is not a multiple of eight yields an error message instead.
pub fn decode_u8(bin: Vec<u8>) -> (res: String)
    ensures
        bin@.len() % 8 != 0 ==> res@ == invalid_len_message(bin@.len()),
        bin@.len() % 8 == 0 ==> res@ == bits_text(bin@),
{
    if bin.len() % 8 != 0 {
        let mut msg = String::from_str("Invalid binary data len: ");
        let digits = decimal_string(bin.len());
        msg.append(digits.as_str());
        return msg;
    }
    let mut res = String::new();
    let mut i: usize = 0;
    while i < bin.len()
        invariant
            bin@.len() % 8 == 0,
            i % 8 == 0,
            i <= bin@.len(),
            res@ == bits_text(bin@.take(i as int)),
        decreases bin@.len() - i,
    {
        assert(i + 8 <= bin@.len());
        let mut a: u8 = 0;
        let mut b: usize = 0;
        while b < 8
            invariant
                b <= 8,
                i + 8 <= bin.len(),
                a == msb_byte(bin@.subrange(i as int, i + b)),
            decreases 8 - b,
        {
            let j = bin[i + b];
            assert(bin@.subrange(i as int, i + b + 1).drop_last() == bin@.subrange(
                i as int,
                i + b,
            ));
            a = a | (j << ((7 - b) as u8));
            b += 1;
        }
        proof {
            let next = bin@.take(i + 8);
            assert(next.take(next.len() - 8) == bin@.take(i as int));
            assert(next.subrange(next.len() - 8, next.len() as int) == bin@.subrange(
                i as int,
                i + 8,
            ));
        }
        push_char(&mut res, a as char);
        i += 8;
    }
    assert(bin@.take(bin@.len() as int) == bin@);
    res
}

/// Value of a bit array of at most 32 entries, least significant bit first.
pub fn u32_from_bytes(vec: &[u8]) -> (bit: u32)
    requires
        vec@.len() <= 32,
    ensures
        bit == u32_of_bits(vec@),
{
    let mut bit: u32 = 0;
    let mut i: usize = 0;
    while i < vec.len()
        invariant
            i <= vec@.len() <= 32,
            bit == u32_of_bits(vec@.take(i as int)),
        decreases vec@.len() - i,
    {
        assert(vec@.take(i + 1).drop_last() == vec@.take(i as int));
        bit = bit | ((vec[i] as u32) << (i as u32));
        i += 1;
    }
    assert(vec@.take(vec@.len() as int) == vec@);
    bit
}

/// Value of a bit array of at most 16 entries, least significant bit first.
pub fn u16_from_bytes(vec: &[u8]) -> (bit: u16)
    requires
        vec@.len() <= 16,
    ensures
        bit == u16_of_bits(vec@),
{
    let mut bit: u16 = 0;
    let mut i: usize = 0;
    while i < vec.len()
        invariant
            i <= vec@.len() <= 16,
            bit == u16_of_bits(vec@.take(i as int)),
        decreases vec@.len() - i,
    {
        assert(vec@.take(i + 1).drop_last() == vec@.take(i as int));
        bit = bit | ((vec[i] as u16) << (i as u16));
        i += 1;
    }
    assert(vec@.take(vec@.len() as int) == vec@);
    bit
}

/// Value of a bit array of at most 8 entries, least significant bit first.
pub fn u8_from_bytes(vec: &[u8]) -> (bit: u8)
    requires
        vec@.len() <= 8,
    ensures
        bit == u8_of_bits(vec@),
{
    let mut bit: u8 = 0;
    let mut i: usize = 0;
    while i < vec.len()
        invariant
            i <= vec@.len() <= 8,
            bit == u8_of_bits(vec@.take(i as int)),
        decreases vec@.len() - i,
    {
        assert(vec@.take(i + 1).drop_last() == vec@.take(i as int));
        bit = bit | (vec[i] << (i as u8));
        i += 1;
    }
    assert(vec@.take(vec@.len() as int) == vec@);
    bit
}

/// The 32 bits of `num`, least significant first.
pub fn u32_to_bytes(num: u32) -> (bytes: [u8; 32])
    ensures
        bytes@ == u32_bits(num),
{
    let mut bytes = [0u8; 32];
    let mut i: usize = 0;
    while i < 32
        invariant
            i <= 32,
            bytes@.len() == 32,
            forall|k: int| 0 <= k < i ==> #[trigger] bytes@[k] == u32_bits(num)[k],
        decreases 32 - i,
    {
        bytes[i] = ((num >> (i as u32)) & 1) as u8;
        i += 1;
    }
    assert(bytes@ =~= u32_bits(num));
    bytes
}

/// The 16 bits of `num`, least significant first.
pub fn u16_to_bytes(num: u16) -> (bytes: [u8; 16])
    ensures
        bytes@ == u16_bits(num),
{
    let mut bytes = [0u8; 16];
    let mut i: usize = 0;
    while i < 16
        invariant
            i <= 16,
            bytes@.len() == 16,
            forall|k: int| 0 <= k < i ==> #[trigger] bytes@[k] == u16_bits(num)[k],
        decreases 16 - i,
    {
        bytes[i] = ((num >> (i as u16)) & 1) as u8;
        i += 1;
    }
    assert(bytes@ =~= u16_bits(num));
    bytes
}

/// The 8 bits of `num`, least significant first.
pub fn u8_to_bytes(num: u8) -> (bytes: [u8; 8])
    ensures
        bytes@ == u8_bits(num),
{
    let mut bytes = [0u8; 8];
    let mut i: usize = 0;
    while i < 8
        invariant
            i <= 8,
            bytes@.len() == 8,
            forall|k: int| 0 <= k < i ==> #[trigger] bytes@[k] == u8_bits(num)[k],
        decreases 8 - i,
    {
        bytes[i] = (num >> (i as u8)) & 1;
        i += 1;
    }
    assert(bytes@ =~= u8_bits(num));
    bytes
}


/// The low `k` bits set (all eight for `k >= 8`).
pub open spec fn low_mask_u8(k: u8) -> u8 {
    if k >= 8 {
        0xffu8
    } else {
        ((1u8 << k) - 1u8) as u8
    }
}

/// The low `k` bits set (all sixteen for `k >= 16`).
pub open spec fn low_mask_u16(k: u16) -> u16 {
    if k >= 16 {
        0xffffu16
    } else {
        ((1u16 << k) - 1u16) as u16
    }
}

/// The low `k` bits set (all thirty-two for `k >= 32`).
pub open spec fn low_mask_u32(k: u32) -> u32 {
    if k >= 32 {
        0xffff_ffffu32
    } else {
        ((1u32 << k) - 1u32) as u32
    }
}

/// The high `k` bits of a byte set (all eight for `k >= 8`).
pub open spec fn high_mask_u8(k: u8) -> u8 {
    if k >= 8 {
        0xffu8
    } else {
        !(0xffu8 >> k)
    }
}

proof fn bv_u8_step(n: u8, k: u8)
    requires
        k < 8,
    ensures
        (n & low_mask_u8(k)) | (((n >> k) & 1u8) << k) == n & low_mask_u8((k + 1) as u8),
{
    assert((n & low_mask_u8(k)) | (((n >> k) & 1u8) << k) == n & low_mask_u8((k + 1) as u8))
        by (bit_vector)
        requires
            k < 8,
    ;
}

proof fn bv_u16_step(n: u16, k: u16)
    requires
        k < 16,
    ensures
        (n & low_mask_u16(k)) | ((((n >> k) & 1u16) as u8 as u16) << k) == n & low_mask_u16(
            (k + 1) as u16,
        ),
{
    assert((n & low_mask_u16(k)) | ((((n >> k) & 1u16) as u8 as u16) << k) == n & low_mask_u16(
        (k + 1) as u16,
    )) by (bit_vector)
        requires
            k < 16,
    ;
}

proof fn bv_u32_step(n: u32, k: u32)
    requires
        k < 32,
    ensures
        (n & low_mask_u32(k)) | ((((n >> k) & 1u32) as u8 as u32) << k) == n & low_mask_u32(
            (k + 1) as u32,
        ),
{
    assert((n & low_mask_u32(k)) | ((((n >> k) & 1u32) as u8 as u32) << k) == n & low_mask_u32(
        (k + 1) as u32,
    )) by (bit_vector)
        requires
            k < 32,
    ;
}

proof fn lemma_u8_prefix(n: u8, k: nat)
    requires
        k <= 8,
    ensures
        u8_of_bits(u8_bits(n).take(k as int)) == n & low_mask_u8(k as u8),
    decreases k,
{
    if k == 0 {
        assert(n & low_mask_u8(0) == 0) by (bit_vector);
    } else {
        let s = u8_bits(n).take(k as int);
        lemma_u8_prefix(n, (k - 1) as nat);
        assert(s.drop_last() == u8_bits(n).take(k - 1));
        bv_u8_step(n, (k - 1) as u8);
    }
}

proof fn lemma_u16_prefix(n: u16, k: nat)
    requires
        k <= 16,
    ensures
        u16_of_bits(u16_bits(n).take(k as int)) == n & low_mask_u16(k as u16),
    decreases k,
{
    if k == 0 {
        assert(n & low_mask_u16(0) == 0) by (bit_vector);
    } else {
        let s = u16_bits(n).take(k as int);
        lemma_u16_prefix(n, (k - 1) as nat);
        assert(s.drop_last() == u16_bits(n).take(k - 1));
        bv_u16_step(n, (k - 1) as u16);
    }
}

proof fn lemma_u32_prefix(n: u32, k: nat)
    requires
        k <= 32,
    ensures
        u32_of_bits(u32_bits(n).take(k as int)) == n & low_mask_u32(k as u32),
    decreases k,
{
    if k == 0 {
        assert(n & low_mask_u32(0) == 0) by (bit_vector);
    } else {
        let s = u32_bits(n).take(k as int);
        lemma_u32_prefix(n, (k - 1) as nat);
        assert(s.drop_last() == u32_bits(n).take(k - 1));
        bv_u32_step(n, (k - 1) as u32);
    }
}

/// Reading back the bit array that `u8_to_bytes` writes gives the number.
pub proof fn lemma_u8_bits_roundtrip(n: u8)
    ensures
        u8_of_bits(u8_bits(n)) == n,
{
    lemma_u8_prefix(n, 8);
    assert(u8_bits(n).take(8) == u8_bits(n));
    assert(n & low_mask_u8(8) == n) by (bit_vector);
}

/// Reading back the bit array that `u16_to_bytes` writes gives the number.
pub proof fn lemma_u16_bits_roundtrip(n: u16)
    ensures
        u16_of_bits(u16_bits(n)) == n,
{
    lemma_u16_prefix(n, 16);
    assert(u16_bits(n).take(16) == u16_bits(n));
    assert(n & low_mask_u16(16) == n) by (bit_vector);
}

/// Reading back the bit array that `u32_to_bytes` writes gives the number.
pub proof fn lemma_u32_bits_roundtrip(n: u32)
    ensures
        u32_of_bits(u32_bits(n)) == n,
{
    lemma_u32_prefix(n, 32);
    assert(u32_bits(n).take(32) == u32_bits(n));
    assert(n & low_mask_u32(32) == n) by (bit_vector);
}

proof fn lemma_msb_prefix(b: u8, k: nat)
    requires
        k <= 8,
    ensures
        msb_byte(byte_bits(b).take(k as int)) == b & high_mask_u8(k as u8),
    decreases k,
{
    if k == 0 {
        assert(b & high_mask_u8(0) == 0) by (bit_vector);
    } else {
        let s = byte_bits(b).take(k as int);
        lemma_msb_prefix(b, (k - 1) as nat);
        assert(s.drop_last() == byte_bits(b).take(k - 1));
        let j = (k - 1) as u8;
        assert((b & high_mask_u8(j)) | (((b >> ((7 - j) as u8)) & 1u8) << ((7 - j) as u8)) == b
            & high_mask_u8((j + 1) as u8)) by (bit_vector)
            requires
                j < 8,
        ;
    }
}

/// Regrouping the eight bits of a byte gives the byte back.
pub proof fn lemma_msb_byte_bits(b: u8)
    ensures
        msb_byte(byte_bits(b)) == b,
{
    lemma_msb_prefix(b, 8);
    assert(byte_bits(b).take(8) == byte_bits(b));
    assert(b & high_mask_u8(8) == b) by (bit_vector);
}

/// Every character contributes eight bits.
pub proof fn lemma_text_bits_len(s: Seq<char>)
    ensures
        text_bits(s).len() == 8 * s.len(),
    decreases s.len(),
{
    if s.len() > 0 {
        lemma_text_bits_len(s.drop_last());
    }
}

/// Every character of a text with code points below 256 survives encoding
/// into bits and decoding back.
pub proof fn lemma_decode_encode(s: Seq<char>)
    requires
        forall|i: int| 0 <= i < s.len() ==> (#[trigger] s[i] as u32) < 256,
    ensures
        bits_text(text_bits(s)) == s,
    decreases s.len(),
{
    lemma_text_bits_len(s);
    if s.len() > 0 {
        let init = s.drop_last();
        let bits = text_bits(s);
        lemma_text_bits_len(init);
        assert forall|i: int| 0 <= i < init.len() implies (#[trigger] init[i] as u32) < 256 by {
            assert(init[i] == s[i]);
        }
        lemma_decode_encode(init);
        assert(bits.take(bits.len() - 8) == text_bits(init));
        assert(bits.subrange(bits.len() - 8, bits.len() as int) == byte_bits(low_byte(s.last())));
        lemma_msb_byte_bits(low_byte(s.last()));
        let v = s.last() as u32;
        assert((v as u8) as u32 == v) by (bit_vector)
            requires
                v < 256,
        ;
        vstd::utf8::char_u32_cast(s.last(), v);
        assert(((low_byte(s.last()) as u32) as char) == s.last());
        assert(bits_text(bits) == init.push(s.last()));
        assert(init.push(s.last()) == s);
    }
}

/// The bit stream of a text holds only the values 0 and 1.
pub proof fn lemma_text_bits_are_bits(s: Seq<char>)
    ensures
        all_bits(text_bits(s)),
    decreases s.len(),
{
    if s.len() > 0 {
        lemma_text_bits_are_bits(s.drop_last());
        let b = low_byte(s.last());
        assert forall|j: int| 0 <= j < 8 implies #[trigger] byte_bits(b)[j] <= 1 by {
            let v = b >> ((7 - j) as u8);
            assert(v & 1u8 <= 1) by (bit_vector);
        }
        let t = text_bits(s);
        let a = text_bits(s.drop_last());
        assert forall|i: int| 0 <= i < t.len() implies #[trigger] t[i] <= 1 by {
            if i < a.len() {
                assert(t[i] == a[i]);
            } else {
                assert(t[i] == byte_bits(b)[i - a.len()]);
            }
        }
    }
}

proof fn lemma_u8_of_bits_prefix(s: Seq<u8>, k: nat)
    requires
        all_bits(s),
        k <= s.len() <= 8,
    ensures
        u8_of_bits(s.take(k as int)) <= low_mask_u8(k as u8),
        forall|i: int|
            0 <= i < k ==> (#[trigger] ((u8_of_bits(s.take(k as int)) >> (i as u8)) & 1u8)) == s[i] as u8,
    decreases k,
{
    if k == 0 {
        assert(s.take(0) =~= Seq::<u8>::empty());
    } else {
        lemma_u8_of_bits_prefix(s, (k - 1) as nat);
        let t = s.take(k as int);
        assert(t.drop_last() =~= s.take(k - 1));
        let x = u8_of_bits(s.take(k - 1));
        let b = s[k - 1] as u8;
        let j = (k - 1) as u8;
        assert(s[k - 1] <= 1);
        assert(u8_of_bits(t) == x | (b << j));
        assert((x | (b << j)) <= low_mask_u8((j + 1) as u8)) by (bit_vector)
            requires
                j < 8,
                b <= 1,
                x <= low_mask_u8(j),
        ;
        assert forall|i: int| 0 <= i < k implies (#[trigger] ((u8_of_bits(t) >> (i as u8)) & 1u8))
            == s[i] as u8 by {
            let ii = i as u8;
            assert(((x | (b << j)) >> ii) & 1u8 == (if ii == j {
                b
            } else {
                (x >> ii) & 1u8
            })) by (bit_vector)
                requires
                    j < 8,
                    ii <= j,
                    b <= 1,
                    x <= low_mask_u8(j),
            ;
        }
    }
}

/// Writing out the bits of the number that a bit array of width 8 stands
/// for gives the array back.
pub proof fn lemma_u8_bits_of_bits(s: Seq<u8>)
    requires
        all_bits(s),
        s.len() == 8,
    ensures
        u8_bits(u8_of_bits(s)) == s,
{
    lemma_u8_of_bits_prefix(s, 8);
    assert(s.take(8) =~= s);
    assert forall|i: int| 0 <= i < 8 implies #[trigger] u8_bits(u8_of_bits(s))[i] == s[i] by {
        assert(((u8_of_bits(s.take(8)) >> (i as u8)) & 1u8) == s[i] as u8);
    }
    assert(u8_bits(u8_of_bits(s)) =~= s);
}

proof fn lemma_u16_of_bits_prefix(s: Seq<u8>, k: nat)
    requires
        all_bits(s),
        k <= s.len() <= 16,
    ensures
        u16_of_bits(s.take(k as int)) <= low_mask_u16(k as u16),
        forall|i: int|
            0 <= i < k ==> (#[trigger] ((u16_of_bits(s.take(k as int)) >> (i as u16)) & 1u16)) == s[i] as u16,
    decreases k,
{
    if k == 0 {
        assert(s.take(0) =~= Seq::<u8>::empty());
    } else {
        lemma_u16_of_bits_prefix(s, (k - 1) as nat);
        let t = s.take(k as int);
        assert(t.drop_last() =~= s.take(k - 1));
        let x = u16_of_bits(s.take(k - 1));
        let b = s[k - 1] as u16;
        let j = (k - 1) as u16;
        assert(s[k - 1] <= 1);
        assert(u16_of_bits(t) == x | (b << j));
        assert((x | (b << j)) <= low_mask_u16((j + 1) as u16)) by (bit_vector)
            requires
                j < 16,
                b <= 1,
                x <= low_mask_u16(j),
        ;
        assert forall|i: int| 0 <= i < k implies (#[trigger] ((u16_of_bits(t) >> (i as u16)) & 1u16))
            == s[i] as u16 by {
            let ii = i as u16;
            assert(((x | (b << j)) >> ii) & 1u16 == (if ii == j {
                b
            } else {
                (x >> ii) & 1u16
            })) by (bit_vector)
                requires
                    j < 16,
                    ii <= j,
                    b <= 1,
                    x <= low_mask_u16(j),
            ;
        }
    }
}

/// Writing out the bits of the number that a bit array of width 16 stands
/// for gives the array back.
pub proof fn lemma_u16_bits_of_bits(s: Seq<u8>)
    requires
        all_bits(s),
        s.len() == 16,
    ensures
        u16_bits(u16_of_bits(s)) == s,
{
    lemma_u16_of_bits_prefix(s, 16);
    assert(s.take(16) =~= s);
    assert forall|i: int| 0 <= i < 16 implies #[trigger] u16_bits(u16_of_bits(s))[i] == s[i] by {
        assert(((u16_of_bits(s.take(16)) >> (i as u16)) & 1u16) == s[i] as u16);
    }
    assert(u16_bits(u16_of_bits(s)) =~= s);
}

proof fn lemma_u32_of_bits_prefix(s: Seq<u8>, k: nat)
    requires
        all_bits(s),
        k <= s.len() <= 32,
    ensures
        u32_of_bits(s.take(k as int)) <= low_mask_u32(k as u32),
        forall|i: int|
            0 <= i < k ==> (#[trigger] ((u32_of_bits(s.take(k as int)) >> (i as u32)) & 1u32)) == s[i] as u32,
    decreases k,
{
    if k == 0 {
        assert(s.take(0) =~= Seq::<u8>::empty());
    } else {
        lemma_u32_of_bits_prefix(s, (k - 1) as nat);
        let t = s.take(k as int);
        assert(t.drop_last() =~= s.take(k - 1));
        let x = u32_of_bits(s.take(k - 1));
        let b = s[k - 1] as u32;
        let j = (k - 1) as u32;
        assert(s[k - 1] <= 1);
        assert(u32_of_bits(t) == x | (b << j));
        assert((x | (b << j)) <= low_mask_u32((j + 1) as u32)) by (bit_vector)
            requires
                j < 32,
                b <= 1,
                x <= low_mask_u32(j),
        ;
        assert forall|i: int| 0 <= i < k implies (#[trigger] ((u32_of_bits(t) >> (i as u32)) & 1u32))
            == s[i] as u32 by {
            let ii = i as u32;
            assert(((x | (b << j)) >> ii) & 1u32 == (if ii == j {
                b
            } else {
                (x >> ii) & 1u32
            })) by (bit_vector)
                requires
                    j < 32,
                    ii <= j,
                    b <= 1,
                    x <= low_mask_u32(j),
            ;
        }
    }
}

/// Writing out the bits of the number that a bit array of width 32 stands
/// for gives the array back.
pub proof fn lemma_u32_bits_of_bits(s: Seq<u8>)
    requires
        all_bits(s),
        s.len() == 32,
    ensures
        u32_bits(u32_of_bits(s)) == s,
{
    lemma_u32_of_bits_prefix(s, 32);
    assert(s.take(32) =~= s);
    assert forall|i: int| 0 <= i < 32 implies #[trigger] u32_bits(u32_of_bits(s))[i] == s[i] by {
        assert(((u32_of_bits(s.take(32)) >> (i as u32)) & 1u32) == s[i] as u32);
    }
    assert(u32_bits(u32_of_bits(s)) =~= s);
}

} // verus!
