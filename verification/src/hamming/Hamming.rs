use vstd::prelude::*;

verus! {

/// Generator matrix, 8 rows of 4.
pub const GENERATE_MATRIX: [u8; 32] = [
    1, 1, 0, 1,
    1, 0, 1, 1,
    1, 0, 0, 0,
    0, 1, 1, 1,
    0, 1, 0, 0,
    0, 0, 1, 0,
    0, 0, 0, 1,
    1, 1, 1, 0,
];

/// Parity check matrix, 4 rows of 8.
pub const CHECK_MATRIX: [u8; 32] = [
    1, 0, 1, 0, 1, 0, 1, 0,
    0, 1, 1, 0, 0, 1, 1, 0,
    0, 0, 0, 1, 1, 1, 1, 0,
    1, 1, 1, 1, 1, 1, 1, 1,
];

/// Extraction matrix, 4 rows of 8: picks the data bits of a code word.
pub const EXTRACT_MATRIX: [u8; 32] = [
    0, 0, 1, 0, 0, 0, 0, 0,
    0, 0, 0, 0, 1, 0, 0, 0,
    0, 0, 0, 0, 0, 1, 0, 0,
    0, 0, 0, 0, 0, 0, 1, 0,
];

/// Weight of each syndrome bit in the index of the bit it points at.
pub const SYNDROME_TO_INDEX_MATRIX: [u8; 4] = [1, 2, 4, 0];

/// The product of a matrix entry (0 or 1) with a value.
pub open spec fn selected(m: u8, x: u8) -> int {
    if m == 1 {
        x as int
    } else {
        0
    }
}

/// First `k` terms of the product of generator row `row` with `d`.
pub open spec fn gen_dot(d: Seq<u8>, row: int, k: int) -> int
    decreases k,
{
    if k <= 0 {
        0
    } else {
        gen_dot(d, row, k - 1) + selected(GENERATE_MATRIX@[4 * row + k - 1], d[k - 1])
    }
}

/// First `k` terms of the product of check row `row` with `c`.
pub open spec fn check_dot(c: Seq<u8>, row: int, k: int) -> int
    decreases k,
{
    if k <= 0 {
        0
    } else {
        check_dot(c, row, k - 1) + selected(CHECK_MATRIX@[8 * row + k - 1], c[k - 1])
    }
}

/// First `k` terms of the product of extraction row `row` with `c`.
pub open spec fn extract_dot(c: Seq<u8>, row: int, k: int) -> int
    decreases k,
{
    if k <= 0 {
        0
    } else {
        extract_dot(c, row, k - 1) + selected(EXTRACT_MATRIX@[8 * row + k - 1], c[k - 1])
    }
}

/// The sums that the generator matrix forms from four data values fit in a `u8`.
pub open spec fn block_encodable(d: Seq<u8>) -> bool {
    &&& d.len() == 4
    &&& d[0] + d[1] + d[3] <= 255
    &&& d[0] + d[2] + d[3] <= 255
    &&& d[1] + d[2] + d[3] <= 255
    &&& d[0] + d[1] + d[2] <= 255
}

/// The code word of four data values: each row of the generator matrix
/// applied to them, modulo 2.
pub open spec fn encode_block(d: Seq<u8>) -> Seq<u8> {
    seq![
        ((d[0] + d[1] + d[3]) % 2) as u8,
        ((d[0] + d[2] + d[3]) % 2) as u8,
        (d[0] % 2) as u8,
        ((d[1] + d[2] + d[3]) % 2) as u8,
        (d[1] % 2) as u8,
        (d[2] % 2) as u8,
        (d[3] % 2) as u8,
        ((d[0] + d[1] + d[2]) % 2) as u8,
    ]
}

/// The four syndrome bits of an eight-value block.
pub open spec fn syndrome(c: Seq<u8>) -> Seq<u8> {
    seq![
        ((c[0] + c[2] + c[4] + c[6]) % 2) as u8,
        ((c[1] + c[2] + c[5] + c[6]) % 2) as u8,
        ((c[3] + c[4] + c[5] + c[6]) % 2) as u8,
        ((c[0] + c[1] + c[2] + c[3] + c[4] + c[5] + c[6] + c[7]) % 2) as u8,
    ]
}

/// An eight-value block on which correction neither overflows nor reports a
/// double error (even overall parity with a non-zero partial syndrome).
pub open spec fn block_correctable(c: Seq<u8>) -> bool {
    &&& c.len() == 8
    &&& c[0] + c[1] + c[2] + c[3] + c[4] + c[5] + c[6] + c[7] <= 255
    &&& !(syndrome(c)[3] == 0 && (syndrome(c)[0] == 1 || syndrome(c)[1] == 1 || syndrome(c)[2]
        == 1))
}

/// The position, counted from 1, that the first three syndrome bits point
/// at; 0 where they are all 0.
pub open spec fn error_position(c: Seq<u8>) -> int {
    syndrome(c)[0] + 2 * syndrome(c)[1] + 4 * syndrome(c)[2]
}

/// The block with the bit that its syndrome points at inverted: position
/// `s - 1` for a non-zero partial syndrome `s`, the overall parity bit
/// (position 7) where only the overall parity fails; the block itself where
/// the syndrome is zero.
#[verifier::opaque]
pub open spec fn corrected_block(c: Seq<u8>) -> Seq<u8> {
    let s = error_position(c);
    if s > 0 {
        c.update(s - 1, c[s - 1] ^ 1u8)
    } else if syndrome(c)[3] == 1 {
        c.update(7, c[7] ^ 1u8)
    } else {
        c
    }
}

/// The data values of an eight-value block: positions 2, 4, 5 and 6 of the
/// corrected block.
pub open spec fn decode_block(c: Seq<u8>) -> Seq<u8> {
    let f = corrected_block(c);
    seq![f[2], f[4], f[5], f[6]]
}

/// Every group of four values of `bin` is encodable.
pub open spec fn hamming_encodable(bin: Seq<u8>) -> bool {
    &&& bin.len() % 4 == 0
    &&& forall|k: int|
        0 <= k < bin.len() / 4 ==> #[trigger] block_encodable(bin.subrange(4 * k, 4 * k + 4))
}

/// The concatenated code words of the groups of four values of `bin`.
pub open spec fn hamming_code(bin: Seq<u8>) -> Seq<u8>
    decreases bin.len(),
{
    if bin.len() < 4 {
        Seq::empty()
    } else {
        hamming_code(bin.take(bin.len() - 4)) + encode_block(
            bin.subrange(bin.len() - 4, bin.len() as int),
        )
    }
}

/// Every group of eight values of `bin` is correctable.
pub open spec fn hamming_correctable(bin: Seq<u8>) -> bool {
    &&& bin.len() % 8 == 0
    &&& forall|k: int|
        0 <= k < bin.len() / 8 ==> #[trigger] block_correctable(bin.subrange(8 * k, 8 * k + 8))
}

/// The concatenated data values of the groups of eight values of `bin`.
pub open spec fn hamming_decode(bin: Seq<u8>) -> Seq<u8>
    decreases bin.len(),
{
    if bin.len() < 8 {
        Seq::empty()
    } else {
        hamming_decode(bin.take(bin.len() - 8)) + decode_block(
            bin.subrange(bin.len() - 8, bin.len() as int),
        )
    }
}

proof fn lemma_gen_dot(d: Seq<u8>)
    requires
        d.len() == 4,
    ensures
        gen_dot(d, 0, 4) == d[0] + d[1] + d[3],
        gen_dot(d, 1, 4) == d[0] + d[2] + d[3],
        gen_dot(d, 2, 4) == d[0] as int,
        gen_dot(d, 3, 4) == d[1] + d[2] + d[3],
        gen_dot(d, 4, 4) == d[1] as int,
        gen_dot(d, 5, 4) == d[2] as int,
        gen_dot(d, 6, 4) == d[3] as int,
        gen_dot(d, 7, 4) == d[0] + d[1] + d[2],
{
    reveal_with_fuel(gen_dot, 5);
}

proof fn lemma_check_dot(c: Seq<u8>)
    requires
        c.len() == 8,
    ensures
        check_dot(c, 0, 8) == c[0] + c[2] + c[4] + c[6],
        check_dot(c, 1, 8) == c[1] + c[2] + c[5] + c[6],
        check_dot(c, 2, 8) == c[3] + c[4] + c[5] + c[6],
        check_dot(c, 3, 8) == c[0] + c[1] + c[2] + c[3] + c[4] + c[5] + c[6] + c[7],
{
    reveal_with_fuel(check_dot, 9);
}

proof fn lemma_extract_dot(c: Seq<u8>)
    requires
        c.len() == 8,
    ensures
        extract_dot(c, 0, 8) == c[2] as int,
        extract_dot(c, 1, 8) == c[4] as int,
        extract_dot(c, 2, 8) == c[5] as int,
        extract_dot(c, 3, 8) == c[6] as int,
{
    reveal_with_fuel(extract_dot, 9);
}

/// Code word of four data values.
fn calc_parity(data: &[u8]) -> (p: Vec<u8>)
    requires
        block_encodable(data@),
    ensures
        p@ == encode_block(data@),
{
    proof {
        lemma_gen_dot(data@);
    }
    let mut p: Vec<u8> = Vec::new();
    let mut i: usize = 0;
    while i < 8
        invariant
            i <= 8,
            data@.len() == 4,
            block_encodable(data@),
            forall|r: int| 0 <= r < 8 ==> gen_dot(data@, r, 4) <= 255,
            p@.len() == i,
            forall|r: int| 0 <= r < i ==> p@[r] == (gen_dot(data@, r, 4) % 2) as u8,
        decreases 8 - i,
    {
        let mut sum: u8 = 0;
        let mut j: usize = 0;
        while j < 4
            invariant
                i < 8,
                j <= 4,
                data@.len() == 4,
                gen_dot(data@, i as int, 4) <= 255,
                sum == gen_dot(data@, i as int, j as int),
            decreases 4 - j,
        {
            proof {
                lemma_gen_dot_mono(data@, i as int, (j + 1) as int, 4);
            }
            let e = GENERATE_MATRIX[4 * i + j];
            let x = data[j];
            assert(e * x == selected(e, x)) by (nonlinear_arith)
                requires
                    e <= 1,
            ;
            sum = sum + e * x;
            j += 1;
        }
        p.push(sum % 2);
        i += 1;
    }
    assert(p@ =~= encode_block(data@));
    p
}

proof fn lemma_gen_dot_mono(d: Seq<u8>, row: int, k: int, n: int)
    requires
        0 <= row < 8,
        0 <= k <= n <= 4,
    ensures
        gen_dot(d, row, k) <= gen_dot(d, row, n),
    decreases n - k,
{
    if k < n {
        lemma_gen_dot_mono(d, row, k + 1, n);
    }
}


/// Code words of `bin`, four values at a time.
pub fn get_hamming_code(bin: Vec<u8>) -> (res: Vec<u8>)
    requires
        bin@.len() > 0,
        hamming_encodable(bin@),
    ensures
        res@ == hamming_code(bin@),
{
    let nblocks = bin.len() / 4;
    let mut res: Vec<u8> = Vec::new();
    let mut k: usize = 0;
    while k < nblocks
        invariant
            nblocks == bin@.len() / 4,
            4 * nblocks == bin.len(),
            bin@.len() % 4 == 0,
            hamming_encodable(bin@),
            k <= nblocks,
            res@ == hamming_code(bin@.take(4 * k)),
        decreases nblocks - k,
    {
        let start = 4 * k;
        let mut block: Vec<u8> = Vec::new();
        let mut j: usize = 0;
        while j < 4
            invariant
                j <= 4,
                start == 4 * k,
                k < nblocks,
                nblocks == bin@.len() / 4,
                block@ == bin@.subrange(start as int, start + j),
            decreases 4 - j,
        {
            block.push(bin[start + j]);
            assert(block@ =~= bin@.subrange(start as int, start + j + 1));
            j += 1;
        }
        assert(block_encodable(bin@.subrange(4 * k, 4 * k + 4)));
        let code = calc_parity(block.as_slice());
        proof {
            let next = bin@.take(4 * k + 4);
            assert(next.take(next.len() - 4) == bin@.take(4 * k));
            assert(next.subrange(next.len() - 4, next.len() as int) == block@);
        }
        let mut m: usize = 0;
        let ghost before = res@;
        while m < 8
            invariant
                m <= 8,
                code@.len() == 8,
                res@ == before + code@.take(m as int),
            decreases 8 - m,
        {
            res.push(code[m]);
            assert(code@.take(m + 1) == code@.take(m as int).push(code@[m as int]));
            m += 1;
        }
        assert(code@.take(8) == code@);
        k += 1;
    }
    assert(bin@.take(4 * nblocks) == bin@);
    res
}

/// Whether some value of `data` is 1.
fn any(data: &[u8]) -> (r: bool)
    ensures
        r == exists|i: int| 0 <= i < data@.len() && data@[i] == 1,
{
    let mut i: usize = 0;
    while i < data.len()
        invariant
            i <= data@.len(),
            forall|j: int| 0 <= j < i ==> data@[j] != 1,
        decreases data@.len() - i,
    {
        if data[i] == 1 {
            return true;
        }
        i += 1;
    }
    false
}

/// The code word position that a syndrome points at.
fn syndrome_to_index(syndrome: &[u8]) -> (idx: usize)
    requires
        syndrome@.len() == 4,
        forall|i: int| 0 <= i < 4 ==> #[trigger] syndrome@[i] <= 1,
    ensures
        idx == syndrome@[0] + 2 * syndrome@[1] + 4 * syndrome@[2],
{
    let mut buf: u8 = 0;
    let mut i: usize = 0;
    while i < 4
        invariant
            i <= 4,
            syndrome@.len() == 4,
            forall|j: int| 0 <= j < 4 ==> #[trigger] syndrome@[j] <= 1,
            buf == (if i > 0 { syndrome@[0] as int } else { 0 }) + (if i > 1 {
                2 * syndrome@[1]
            } else {
                0
            }) + (if i > 2 { 4 * syndrome@[2] } else { 0 }),
        decreases 4 - i,
    {
        let e = syndrome[i];
        let w = SYNDROME_TO_INDEX_MATRIX[i];
        assert(e * w == w * e && e * w <= w) by (nonlinear_arith)
            requires
                e <= 1,
        ;
        buf = buf + e * w;
        i += 1;
    }
    buf as usize
}

/// Data values of one eight-value block.
fn correct(data: &[u8]) -> (result: Vec<u8>)
    requires
        block_correctable(data@),
    ensures
        result@ == decode_block(data@),
{
    proof {
        lemma_check_dot(data@);
        lemma_extract_dot(data@);
    }
    let mut copy: Vec<u8> = Vec::new();
    let mut j: usize = 0;
    while j < 8
        invariant
            j <= 8,
            data@.len() == 8,
            copy@ == data@.take(j as int),
        decreases 8 - j,
    {
        copy.push(data[j]);
        assert(copy@ =~= data@.take(j + 1));
        j += 1;
    }
    let mut syn: Vec<u8> = Vec::new();
    let mut i: usize = 0;
    while i < 4
        invariant
            i <= 4,
            data@.len() == 8,
            forall|r: int| 0 <= r < 4 ==> check_dot(data@, r, 8) <= 255,
            syn@.len() == i,
            forall|r: int| 0 <= r < i ==> #[trigger] syn@[r] == (check_dot(data@, r, 8) % 2) as u8,
        decreases 4 - i,
    {
        let mut sum: u8 = 0;
        let mut j: usize = 0;
        while j < 8
            invariant
                i < 4,
                j <= 8,
                data@.len() == 8,
                check_dot(data@, i as int, 8) <= 255,
                sum == check_dot(data@, i as int, j as int),
            decreases 8 - j,
        {
            proof {
                lemma_check_dot_mono(data@, i as int, (j + 1) as int, 8);
            }
            let e = CHECK_MATRIX[8 * i + j];
            let x = data[j];
            assert(e * x == selected(e, x)) by (nonlinear_arith)
                requires
                    e <= 1,
            ;
            sum = sum + e * x;
            j += 1;
        }
        syn.push(sum % 2);
        i += 1;
    }
    assert(syn@ =~= syndrome(data@));
    assert(copy@ =~= data@);
    if any(syn.as_slice()) {
        let index = syndrome_to_index(syn.as_slice());
        let pos = if index > 0 {
            index - 1
        } else {
            7
        };
        let flipped = copy[pos] ^ 1;
        copy.set(pos, flipped);
    } else {
        assert(syn@[0] != 1 && syn@[1] != 1 && syn@[2] != 1 && syn@[3] != 1);
    }
    assert(copy@ == corrected_block(data@)) by {
        reveal(corrected_block);
    }
    proof {
        lemma_extract_dot(copy@);
    }
    let mut result: Vec<u8> = Vec::new();
    let mut i: usize = 0;
    while i < 4
        invariant
            i <= 4,
            copy@.len() == 8,
            result@.len() == i,
            forall|r: int| 0 <= r < i ==> #[trigger] result@[r] == extract_dot(copy@, r, 8),
        decreases 4 - i,
    {
        let mut sum: u8 = 0;
        let mut j: usize = 0;
        while j < 8
            invariant
                i < 4,
                j <= 8,
                copy@.len() == 8,
                sum == extract_dot(copy@, i as int, j as int),
                extract_dot(copy@, i as int, j as int) <= 1 * 255,
            decreases 8 - j,
        {
            let e = EXTRACT_MATRIX[8 * i + j];
            let x = copy[j];
            assert(e * x == selected(e, x)) by (nonlinear_arith)
                requires
                    e <= 1,
            ;
            proof {
                lemma_extract_dot_bound(copy@, i as int, (j + 1) as int);
            }
            sum = sum + e * x;
            j += 1;
        }
        result.push(sum);
        i += 1;
    }
    assert(result@ =~= decode_block(data@));
    result
}

proof fn lemma_check_dot_mono(c: Seq<u8>, row: int, k: int, n: int)
    requires
        0 <= row < 4,
        0 <= k <= n <= 8,
    ensures
        check_dot(c, row, k) <= check_dot(c, row, n),
    decreases n - k,
{
    if k < n {
        lemma_check_dot_mono(c, row, k + 1, n);
    }
}

proof fn lemma_extract_dot_bound(c: Seq<u8>, row: int, k: int)
    requires
        0 <= row < 4,
        0 <= k <= 8,
        c.len() == 8,
    ensures
        extract_dot(c, row, k) <= 255,
    decreases k,
{
    reveal_with_fuel(extract_dot, 9);
}

/// Whether the eight values of `bin` from `s` on form a correctable block.
fn block_ok(bin: &[u8], s: usize) -> (r: bool)
    requires
        s + 8 <= bin@.len(),
    ensures
        r == block_correctable(bin@.subrange(s as int, s + 8)),
{
    let ghost c = bin@.subrange(s as int, s + 8);
    assert(c[0] == bin@[s as int] && c[1] == bin@[s + 1] && c[2] == bin@[s + 2] && c[3] == bin@[s
        + 3] && c[4] == bin@[s + 4] && c[5] == bin@[s + 5] && c[6] == bin@[s + 6] && c[7] == bin@[s
        + 7]);
    let b0 = bin[s] as u32;
    let b1 = bin[s + 1] as u32;
    let b2 = bin[s + 2] as u32;
    let b3 = bin[s + 3] as u32;
    let b4 = bin[s + 4] as u32;
    let b5 = bin[s + 5] as u32;
    let b6 = bin[s + 6] as u32;
    let b7 = bin[s + 7] as u32;
    let total = b0 + b1 + b2 + b3 + b4 + b5 + b6 + b7;
    let s0 = (b0 + b2 + b4 + b6) % 2;
    let s1 = (b1 + b2 + b5 + b6) % 2;
    let s2 = (b3 + b4 + b5 + b6) % 2;
    let s3 = total % 2;
    !(total > 255 || (s3 == 0 && (s0 == 1 || s1 == 1 || s2 == 1)))
}

/// Whether every group of eight values of `bin` is correctable.
pub fn is_correctable(bin: &[u8]) -> (r: bool)
    ensures
        r == hamming_correctable(bin@),
{
    if bin.len() % 8 != 0 {
        return false;
    }
    let nblocks = bin.len() / 8;
    let mut k: usize = 0;
    while k < nblocks
        invariant
            nblocks == bin@.len() / 8,
            8 * nblocks == bin.len(),
            k <= nblocks,
            forall|q: int| 0 <= q < k ==> #[trigger] block_correctable(bin@.subrange(8 * q, 8 * q + 8)),
        decreases nblocks - k,
    {
        if !block_ok(bin, 8 * k) {
            return false;
        }
        k += 1;
    }
    true
}

/// Data values of `bin`, eight values at a time.
pub fn correct_hamming_code(bin: Vec<u8>) -> (output: Vec<u8>)
    requires
        hamming_correctable(bin@),
    ensures
        output@ == hamming_decode(bin@),
{
    let nblocks = bin.len() / 8;
    let mut output: Vec<u8> = Vec::new();
    let mut k: usize = 0;
    while k < nblocks
        invariant
            nblocks == bin@.len() / 8,
            8 * nblocks == bin.len(),
            hamming_correctable(bin@),
            k <= nblocks,
            output@ == hamming_decode(bin@.take(8 * k)),
        decreases nblocks - k,
    {
        let start = 8 * k;
        let mut block: Vec<u8> = Vec::new();
        let mut j: usize = 0;
        while j < 8
            invariant
                j <= 8,
                start == 8 * k,
                k < nblocks,
                nblocks == bin@.len() / 8,
                block@ == bin@.subrange(start as int, start + j),
            decreases 8 - j,
        {
            block.push(bin[start + j]);
            assert(block@ =~= bin@.subrange(start as int, start + j + 1));
            j += 1;
        }
        assert(block_correctable(bin@.subrange(8 * k, 8 * k + 8)));
        let res = correct(block.as_slice());
        proof {
            let next = bin@.take(8 * k + 8);
            assert(next.take(next.len() - 8) == bin@.take(8 * k));
            assert(next.subrange(next.len() - 8, next.len() as int) == block@);
        }
        let mut m: usize = 0;
        let ghost before = output@;
        while m < 4
            invariant
                m <= 4,
                res@.len() == 4,
                output@ == before + res@.take(m as int),
            decreases 4 - m,
        {
            output.push(res[m]);
            assert(res@.take(m + 1) == res@.take(m as int).push(res@[m as int]));
            m += 1;
        }
        assert(res@.take(4) == res@);
        k += 1;
    }
    assert(bin@.take(8 * nblocks) == bin@);
    output
}


/// The values of `s`, each reduced modulo 2.
pub open spec fn mod2(s: Seq<u8>) -> Seq<u8> {
    Seq::new(s.len(), |i: int| (s[i] % 2) as u8)
}

/// `c` with the bit at position `k` inverted.
pub open spec fn flip_bit(c: Seq<u8>, k: int) -> Seq<u8> {
    c.update(k, (1 - c[k]) as u8)
}

/// A code word passes correction unchanged and gives back its four data
/// values, each reduced modulo 2.
pub proof fn lemma_block_roundtrip(d: Seq<u8>)
    requires
        d.len() == 4,
    ensures
        block_correctable(encode_block(d)),
        syndrome(encode_block(d)) == seq![0u8, 0u8, 0u8, 0u8],
        decode_block(encode_block(d)) == mod2(d),
{
    let c = encode_block(d);
    reveal(corrected_block);
    assert(syndrome(c) =~= seq![0u8, 0u8, 0u8, 0u8]);
    assert(decode_block(c) =~= mod2(d));
}

/// Every code word of a group of four values is a sequence of bits.
proof fn lemma_encode_block_bits(d: Seq<u8>)
    requires
        d.len() == 4,
    ensures
        forall|i: int| 0 <= i < 8 ==> #[trigger] encode_block(d)[i] <= 1,
{
}

proof fn lemma_hamming_code_len(bin: Seq<u8>)
    ensures
        hamming_code(bin).len() == 2 * (bin.len() / 4) * 4,
    decreases bin.len(),
{
    if bin.len() >= 4 {
        lemma_hamming_code_len(bin.take(bin.len() - 4));
    }
}

/// Decoding the Hamming code of `bin` succeeds and gives back every value
/// of `bin` reduced modulo 2; for a sequence of bits, `bin` itself.
pub proof fn lemma_hamming_roundtrip(bin: Seq<u8>)
    requires
        hamming_encodable(bin),
    ensures
        hamming_correctable(hamming_code(bin)),
        hamming_decode(hamming_code(bin)) == mod2(bin),
        crate::bytes::all_bits(bin) ==> hamming_decode(hamming_code(bin)) == bin,
    decreases bin.len(),
{
    lemma_hamming_code_len(bin);
    if bin.len() < 4 {
        assert(bin.len() == 0);
        assert(mod2(bin) =~= Seq::<u8>::empty());
        assert(bin =~= Seq::<u8>::empty());
    } else {
        let init = bin.take(bin.len() - 4);
        let last = bin.subrange(bin.len() - 4, bin.len() as int);
        assert forall|k: int| 0 <= k < init.len() / 4 implies #[trigger] block_encodable(
            init.subrange(4 * k, 4 * k + 4),
        ) by {
            assert(init.subrange(4 * k, 4 * k + 4) == bin.subrange(4 * k, 4 * k + 4));
        }
        let kl = bin.len() / 4 - 1;
        assert(last == bin.subrange(4 * kl, 4 * kl + 4));
        assert(block_encodable(last));
        lemma_hamming_roundtrip(init);
        lemma_hamming_code_len(init);
        lemma_block_roundtrip(last);
        let a = hamming_code(init);
        let e = encode_block(last);
        let code = hamming_code(bin);
        assert(code == a + e);
        assert forall|k: int| 0 <= k < code.len() / 8 implies #[trigger] block_correctable(
            code.subrange(8 * k, 8 * k + 8),
        ) by {
            if k < a.len() / 8 {
                assert(code.subrange(8 * k, 8 * k + 8) == a.subrange(8 * k, 8 * k + 8));
            } else {
                assert(code.subrange(8 * k, 8 * k + 8) == e);
            }
        }
        assert(code.take(code.len() - 8) == a);
        assert(code.subrange(code.len() - 8, code.len() as int) == e);
        assert(hamming_decode(code) == hamming_decode(a) + decode_block(e));
        assert(mod2(bin) =~= mod2(init) + mod2(last));
        if crate::bytes::all_bits(bin) {
            assert(crate::bytes::all_bits(init));
            assert(mod2(bin) =~= bin);
        }
    }
}

/// Inverting a bit: for 0 and 1, `x ^ 1` is `1 - x`.
proof fn lemma_xor_one(x: u8)
    by (bit_vector)
    requires
        x <= 1,
    ensures
        x ^ 1u8 == 1 - x,
{
}

/// A code word with any one bit inverted is corrected: correction reports
/// no double error and gives back the four data values, each reduced
/// modulo 2.
pub proof fn lemma_single_error(d: Seq<u8>, k: int)
    requires
        d.len() == 4,
        0 <= k < 8,
    ensures
        block_correctable(flip_bit(encode_block(d), k)),
        corrected_block(flip_bit(encode_block(d), k)) == encode_block(d),
        decode_block(flip_bit(encode_block(d), k)) == mod2(d),
{
    let c = encode_block(d);
    let f = flip_bit(c, k);
    lemma_block_roundtrip(d);
    lemma_encode_block_bits(d);
    lemma_xor_one(f[k]);
    assert(f.len() == 8);
    assert(f[k] + c[k] == 1);
    assert forall|j: int| 0 <= j < 8 && j != k implies f[j] == c[j] by {}
    let s = syndrome(c);
    assert(s[0] == 0 && s[1] == 0 && s[2] == 0 && s[3] == 0);
    lemma_flip_syndrome(c, f, k);
    reveal(corrected_block);
    assert(corrected_block(f) =~= c);
}

/// The syndrome of a code word with bit `k` inverted points at `k`.
#[verifier::rlimit(30)]
proof fn lemma_flip_syndrome(c: Seq<u8>, f: Seq<u8>, k: int)
    requires
        c.len() == 8,
        f.len() == 8,
        0 <= k < 8,
        forall|j: int| 0 <= j < 8 ==> #[trigger] c[j] <= 1,
        f[k] + c[k] == 1,
        forall|j: int| 0 <= j < 8 && j != k ==> f[j] == c[j],
        syndrome(c) == seq![0u8, 0u8, 0u8, 0u8],
    ensures
        block_correctable(f),
        syndrome(f)[3] == 1,
        error_position(f) == (if k < 7 {
            k + 1
        } else {
            0
        }),
{
    let z = syndrome(c);
    assert(z[0] == 0 && z[1] == 0 && z[2] == 0 && z[3] == 0);
    assert(c[0] <= 1 && c[1] <= 1 && c[2] <= 1 && c[3] <= 1 && c[4] <= 1 && c[5] <= 1 && c[6] <= 1
        && c[7] <= 1);
    if k == 0 {
        assert(f[1] == c[1] && f[2] == c[2] && f[3] == c[3] && f[4] == c[4] && f[5] == c[5] && f[6] == c[6] && f[7] == c[7]);
    } else if k == 1 {
        assert(f[0] == c[0] && f[2] == c[2] && f[3] == c[3] && f[4] == c[4] && f[5] == c[5] && f[6] == c[6] && f[7] == c[7]);
    } else if k == 2 {
        assert(f[0] == c[0] && f[1] == c[1] && f[3] == c[3] && f[4] == c[4] && f[5] == c[5] && f[6] == c[6] && f[7] == c[7]);
    } else if k == 3 {
        assert(f[0] == c[0] && f[1] == c[1] && f[2] == c[2] && f[4] == c[4] && f[5] == c[5] && f[6] == c[6] && f[7] == c[7]);
    } else if k == 4 {
        assert(f[0] == c[0] && f[1] == c[1] && f[2] == c[2] && f[3] == c[3] && f[5] == c[5] && f[6] == c[6] && f[7] == c[7]);
    } else if k == 5 {
        assert(f[0] == c[0] && f[1] == c[1] && f[2] == c[2] && f[3] == c[3] && f[4] == c[4] && f[6] == c[6] && f[7] == c[7]);
    } else if k == 6 {
        assert(f[0] == c[0] && f[1] == c[1] && f[2] == c[2] && f[3] == c[3] && f[4] == c[4] && f[5] == c[5] && f[7] == c[7]);
    } else {
        assert(f[0] == c[0] && f[1] == c[1] && f[2] == c[2] && f[3] == c[3] && f[4] == c[4] && f[5] == c[5] && f[6] == c[6]);
    }
}

/// The Hamming code of bits with any one bit inverted is corrected: decoding
/// succeeds and gives back the bits.
pub proof fn lemma_hamming_single_error(bin: Seq<u8>, k: int)
    requires
        hamming_encodable(bin),
        crate::bytes::all_bits(bin),
        0 <= k < hamming_code(bin).len(),
    ensures
        hamming_correctable(flip_bit(hamming_code(bin), k)),
        hamming_decode(flip_bit(hamming_code(bin), k)) == bin,
    decreases bin.len(),
{
    lemma_hamming_code_len(bin);
    let init = bin.take(bin.len() - 4);
    let last = bin.subrange(bin.len() - 4, bin.len() as int);
    let a = hamming_code(init);
    let e = encode_block(last);
    let code = hamming_code(bin);
    lemma_hamming_code_len(init);
    assert(code == a + e);
    assert forall|q: int| 0 <= q < init.len() / 4 implies #[trigger] block_encodable(
        init.subrange(4 * q, 4 * q + 4),
    ) by {
        assert(init.subrange(4 * q, 4 * q + 4) == bin.subrange(4 * q, 4 * q + 4));
    }
    assert(crate::bytes::all_bits(init)) by {
        assert forall|i: int| 0 <= i < init.len() implies #[trigger] init[i] <= 1 by {
            assert(init[i] == bin[i]);
        }
    }
    assert(mod2(last) =~= last) by {
        assert(last[0] == bin[bin.len() - 4] && last[1] == bin[bin.len() - 3] && last[2] == bin[
            bin.len() - 2] && last[3] == bin[bin.len() - 1]);
    }
    assert(bin =~= init + last);
    if k < a.len() {
        lemma_hamming_single_error(init, k);
        lemma_block_roundtrip(last);
        assert(flip_bit(code, k) =~= flip_bit(a, k) + e);
        lemma_decode_append_block(flip_bit(a, k), e);
    } else {
        lemma_hamming_roundtrip(init);
        lemma_single_error(last, k - a.len());
        assert(flip_bit(code, k) =~= a + flip_bit(e, k - a.len()));
        lemma_decode_append_block(a, flip_bit(e, k - a.len()));
    }
}

/// Two inverted bits in different positions always make correction report a
/// double error.
pub proof fn lemma_double_error(d: Seq<u8>, k1: int, k2: int)
    requires
        d.len() == 4,
        0 <= k1 < 8,
        0 <= k2 < 8,
        k1 != k2,
    ensures
        !block_correctable(flip_bit(flip_bit(encode_block(d), k1), k2)),
{
    let c = encode_block(d);
    let f = flip_bit(flip_bit(c, k1), k2);
    lemma_block_roundtrip(d);
    lemma_encode_block_bits(d);
    assert forall|j: int| 0 <= j < 8 implies ((#[trigger] f[j]) + c[j] + flipped_at(k1, k2, j))
        % 2 == 0 by {
        reveal(flipped_at);
        if j == k1 || j == k2 {
            assert(f[j] == 1 - c[j]);
        } else {
            assert(f[j] == c[j]);
        }
    }
    lemma_double_syndrome(c, f, k1, k2);
}

/// 1 where position `j` is one of the two inverted positions.
#[verifier::opaque]
spec fn flipped_at(k1: int, k2: int, j: int) -> int {
    if j == k1 || j == k2 {
        1
    } else {
        0
    }
}

proof fn lemma_double_syndrome(c: Seq<u8>, f: Seq<u8>, k1: int, k2: int)
    requires
        c.len() == 8,
        f.len() == 8,
        0 <= k1 < 8,
        0 <= k2 < 8,
        k1 != k2,
        syndrome(c) == seq![0u8, 0u8, 0u8, 0u8],
        forall|j: int| 0 <= j < 8 ==> ((#[trigger] f[j]) + c[j] + flipped_at(k1, k2, j)) % 2 == 0,
    ensures
        syndrome(f)[3] == 0,
        syndrome(f)[0] == 1 || syndrome(f)[1] == 1 || syndrome(f)[2] == 1,
{
    let i0 = flipped_at(k1, k2, 0);
    let i1 = flipped_at(k1, k2, 1);
    let i2 = flipped_at(k1, k2, 2);
    let i3 = flipped_at(k1, k2, 3);
    let i4 = flipped_at(k1, k2, 4);
    let i5 = flipped_at(k1, k2, 5);
    let i6 = flipped_at(k1, k2, 6);
    let i7 = flipped_at(k1, k2, 7);
    assert((f[0] + c[0] + i0) % 2 == 0);
    assert((f[1] + c[1] + i1) % 2 == 0);
    assert((f[2] + c[2] + i2) % 2 == 0);
    assert((f[3] + c[3] + i3) % 2 == 0);
    assert((f[4] + c[4] + i4) % 2 == 0);
    assert((f[5] + c[5] + i5) % 2 == 0);
    assert((f[6] + c[6] + i6) % 2 == 0);
    assert((f[7] + c[7] + i7) % 2 == 0);
    assert(syndrome(c)[0] == 0);
    assert(syndrome(c)[1] == 0);
    assert(syndrome(c)[2] == 0);
    assert(syndrome(c)[3] == 0);
    lemma_row_parity(f[0] as int, f[2] as int, f[4] as int, f[6] as int, c[0] as int, c[2] as int,
        c[4] as int, c[6] as int, i0, i2, i4, i6);
    lemma_row_parity(f[1] as int, f[2] as int, f[5] as int, f[6] as int, c[1] as int, c[2] as int,
        c[5] as int, c[6] as int, i1, i2, i5, i6);
    lemma_row_parity(f[3] as int, f[4] as int, f[5] as int, f[6] as int, c[3] as int, c[4] as int,
        c[5] as int, c[6] as int, i3, i4, i5, i6);
    lemma_row_parity(f[0] + f[1], f[2] + f[3], f[4] + f[5], f[6] + f[7], c[0] + c[1], c[2] + c[3],
        c[4] + c[5], c[6] + c[7], i0 + i1, i2 + i3, i4 + i5, i6 + i7);
    lemma_codes_distinct(k1, k2);
}

proof fn lemma_row_parity(
    f0: int,
    f1: int,
    f2: int,
    f3: int,
    c0: int,
    c1: int,
    c2: int,
    c3: int,
    i0: int,
    i1: int,
    i2: int,
    i3: int,
)
    requires
        (f0 + c0 + i0) % 2 == 0,
        (f1 + c1 + i1) % 2 == 0,
        (f2 + c2 + i2) % 2 == 0,
        (f3 + c3 + i3) % 2 == 0,
        (c0 + c1 + c2 + c3) % 2 == 0,
    ensures
        (f0 + f1 + f2 + f3) % 2 == (i0 + i1 + i2 + i3) % 2,
{
}

proof fn lemma_codes_distinct(k1: int, k2: int)
    requires
        0 <= k1 < 8,
        0 <= k2 < 8,
        k1 != k2,
    ensures
        (flipped_at(k1, k2, 0) + flipped_at(k1, k2, 1) + flipped_at(k1, k2, 2) + flipped_at(k1, k2, 3)
            + flipped_at(k1, k2, 4) + flipped_at(k1, k2, 5) + flipped_at(k1, k2, 6) + flipped_at(
            k1,
            k2,
            7,
        )) % 2 == 0,
        (flipped_at(k1, k2, 0) + flipped_at(k1, k2, 2) + flipped_at(k1, k2, 4) + flipped_at(k1, k2, 6))
            % 2 == 1 || (flipped_at(k1, k2, 1) + flipped_at(k1, k2, 2) + flipped_at(k1, k2, 5)
            + flipped_at(k1, k2, 6)) % 2 == 1 || (flipped_at(k1, k2, 3) + flipped_at(k1, k2, 4)
            + flipped_at(k1, k2, 5) + flipped_at(k1, k2, 6)) % 2 == 1,
{
    reveal(flipped_at);
}

/// The code word of the `q`-th group of four values stands at positions
/// `8 * q` to `8 * q + 8` of the Hamming code.
pub proof fn lemma_hamming_code_block(bin: Seq<u8>, q: int)
    requires
        bin.len() % 4 == 0,
        0 <= q < bin.len() / 4,
    ensures
        hamming_code(bin).len() == 2 * bin.len(),
        hamming_code(bin).subrange(8 * q, 8 * q + 8) == encode_block(bin.subrange(4 * q, 4 * q + 4)),
    decreases bin.len(),
{
    lemma_hamming_code_len(bin);
    let init = bin.take(bin.len() - 4);
    lemma_hamming_code_len(init);
    let a = hamming_code(init);
    let code = hamming_code(bin);
    assert(code == a + encode_block(bin.subrange(bin.len() - 4, bin.len() as int)));
    if q < bin.len() / 4 - 1 {
        lemma_hamming_code_block(init, q);
        assert(code.subrange(8 * q, 8 * q + 8) =~= a.subrange(8 * q, 8 * q + 8));
        assert(init.subrange(4 * q, 4 * q + 4) =~= bin.subrange(4 * q, 4 * q + 4));
    } else {
        assert(code.subrange(8 * q, 8 * q + 8) =~= encode_block(
            bin.subrange(bin.len() - 4, bin.len() as int),
        ));
    }
}

/// Appending a correctable block to correctable values keeps them
/// correctable, and decoding reads the block's data values after theirs.
pub proof fn lemma_decode_append_block(a: Seq<u8>, c: Seq<u8>)
    requires
        hamming_correctable(a),
        block_correctable(c),
    ensures
        hamming_correctable(a + c),
        hamming_decode(a + c) == hamming_decode(a) + decode_block(c),
{
    let b = a + c;
    assert forall|k: int| 0 <= k < b.len() / 8 implies #[trigger] block_correctable(
        b.subrange(8 * k, 8 * k + 8),
    ) by {
        if k < a.len() / 8 {
            assert(b.subrange(8 * k, 8 * k + 8) =~= a.subrange(8 * k, 8 * k + 8));
        } else {
            assert(b.subrange(8 * k, 8 * k + 8) =~= c);
        }
    }
    assert(b.take(b.len() - 8) =~= a);
    assert(b.subrange(b.len() - 8, b.len() as int) =~= c);
}

/// The Hamming code holds only the values 0 and 1.
pub proof fn lemma_hamming_code_bits(bin: Seq<u8>)
    ensures
        crate::bytes::all_bits(hamming_code(bin)),
    decreases bin.len(),
{
    if bin.len() >= 4 {
        let init = bin.take(bin.len() - 4);
        lemma_hamming_code_bits(init);
        let a = hamming_code(init);
        let e = encode_block(bin.subrange(bin.len() - 4, bin.len() as int));
        let code = hamming_code(bin);
        assert forall|i: int| 0 <= i < code.len() implies #[trigger] code[i] <= 1 by {
            if i < a.len() {
                assert(code[i] == a[i]);
            } else {
                assert(code[i] == e[i - a.len()]);
            }
        }
    }
}

} // verus!
