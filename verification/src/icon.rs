//! App icons as PNG data URLs: a minimal PNG encoder (RGBA, stored deflate
//! blocks), its CRC-32 and Adler-32 checksums, base64, the BGRA→RGBA pixel
//! fix-up, and the per-exe cache.

use vstd::prelude::*;

use crate::text::{lowercase_of, opt_view, push_char, str_eq, to_lowercase};

verus! {

// ── CRC-32 (IEEE, reflected, polynomial 0xEDB88320) ─────────────────────────

/// One bit step of the reflected CRC-32 register.
pub open spec fn crc_bit(c: u32) -> u32 {
    if c & 1 != 0 {
        (c >> 1) ^ 0xEDB8_8320u32
    } else {
        c >> 1
    }
}

/// `k` bit steps.
pub open spec fn crc_bits(c: u32, k: nat) -> u32
    decreases k,
{
    if k == 0 {
        c
    } else {
        crc_bit(crc_bits(c, (k - 1) as nat))
    }
}

/// Feed one byte into the register.
pub open spec fn crc_byte(c: u32, b: u8) -> u32 {
    crc_bits(c ^ (b as u32), 8)
}

/// The register after feeding all of `data`, starting from `c`.
pub open spec fn crc_fold(c: u32, data: Seq<u8>) -> u32
    decreases data.len(),
{
    if data.len() == 0 {
        c
    } else {
        crc_byte(crc_fold(c, data.drop_last()), data.last())
    }
}

/// CRC-32 of `data`: all-ones start, final complement.
pub open spec fn spec_crc32(data: Seq<u8>) -> u32 {
    !crc_fold(0xFFFF_FFFFu32, data)
}

/// The four bytes of `x`, least significant first (how a CRC is appended
/// to the data it covers).
pub open spec fn le_bytes(x: u32) -> Seq<u8> {
    seq![x as u8, (x >> 8u32) as u8, (x >> 16u32) as u8, (x >> 24u32) as u8]
}

/// Eight bit steps, written out.
spec fn crc8(c: u32) -> u32 {
    crc_bit(crc_bit(crc_bit(crc_bit(crc_bit(crc_bit(crc_bit(crc_bit(c))))))))
}

proof fn lemma_crc_bits_8(c: u32)
    ensures
        crc_bits(c, 8) == crc8(c),
{
    reveal_with_fuel(crc_bits, 9);
}

proof fn lemma_fold_concat(c: u32, a: Seq<u8>, b: Seq<u8>)
    ensures
        crc_fold(c, a + b) == crc_fold(crc_fold(c, a), b),
    decreases b.len(),
{
    if b.len() == 0 {
        assert(a + b =~= a);
    } else {
        assert((a + b).drop_last() =~= a + b.drop_last());
        assert((a + b).last() == b.last());
        lemma_fold_concat(c, a, b.drop_last());
    }
}

/// Feeding a register the four bytes of its own complement always leaves
/// the same value: the CRC-32 residue.
proof fn lemma_crc_own_complement(r: u32)
    ensures
        crc_fold(r, le_bytes(!r)) == 0xDEBB_20E3u32,
{
    let x = !r;
    let b = le_bytes(x);
    reveal_with_fuel(crc_fold, 5);
    assert(b.drop_last().drop_last().drop_last().drop_last() =~= Seq::<u8>::empty());
    assert(b.drop_last().drop_last().drop_last() =~= seq![b[0]]);
    assert(b.drop_last().drop_last() =~= seq![b[0], b[1]]);
    assert(b.drop_last() =~= seq![b[0], b[1], b[2]]);
    let c1 = crc_byte(r, b[0]);
    let c2 = crc_byte(c1, b[1]);
    let c3 = crc_byte(c2, b[2]);
    let c4 = crc_byte(c3, b[3]);
    assert(crc_fold(r, b) == c4);
    lemma_crc_bits_8(r ^ (b[0] as u32));
    lemma_crc_bits_8(c1 ^ (b[1] as u32));
    lemma_crc_bits_8(c2 ^ (b[2] as u32));
    lemma_crc_bits_8(c3 ^ (b[3] as u32));
    // the register after each byte: eight steps from all ones, plus the
    // bytes of the complement not fed yet
    let y1 = 0x2DFD_1072u32;
    let y2 = 0xBE26_ED00u32;
    let y3 = 0x00BE_26EDu32;
    assert(crc8(0xFFFF_FFFFu32) == 0x2DFD_1072u32) by (bit_vector);
    assert(crc8(0x2DFD_1072u32) == 0xBE26_ED00u32) by (bit_vector);
    assert(crc8(0xBE26_ED00u32) == 0x00BE_26EDu32) by (bit_vector);
    assert(crc8(0x00BE_26EDu32) == 0xDEBB_20E3u32) by (bit_vector);
    assert(crc8(r ^ ((x as u8) as u32)) == crc8(r ^ x) ^ (x >> 8u32)) by (bit_vector);
    assert(r ^ x == 0xFFFF_FFFFu32) by (bit_vector)
        requires
            x == !r,
    ;
    assert(c1 == y1 ^ (x >> 8u32));
    assert(crc8(y1 ^ (x >> 8u32) ^ (((x >> 8u32) as u8) as u32)) == crc8(y1) ^ (x >> 16u32)) by (bit_vector);
    assert(c2 == y2 ^ (x >> 16u32));
    assert(crc8(y2 ^ (x >> 16u32) ^ (((x >> 16u32) as u8) as u32)) == crc8(y2) ^ (x >> 24u32)) by (bit_vector);
    assert(c3 == y3 ^ (x >> 24u32));
    assert(crc8(y3 ^ (x >> 24u32) ^ (((x >> 24u32) as u8) as u32)) == crc8(y3)) by (bit_vector);
    assert(c4 == 0xDEBB_20E3u32);
}

/// The CRC-32 check every PNG and zip reader makes: data followed by its
/// own CRC (least significant byte first) has the CRC 0x2144DF1C, whatever
/// the data. A register that is not complemented at the end, or a wrong
/// polynomial, breaks it.
pub proof fn lemma_crc32_residue(data: Seq<u8>)
    ensures
        spec_crc32(data + le_bytes(spec_crc32(data))) == 0x2144_DF1Cu32,
{
    let r = crc_fold(0xFFFF_FFFFu32, data);
    lemma_fold_concat(0xFFFF_FFFFu32, data, le_bytes(!r));
    lemma_crc_own_complement(r);
    assert(!0xDEBB_20E3u32 == 0x2144_DF1Cu32) by (bit_vector);
}

/// A known CRC-32 value: that of `IEND`, the last chunk of every PNG.
pub proof fn lemma_crc32_iend()
    ensures
        spec_crc32(seq![73u8, 69u8, 78u8, 68u8]) == 0xAE42_6082u32,
{
    let d = seq![73u8, 69u8, 78u8, 68u8];
    reveal_with_fuel(crc_fold, 5);
    assert(d.drop_last().drop_last().drop_last().drop_last() =~= Seq::<u8>::empty());
    assert(d.drop_last().drop_last().drop_last() =~= seq![73u8]);
    assert(d.drop_last().drop_last() =~= seq![73u8, 69u8]);
    assert(d.drop_last() =~= seq![73u8, 69u8, 78u8]);
    let c0 = 0xFFFF_FFFFu32;
    lemma_crc_bits_8(c0 ^ 73u32);
    assert(crc8(0xFFFF_FFFFu32 ^ 73u32) == 0x22FD_E946u32) by (bit_vector);
    lemma_crc_bits_8(0x22FD_E946u32 ^ 69u32);
    assert(crc8(0x22FD_E946u32 ^ 69u32) == 0x992B_AC53u32) by (bit_vector);
    lemma_crc_bits_8(0x992B_AC53u32 ^ 78u32);
    assert(crc8(0x992B_AC53u32 ^ 78u32) == 0x639F_4775u32) by (bit_vector);
    lemma_crc_bits_8(0x639F_4775u32 ^ 68u32);
    assert(crc8(0x639F_4775u32 ^ 68u32) == 0x51BD_9F7Du32) by (bit_vector);
    assert(crc_fold(c0, seq![73u8]) == 0x22FD_E946u32);
    assert(crc_fold(c0, seq![73u8, 69u8]) == 0x992B_AC53u32);
    assert(crc_fold(c0, seq![73u8, 69u8, 78u8]) == 0x639F_4775u32);
    assert(crc_fold(c0, d) == 0x51BD_9F7Du32);
    assert(!0x51BD_9F7Du32 == 0xAE42_6082u32) by (bit_vector);
}

/// CRC-32 as PNG chunks use it.
pub fn crc32(data: &[u8]) -> (r: u32)
    ensures
        r == spec_crc32(data@),
{
    let mut crc: u32 = 0xFFFF_FFFF;
    let mut i: usize = 0;
    while i < data.len()
        invariant
            i <= data@.len(),
            crc == crc_fold(0xFFFF_FFFFu32, data@.take(i as int)),
        decreases data@.len() - i,
    {
        let b = data[i];
        let ghost start = crc ^ (b as u32);
        crc ^= b as u32;
        let mut k: usize = 0;
        while k < 8
            invariant
                k <= 8,
                crc == crc_bits(start, k as nat),
            decreases 8 - k,
        {
            crc = if crc & 1 != 0 {
                (crc >> 1) ^ 0xEDB8_8320
            } else {
                crc >> 1
            };
            k += 1;
        }
        assert(data@.take(i + 1).drop_last() =~= data@.take(i as int));
        i += 1;
    }
    assert(data@.take(i as int) =~= data@);
    !crc
}

// ── Adler-32 ────────────────────────────────────────────────────────────────

/// Adler-32 modulus.
pub const ADLER_MOD: u32 = 65521;

/// The (a, b) sums after feeding all of `data`.
pub open spec fn adler_fold(data: Seq<u8>) -> (u32, u32)
    decreases data.len(),
{
    if data.len() == 0 {
        (1, 0)
    } else {
        let (a, b) = adler_fold(data.drop_last());
        let a2 = ((a + data.last()) % (ADLER_MOD as int)) as u32;
        (a2, ((b + a2) % (ADLER_MOD as int)) as u32)
    }
}

/// Adler-32 of `data`: `b << 16 | a`.
pub open spec fn spec_adler32(data: Seq<u8>) -> u32 {
    let (a, b) = adler_fold(data);
    (b << 16) | a
}

proof fn lemma_adler_bounds(data: Seq<u8>)
    ensures
        adler_fold(data).0 < ADLER_MOD,
        adler_fold(data).1 < ADLER_MOD,
    decreases data.len(),
{
    if data.len() > 0 {
        lemma_adler_bounds(data.drop_last());
    }
}

/// Adler-32 as zlib streams end with it.
pub fn adler32(data: &[u8]) -> (r: u32)
    ensures
        r == spec_adler32(data@),
{
    let mut a: u32 = 1;
    let mut b: u32 = 0;
    let mut i: usize = 0;
    while i < data.len()
        invariant
            i <= data@.len(),
            (a, b) == adler_fold(data@.take(i as int)),
            a < ADLER_MOD,
            b < ADLER_MOD,
        decreases data@.len() - i,
    {
        let byte = data[i];
        assert(data@.take(i + 1).drop_last() =~= data@.take(i as int));
        a = (a + byte as u32) % 65521;
        b = (b + a) % 65521;
        i += 1;
    }
    assert(data@.take(i as int) =~= data@);
    (b << 16) | a
}

// ── Byte helpers ────────────────────────────────────────────────────────────

/// Append every byte of `data` to `out`.
pub fn push_all(out: &mut Vec<u8>, data: &[u8])
    ensures
        final(out)@ == old(out)@ + data@,
{
    let mut i: usize = 0;
    while i < data.len()
        invariant
            i <= data@.len(),
            out@ == old(out)@ + data@.take(i as int),
        decreases data@.len() - i,
    {
        out.push(data[i]);
        assert(data@.take(i + 1) =~= data@.take(i as int).push(data@[i as int]));
        i += 1;
    }
    assert(data@.take(i as int) =~= data@);
}

/// Big-endian bytes of a `u32`.
pub open spec fn be32(v: u32) -> Seq<u8> {
    seq![(v / 0x100_0000) as u8, ((v / 0x1_0000) % 0x100) as u8, ((v / 0x100) % 0x100) as u8, (v % 0x100) as u8]
}

/// Little-endian bytes of a `u16`.
pub open spec fn le16(v: u16) -> Seq<u8> {
    seq![(v % 0x100) as u8, (v / 0x100) as u8]
}

/// Append the big-endian bytes of `v`.
pub fn push_be32(out: &mut Vec<u8>, v: u32)
    ensures
        final(out)@ == old(out)@ + be32(v),
{
    out.push((v / 0x100_0000) as u8);
    out.push(((v / 0x1_0000) % 0x100) as u8);
    out.push(((v / 0x100) % 0x100) as u8);
    out.push((v % 0x100) as u8);
    assert(out@ =~= old(out)@ + be32(v));
}

/// Append the little-endian bytes of `v`.
pub fn push_le16(out: &mut Vec<u8>, v: u16)
    ensures
        final(out)@ == old(out)@ + le16(v),
{
    out.push((v % 0x100) as u8);
    out.push((v / 0x100) as u8);
    assert(out@ =~= old(out)@ + le16(v));
}

// ── Base64 (standard alphabet, padded) ──────────────────────────────────────

/// The base64 digit for a sextet `v` (0..64).
pub open spec fn b64_char(v: int) -> char {
    if v < 26 {
        (65 + v) as char
    } else if v < 52 {
        (97 + v - 26) as char
    } else if v < 62 {
        (48 + v - 52) as char
    } else if v == 62 {
        '+'
    } else {
        '/'
    }
}

/// The 24-bit group of a chunk of one to three bytes, missing bytes as zero.
pub open spec fn b64_group_bits(chunk: Seq<u8>) -> u32 {
    let b0 = chunk[0];
    let b1: u8 = if chunk.len() > 1 { chunk[1] } else { 0 };
    let b2: u8 = if chunk.len() > 2 { chunk[2] } else { 0 };
    ((b0 as u32) << 16) | ((b1 as u32) << 8) | (b2 as u32)
}

/// The four characters a chunk of one to three bytes encodes to.
pub open spec fn b64_group(chunk: Seq<u8>) -> Seq<char> {
    let n = b64_group_bits(chunk);
    seq![
        b64_char(((n >> 18) & 63) as int),
        b64_char(((n >> 12) & 63) as int),
        if chunk.len() > 1 { b64_char(((n >> 6) & 63) as int) } else { '=' },
        if chunk.len() > 2 { b64_char((n & 63) as int) } else { '=' },
    ]
}

/// Base64 of `data`: each 3-byte chunk in turn, the last one padded with `=`.
pub open spec fn spec_base64(data: Seq<u8>) -> Seq<char>
    decreases data.len(),
{
    if data.len() == 0 {
        Seq::empty()
    } else if data.len() <= 3 {
        b64_group(data)
    } else {
        b64_group(data.take(3)) + spec_base64(data.skip(3))
    }
}

fn b64_digit(v: u32) -> (c: char)
    requires
        v < 64,
    ensures
        c == b64_char(v as int),
{
    if v < 26 {
        ((65 + v) as u8) as char
    } else if v < 52 {
        ((97 + v - 26) as u8) as char
    } else if v < 62 {
        ((48 + v - 52) as u8) as char
    } else if v == 62 {
        '+'
    } else {
        '/'
    }
}

/// Standard padded base64, as the `data:` URL needs it.
pub fn base64(data: &[u8]) -> (s: String)
    ensures
        s@ == spec_base64(data@),
{
    let mut s = String::new();
    let len = data.len();
    let mut i: usize = 0;
    assert(data@.skip(0) =~= data@);
    assert(s@ + spec_base64(data@) =~= spec_base64(data@));
    while i < len
        invariant
            len == data@.len(),
            i <= len,
            s@ + spec_base64(data@.skip(i as int)) == spec_base64(data@),
        decreases len - i,
    {
        let rest = len - i;
        let n_chunk: usize = if rest < 3 { rest } else { 3 };
        let ghost tail = data@.skip(i as int);
        let ghost chunk = tail.take(n_chunk as int);
        let b0 = data[i];
        let b1: u8 = if n_chunk > 1 { data[i + 1] } else { 0 };
        let b2: u8 = if n_chunk > 2 { data[i + 2] } else { 0 };
        let n: u32 = ((b0 as u32) << 16) | ((b1 as u32) << 8) | (b2 as u32);
        assert(chunk[0] == b0 && (chunk.len() > 1 ==> chunk[1] == b1) && (chunk.len() > 2 ==> chunk[2] == b2));
        assert(n == b64_group_bits(chunk));
        assert((n >> 18) & 63 < 64 && (n >> 12) & 63 < 64 && (n >> 6) & 63 < 64 && n & 63 < 64) by (bit_vector);
        let ghost before = s@;
        push_char(&mut s, b64_digit((n >> 18) & 63));
        push_char(&mut s, b64_digit((n >> 12) & 63));
        push_char(&mut s, if n_chunk > 1 { b64_digit((n >> 6) & 63) } else { '=' });
        push_char(&mut s, if n_chunk > 2 { b64_digit(n & 63) } else { '=' });
        assert(s@ =~= before + b64_group(chunk));
        if rest <= 3 {
            assert(chunk =~= tail);
            assert(data@.skip((i + n_chunk) as int) =~= Seq::<u8>::empty());
        } else {
            assert(tail.skip(3) =~= data@.skip(i + 3));
        }
        i += n_chunk;
    }
    assert(data@.skip(len as int) =~= Seq::<u8>::empty());
    s
}

// ── zlib with stored (uncompressed) deflate blocks ──────────────────────────

/// Largest payload of one stored deflate block.
pub const STORED_BLOCK_MAX: usize = 0xFFFF;

/// One stored block: BFINAL flag, LEN, NLEN (its complement), then the bytes.
pub open spec fn stored_block(d: Seq<u8>, last: bool) -> Seq<u8> {
    seq![if last { 1u8 } else { 0u8 }] + le16(d.len() as u16) + le16(!(d.len() as u16)) + d
}

/// `d` cut into stored blocks of at most `STORED_BLOCK_MAX` bytes, the last one final.
pub open spec fn stored_blocks(d: Seq<u8>) -> Seq<u8>
    decreases d.len(),
{
    if d.len() <= STORED_BLOCK_MAX {
        stored_block(d, true)
    } else {
        stored_block(d.take(STORED_BLOCK_MAX as int), false) + stored_blocks(
            d.skip(STORED_BLOCK_MAX as int),
        )
    }
}

/// A zlib stream holding `d` uncompressed: header, blocks (one empty final
/// block for empty input), Adler-32 trailer.
pub open spec fn spec_zlib_stored(d: Seq<u8>) -> Seq<u8> {
    seq![0x78u8, 0x01u8] + (if d.len() == 0 {
        seq![1u8, 0u8, 0u8, 0xFFu8, 0xFFu8]
    } else {
        stored_blocks(d)
    }) + be32(spec_adler32(d))
}

/// Append one stored block holding `data[i..i + chunk]`.
fn push_stored_block(out: &mut Vec<u8>, data: &[u8], i: usize, chunk: usize, final_block: bool)
    requires
        i + chunk <= data@.len(),
        chunk <= STORED_BLOCK_MAX,
    ensures
        final(out)@ == old(out)@ + stored_block(data@.skip(i as int).take(chunk as int), final_block),
{
    let ghost before = out@;
    out.push(if final_block { 1 } else { 0 });
    let l = chunk as u16;
    push_le16(out, l);
    push_le16(out, !l);
    let n = data.len();
    assert(i + chunk <= n);
    let piece = vstd::slice::slice_subrange(data, i, i + chunk);
    push_all(out, piece);
    assert(piece@ =~= data@.skip(i as int).take(chunk as int));
    assert(out@ =~= before + stored_block(data@.skip(i as int).take(chunk as int), final_block));
}

/// zlib stream wrapping `data` in stored deflate blocks.
#[verifier::rlimit(30)]
pub fn zlib_stored(data: &[u8]) -> (out: Vec<u8>)
    ensures
        out@ == spec_zlib_stored(data@),
{
    let mut out: Vec<u8> = Vec::new();
    out.push(0x78);
    out.push(0x01);
    let len = data.len();
    let mut i: usize = 0;
    while i < len
        invariant
            len == data@.len(),
            i <= len,
            0 < i < len ==> out@ + stored_blocks(data@.skip(i as int)) == seq![0x78u8, 0x01u8]
                + stored_blocks(data@),
            i == 0 ==> out@ == seq![0x78u8, 0x01u8],
            i == len && len > 0 ==> out@ == seq![0x78u8, 0x01u8] + stored_blocks(data@),
        decreases len - i,
    {
        let rest = len - i;
        let chunk: usize = if rest < STORED_BLOCK_MAX { rest } else { STORED_BLOCK_MAX };
        let final_block = i + chunk >= len;
        let ghost tail = data@.skip(i as int);
        let ghost before = out@;
        push_stored_block(&mut out, data, i, chunk, final_block);
        if final_block {
            assert(tail.take(chunk as int) =~= tail);
        } else {
            assert(tail.skip(STORED_BLOCK_MAX as int) =~= data@.skip(i + chunk));
        }
        if i == 0 {
            assert(tail =~= data@);
        }
        i += chunk;
    }
    if len == 0 {
        out.push(1);
        out.push(0);
        out.push(0);
        out.push(0xFF);
        out.push(0xFF);
    }
    push_be32(&mut out, adler32(data));
    assert(out@ =~= spec_zlib_stored(data@));
    out
}

// ── PNG (RGBA, 8-bit, no filtering) ─────────────────────────────────────────

/// The eight-byte PNG signature.
pub open spec fn png_signature() -> Seq<u8> {
    seq![0x89u8, 0x50u8, 0x4Eu8, 0x47u8, 0x0Du8, 0x0Au8, 0x1Au8, 0x0Au8]
}

/// Chunk type `IHDR`.
pub open spec fn kind_ihdr() -> Seq<u8> {
    seq![0x49u8, 0x48u8, 0x44u8, 0x52u8]
}

/// Chunk type `IDAT`.
pub open spec fn kind_idat() -> Seq<u8> {
    seq![0x49u8, 0x44u8, 0x41u8, 0x54u8]
}

/// Chunk type `IEND`.
pub open spec fn kind_iend() -> Seq<u8> {
    seq![0x49u8, 0x45u8, 0x4Eu8, 0x44u8]
}

/// A PNG chunk: length (big-endian, of the data), type, data, CRC-32 over
/// type and data.
pub open spec fn spec_png_chunk(kind: Seq<u8>, data: Seq<u8>) -> Seq<u8> {
    be32(data.len() as u32) + kind + data + be32(spec_crc32(kind + data))
}

/// Append one chunk of type `kind` holding `data` to `out`.
pub fn png_chunk(out: &mut Vec<u8>, kind: &[u8; 4], data: &[u8])
    ensures
        final(out)@ == old(out)@ + spec_png_chunk(kind@, data@),
{
    push_be32(out, data.len() as u32);
    push_all(out, kind);
    push_all(out, data);
    let mut crc_input: Vec<u8> = Vec::new();
    push_all(&mut crc_input, kind);
    push_all(&mut crc_input, data);
    push_be32(out, crc32(crc_input.as_slice()));
    assert(out@ =~= old(out)@ + spec_png_chunk(kind@, data@));
}

/// The image rows, each prefixed with filter type 0, for the first `k` rows.
pub open spec fn raw_rows(rgba: Seq<u8>, row: int, k: int) -> Seq<u8>
    decreases k,
{
    if k <= 0 {
        Seq::empty()
    } else {
        raw_rows(rgba, row, k - 1) + seq![0u8] + rgba.subrange((k - 1) * row, k * row)
    }
}

/// The `IHDR` payload: width, height, 8-bit depth, colour type 6 (RGBA),
/// default compression, filter and interlace.
pub open spec fn ihdr_data(w: u32, h: u32) -> Seq<u8> {
    be32(w) + be32(h) + seq![8u8, 6u8, 0u8, 0u8, 0u8]
}

/// The PNG file for a `w`×`h` RGBA image stored row by row in `rgba`.
pub open spec fn spec_encode_png(w: u32, h: u32, rgba: Seq<u8>) -> Seq<u8> {
    png_signature() + spec_png_chunk(kind_ihdr(), ihdr_data(w, h)) + spec_png_chunk(
        kind_idat(),
        spec_zlib_stored(raw_rows(rgba, w * 4, h as int)),
    ) + spec_png_chunk(kind_iend(), Seq::empty())
}

/// Encode an RGBA image (top-down rows, 4 bytes per pixel) as a PNG.
pub fn encode_png(w: u32, h: u32, rgba: &[u8]) -> (png: Vec<u8>)
    requires
        w * 4 + 1 <= usize::MAX,
        (w * 4 + 1) * h <= usize::MAX,
        w * 4 * h <= rgba@.len(),
    ensures
        png@ == spec_encode_png(w, h, rgba@),
{
    let row: usize = w as usize * 4;
    let mut raw: Vec<u8> = Vec::new();
    let mut y: usize = 0;
    while y < h as usize
        invariant
            row == w * 4,
            w * 4 * h <= rgba@.len(),
            (w * 4 + 1) * h <= usize::MAX,
            y <= h,
            raw@ == raw_rows(rgba@, row as int, y as int),
        decreases h - y,
    {
        assert((y + 1) * row <= w * 4 * h && y * row <= (y + 1) * row) by (nonlinear_arith)
            requires
                y < h,
                row == w * 4,
        ;
        assert(w * 4 * h <= (w * 4 + 1) * h) by (nonlinear_arith);
        assert(y * row + row == (y + 1) * row) by (nonlinear_arith);
        raw.push(0);
        let line = vstd::slice::slice_subrange(rgba, y * row, y * row + row);
        push_all(&mut raw, line);
        y += 1;
    }
    let idat = zlib_stored(raw.as_slice());
    let mut out: Vec<u8> = Vec::new();
    out.push(0x89);
    out.push(0x50);
    out.push(0x4E);
    out.push(0x47);
    out.push(0x0D);
    out.push(0x0A);
    out.push(0x1A);
    out.push(0x0A);
    let mut ihdr: Vec<u8> = Vec::new();
    push_be32(&mut ihdr, w);
    push_be32(&mut ihdr, h);
    ihdr.push(8);
    ihdr.push(6);
    ihdr.push(0);
    ihdr.push(0);
    ihdr.push(0);
    let k_ihdr: [u8; 4] = [0x49, 0x48, 0x44, 0x52];
    let k_idat: [u8; 4] = [0x49, 0x44, 0x41, 0x54];
    let k_iend: [u8; 4] = [0x49, 0x45, 0x4E, 0x44];
    assert(k_ihdr@ =~= kind_ihdr());
    assert(k_idat@ =~= kind_idat());
    assert(k_iend@ =~= kind_iend());
    assert(ihdr@ =~= ihdr_data(w, h));
    assert(out@ =~= png_signature());
    png_chunk(&mut out, &k_ihdr, ihdr.as_slice());
    png_chunk(&mut out, &k_idat, idat.as_slice());
    let empty: Vec<u8> = Vec::new();
    png_chunk(&mut out, &k_iend, empty.as_slice());
    assert(empty@ =~= Seq::<u8>::empty());
    out
}

// ── Pixels as GDI hands them over ───────────────────────────────────────────

/// Every pixel's alpha byte is zero (an icon without an alpha channel).
pub open spec fn alpha_all_zero(px: Seq<u8>) -> bool {
    forall|i: int| 0 <= i < px.len() && i % 4 == 3 ==> px[i] == 0
}

/// BGRA pixels turned into RGBA: blue and red swap; when no pixel carries any
/// alpha, every pixel is made opaque so the icon is not invisible.
pub open spec fn spec_bgra_to_rgba(px: Seq<u8>) -> Seq<u8> {
    let opaque = alpha_all_zero(px);
    Seq::new(
        px.len(),
        |i: int|
            if i % 4 == 0 {
                px[i + 2]
            } else if i % 4 == 2 {
                px[i - 2]
            } else if i % 4 == 3 && opaque {
                255u8
            } else {
                px[i]
            },
    )
}

/// Turn GDI's BGRA pixels into RGBA in place.
pub fn bgra_to_rgba(buf: &mut Vec<u8>)
    requires
        old(buf)@.len() % 4 == 0,
    ensures
        final(buf)@ == spec_bgra_to_rgba(old(buf)@),
{
    let n = buf.len();
    let mut opaque = true;
    let mut i: usize = 0;
    while i < n
        invariant
            n == buf@.len(),
            n % 4 == 0,
            i <= n,
            i % 4 == 0,
            opaque == forall|j: int| 0 <= j < i && j % 4 == 3 ==> buf@[j] == 0,
        decreases n - i,
    {
        if buf[i + 3] != 0 {
            opaque = false;
        }
        i += 4;
    }
    let ghost orig = buf@;
    assert(opaque == alpha_all_zero(orig));
    let mut i: usize = 0;
    while i < n
        invariant
            n == buf@.len(),
            n == orig.len(),
            n % 4 == 0,
            i <= n,
            i % 4 == 0,
            opaque == alpha_all_zero(orig),
            forall|j: int| 0 <= j < i ==> buf@[j] == spec_bgra_to_rgba(orig)[j],
            forall|j: int| i <= j < n ==> buf@[j] == orig[j],
        decreases n - i,
    {
        let b = buf[i];
        let r = buf[i + 2];
        buf.set(i, r);
        buf.set(i + 2, b);
        if opaque {
            buf.set(i + 3, 255);
        }
        i += 4;
    }
    assert(buf@ =~= spec_bgra_to_rgba(orig));
}

/// The `data:` URL prefix of an embedded PNG.
pub open spec fn png_url_prefix() -> Seq<char> {
    "data:image/png;base64,"@
}

/// The data URL of a `w`×`h` RGBA icon: `None` for an empty image.
pub open spec fn spec_png_data_url(w: u32, h: u32, rgba: Seq<u8>) -> Option<Seq<char>> {
    if w == 0 || h == 0 {
        None
    } else {
        Some(png_url_prefix() + spec_base64(spec_encode_png(w, h, rgba)))
    }
}

/// Turn extracted icon pixels into a `data:image/png;base64,…` URL the UI can
/// drop into an `<img>`.
pub fn png_data_url(w: u32, h: u32, rgba: &[u8]) -> (r: Option<String>)
    requires
        w * 4 + 1 <= usize::MAX,
        (w * 4 + 1) * h <= usize::MAX,
        w * 4 * h <= rgba@.len(),
    ensures
        opt_view(&r) == spec_png_data_url(w, h, rgba@),
{
    if w == 0 || h == 0 {
        return None;
    }
    let png = encode_png(w, h, rgba);
    let mut url = String::from_str("data:image/png;base64,");
    let b = base64(png.as_slice());
    url.append(b.as_str());
    Some(url)
}

// ── Per-exe cache ───────────────────────────────────────────────────────────

/// What a list of (key, url) entries maps `k` to: the latest entry wins.
pub open spec fn lookup(entries: Seq<(Seq<char>, Option<Seq<char>>)>, k: Seq<char>) -> Option<
    Option<Seq<char>>,
>
    decreases entries.len(),
{
    if entries.len() == 0 {
        None
    } else if entries.last().0 == k {
        Some(entries.last().1)
    } else {
        lookup(entries.drop_last(), k)
    }
}

/// Icons already extracted, by lower-cased exe name — the GDI work happens
/// once per exe, not on every detection poll. A failed extraction (`None`)
/// is remembered too.
pub struct IconCache {
    entries: Vec<(String, Option<String>)>,
}

impl IconCache {
    /// The entries as character sequences, oldest first.
    pub closed spec fn entries_view(&self) -> Seq<(Seq<char>, Option<Seq<char>>)> {
        self.entries@.map_values(|e: (String, Option<String>)| (e.0@, opt_view(&e.1)))
    }

    /// What the cache holds for key `k`.
    pub open spec fn get_spec(&self, k: Seq<char>) -> Option<Option<Seq<char>>> {
        lookup(self.entries_view(), k)
    }

    /// An empty cache.
    pub fn new() -> (c: Self)
        ensures
            forall|k: Seq<char>| c.get_spec(k) is None,
    {
        let c = IconCache { entries: Vec::new() };
        assert(c.entries_view() =~= Seq::<(Seq<char>, Option<Seq<char>>)>::empty());
        c
    }

    /// The cached URL for `key`, if `key` was stored.
    pub fn get(&self, key: &str) -> (r: Option<Option<String>>)
        ensures
            match r {
                Some(u) => self.get_spec(key@) == Some(opt_view(&u)),
                None => self.get_spec(key@) is None,
            },
    {
        let mut i = self.entries.len();
        assert(self.entries_view().take(i as int) =~= self.entries_view());
        while i > 0
            invariant
                i <= self.entries@.len(),
                self.entries_view().len() == self.entries@.len(),
                lookup(self.entries_view(), key@) == lookup(self.entries_view().take(i as int), key@),
            decreases i,
        {
            let ghost pre = self.entries_view().take(i as int);
            assert(pre.drop_last() =~= self.entries_view().take(i - 1));
            assert(pre.last() == (self.entries@[i - 1].0@, opt_view(&self.entries@[i - 1].1)));
            if str_eq(self.entries[i - 1].0.as_str(), key) {
                let v = self.entries[i - 1].1.clone();
                assert(opt_view(&v) == opt_view(&self.entries@[i - 1].1));
                return Some(v);
            }
            i -= 1;
        }
        None
    }

    /// Store `url` under `key`; every other key keeps what it held.
    pub fn insert(&mut self, key: String, url: Option<String>)
        ensures
            final(self).get_spec(key@) == Some(opt_view(&url)),
            forall|k: Seq<char>| k != key@ ==> final(self).get_spec(k) == old(self).get_spec(k),
    {
        let ghost k0 = key@;
        let ghost v0 = opt_view(&url);
        self.entries.push((key, url));
        assert(self.entries_view() =~= old(self).entries_view().push((k0, v0)));
        assert(self.entries_view().drop_last() =~= old(self).entries_view());
    }
}

/// Icon for a process as a PNG data URL, cached by lower-cased `exe_name`:
/// a cached answer is returned as is, otherwise `extract` runs once for `pid`
/// and its answer (a URL or `None`) is remembered.
pub fn icon_data_url<F: Fn(u32) -> Option<String>>(
    cache: &mut IconCache,
    pid: u32,
    exe_name: &str,
    extract: F,
) -> (r: Option<String>)
    requires
        call_requires(extract, (pid,)),
    ensures
        match old(cache).get_spec(lowercase_of(exe_name@)) {
            Some(v) => {
                &&& opt_view(&r) == v
                &&& forall|k: Seq<char>| final(cache).get_spec(k) == old(cache).get_spec(k)
            },
            None => {
                &&& call_ensures(extract, (pid,), r)
                &&& final(cache).get_spec(lowercase_of(exe_name@)) == Some(opt_view(&r))
                &&& forall|k: Seq<char>|
                    k != lowercase_of(exe_name@) ==> final(cache).get_spec(k) == old(cache).get_spec(k)
            },
        },
{
    let key = to_lowercase(exe_name);
    match cache.get(key.as_str()) {
        Some(v) => v,
        None => {
            let url = extract(pid);
            let stored = url.clone();
            cache.insert(key, stored);
            url
        },
    }
}

} // verus!
