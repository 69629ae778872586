//! Little-endian wire bytes: the encodings of `u16`, `u32` and `u64`
//! values that the driver's fixed-layout structures are made of, and the
//! facts that reading an encoding gives the value back.

use vstd::prelude::*;

verus! {

/// Little-endian bytes of a `u32`.
pub open spec fn le32(v: u32) -> Seq<u8> {
    seq![(v % 0x100) as u8, ((v / 0x100) % 0x100) as u8, ((v / 0x1_0000) % 0x100) as u8, (v / 0x100_0000) as u8]
}

/// Little-endian bytes of a `u64`.
pub open spec fn le64(v: u64) -> Seq<u8> {
    le32((v % 0x1_0000_0000) as u32) + le32((v / 0x1_0000_0000) as u32)
}

/// Little-endian bytes of a sequence of `u16`s, two per unit.
pub open spec fn le16s(u: Seq<u16>) -> Seq<u8> {
    Seq::new(2 * u.len(), |i: int| if i % 2 == 0 { (u[i / 2] % 0x100) as u8 } else { (u[i / 2] / 0x100) as u8 })
}

/// The `u32` stored little-endian at `off`.
pub open spec fn le32_at(b: Seq<u8>, off: int) -> u32 {
    (b[off] + b[off + 1] * 0x100 + b[off + 2] * 0x1_0000 + b[off + 3] * 0x100_0000) as u32
}

/// The `u64` stored little-endian at `off`.
pub open spec fn le64_at(b: Seq<u8>, off: int) -> u64 {
    (le32_at(b, off) + le32_at(b, off + 4) * 0x1_0000_0000) as u64
}

/// The `u16` stored little-endian at `off`.
pub open spec fn le16_at(b: Seq<u8>, off: int) -> u16 {
    (b[off] + b[off + 1] * 0x100) as u16
}

pub(crate) proof fn lemma_le32_digits(b0: u8, b1: u8, b2: u8, b3: u8)
    ensures
        ({
            let v = b0 + b1 * 0x100 + b2 * 0x1_0000 + b3 * 0x100_0000;
            &&& 0 <= v <= u32::MAX
            &&& v % 0x100 == b0
            &&& (v / 0x100) % 0x100 == b1
            &&& (v / 0x1_0000) % 0x100 == b2
            &&& v / 0x100_0000 == b3
        }),
{
    assert({
        let v = b0 + b1 * 0x100 + b2 * 0x1_0000 + b3 * 0x100_0000;
        &&& 0 <= v <= u32::MAX
        &&& v % 0x100 == b0
        &&& (v / 0x100) % 0x100 == b1
        &&& (v / 0x1_0000) % 0x100 == b2
        &&& v / 0x100_0000 == b3
    }) by (bit_vector);
}

pub(crate) proof fn lemma_le32_at_bytes(b: Seq<u8>, off: int)
    requires
        0 <= off,
        off + 4 <= b.len(),
    ensures
        le32(le32_at(b, off)) == b.subrange(off, off + 4),
{
    lemma_le32_digits(b[off], b[off + 1], b[off + 2], b[off + 3]);
    assert(le32(le32_at(b, off)) =~= b.subrange(off, off + 4));
}

pub(crate) proof fn lemma_le64_at_bytes(b: Seq<u8>, off: int)
    requires
        0 <= off,
        off + 8 <= b.len(),
    ensures
        le64(le64_at(b, off)) == b.subrange(off, off + 8),
{
    let lo = le32_at(b, off);
    let hi = le32_at(b, off + 4);
    lemma_le32_at_bytes(b, off);
    lemma_le32_at_bytes(b, off + 4);
    lemma_le32_digits(b[off], b[off + 1], b[off + 2], b[off + 3]);
    lemma_le32_digits(b[off + 4], b[off + 5], b[off + 6], b[off + 7]);
    let v = lo + hi * 0x1_0000_0000;
    assert(v % 0x1_0000_0000 == lo && v / 0x1_0000_0000 == hi && v <= u64::MAX) by (nonlinear_arith)
        requires
            v == lo + hi * 0x1_0000_0000,
            0 <= lo <= u32::MAX,
            0 <= hi <= u32::MAX,
    ;
    assert(le64(le64_at(b, off)) =~= b.subrange(off, off + 8));
}

pub(crate) proof fn lemma_le16_digits(b0: u8, b1: u8)
    ensures
        ({
            let v = b0 + b1 * 0x100;
            &&& 0 <= v <= u16::MAX
            &&& v % 0x100 == b0
            &&& v / 0x100 == b1
        }),
{
}

pub(crate) fn push_le32(out: &mut Vec<u8>, v: u32)
    ensures
        final(out)@ == old(out)@ + le32(v),
{
    out.push((v % 0x100) as u8);
    out.push(((v / 0x100) % 0x100) as u8);
    out.push(((v / 0x1_0000) % 0x100) as u8);
    out.push((v / 0x100_0000) as u8);
    assert(out@ =~= old(out)@ + le32(v));
}

pub(crate) fn push_le64(out: &mut Vec<u8>, v: u64)
    ensures
        final(out)@ == old(out)@ + le64(v),
{
    push_le32(out, (v % 0x1_0000_0000) as u32);
    push_le32(out, (v / 0x1_0000_0000) as u32);
    assert(out@ =~= old(out)@ + le64(v));
}

pub(crate) fn push_le16s(out: &mut Vec<u8>, u: &[u16])
    ensures
        final(out)@ == old(out)@ + le16s(u@),
{
    let mut i: usize = 0;
    while i < u.len()
        invariant
            i <= u@.len(),
            out@ == old(out)@ + le16s(u@.take(i as int)),
        decreases u@.len() - i,
    {
        let ghost before = out@;
        out.push((u[i] % 0x100) as u8);
        out.push((u[i] / 0x100) as u8);
        assert(le16s(u@.take(i + 1)) =~= le16s(u@.take(i as int)) + seq![
            (u@[i as int] % 0x100) as u8,
            (u@[i as int] / 0x100) as u8,
        ]);
        i += 1;
    }
    assert(u@.take(i as int) =~= u@);
}

pub(crate) fn read_le32(b: &[u8], off: usize) -> (r: u32)
    requires
        off + 4 <= b.len(),
    ensures
        r == le32_at(b@, off as int),
{
    b[off] as u32 + b[off + 1] as u32 * 0x100 + b[off + 2] as u32 * 0x1_0000 + b[off + 3] as u32
        * 0x100_0000
}

pub(crate) fn read_le64(b: &[u8], off: usize) -> (r: u64)
    requires
        off + 8 <= b.len(),
    ensures
        r == le64_at(b@, off as int),
{
    let lo = read_le32(b, off) as u64;
    let hi = read_le32(b, off + 4) as u64;
    assert(lo + hi * 0x1_0000_0000 <= u64::MAX) by (nonlinear_arith)
        requires
            lo <= u32::MAX,
            hi <= u32::MAX,
    ;
    lo + hi * 0x1_0000_0000
}

/// Little-endian bytes of a `u16`.
pub open spec fn le16(v: u16) -> Seq<u8> {
    seq![(v % 0x100) as u8, (v / 0x100) as u8]
}

pub(crate) proof fn lemma_le16_at_bytes(b: Seq<u8>, off: int)
    requires
        0 <= off,
        off + 2 <= b.len(),
    ensures
        le16(le16_at(b, off)) == b.subrange(off, off + 2),
{
    lemma_le16_digits(b[off], b[off + 1]);
    assert(le16(le16_at(b, off)) =~= b.subrange(off, off + 2));
}

pub(crate) fn push_le16(out: &mut Vec<u8>, v: u16)
    ensures
        final(out)@ == old(out)@ + le16(v),
{
    out.push((v % 0x100) as u8);
    out.push((v / 0x100) as u8);
    assert(out@ =~= old(out)@ + le16(v));
}

pub(crate) fn read_le16(b: &[u8], off: usize) -> (r: u16)
    requires
        off + 2 <= b.len(),
    ensures
        r == le16_at(b@, off as int),
{
    b[off] as u16 + b[off + 1] as u16 * 0x100
}

} // verus!
