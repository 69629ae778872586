//! The shared PCM ring between the driver and the app: its 64-byte header,
//! the header check both sides agree on, the byte ring with its monotonic
//! counters, and the reader's pacing decisions.
//!
//! Both rings (virtual speaker and virtual microphone) share the layout;
//! only the counter roles differ. The producer copies data in first and
//! publishes `write_bytes` after; the ring index of a counter is the counter
//! modulo the ring size.

use vstd::prelude::*;

use crate::text::{dec_digits, hex_digits, push_decimal, push_hex};
use crate::wire::{
    le16, le16_at, le32, le32_at, le64, le64_at, lemma_le16_at_bytes, lemma_le32_at_bytes,
    lemma_le64_at_bytes, push_le16, push_le32, push_le64, read_le16, read_le32, read_le64,
};

verus! {

/// 'NODU'.
pub const RING_MAGIC: u32 = 0x4E4F_4455;

/// Layout version; bumped together with the driver's.
pub const RING_VERSION: u32 = 2;

/// Data bytes: 2 s of 48 kHz stereo 16-bit.
pub const RING_BYTES: usize = 384_000;

/// The ring's fixed sample rate.
pub const RING_SAMPLE_RATE: u32 = 48_000;

/// The ring's fixed channel count.
pub const RING_CHANNELS: u16 = 2;

/// The ring's fixed sample width.
pub const RING_BITS_PER_SAMPLE: u16 = 16;

/// Header bytes; the data starts right after them.
pub const RING_HEADER_BYTES: usize = 64;

/// Bytes of the whole section: header and data.
pub const RING_SECTION_BYTES: usize = RING_HEADER_BYTES + RING_BYTES;

/// Section of the render ring (virtual speaker to app; the driver produces).
pub const RENDER_SECTION_NAME: &'static str = "Global\\NodusRing-0";

/// Section of the mic ring (app to virtual microphone; the app produces).
pub const MIC_SECTION_NAME: &'static str = "Global\\NodusRing-mic-0";

// ── Header ──────────────────────────────────────────────────────────────────

/// The ring header, field by field (64 bytes on the wire).
#[derive(Debug, Clone, Copy, PartialEq, Eq)]
pub struct RingHeader {
    /// offset 0
    pub magic: u32,
    /// offset 4
    pub version: u32,
    /// offset 8
    pub sample_rate: u32,
    /// offset 12
    pub channels: u16,
    /// offset 14
    pub bits_per_sample: u16,
    /// offset 16
    pub ring_bytes: u32,
    /// offset 20
    pub reserved0: u32,
    /// offset 24 — the producer's monotonic byte counter
    pub write_bytes: u64,
    /// offset 32 — the consumer's monotonic byte counter
    pub read_bytes: u64,
    /// offset 40
    pub reserved1: [u64; 3],
}

impl RingHeader {
    /// The header's 64 wire bytes.
    pub open spec fn spec_bytes(&self) -> Seq<u8> {
        le32(self.magic) + le32(self.version) + le32(self.sample_rate) + le16(self.channels)
            + le16(self.bits_per_sample) + le32(self.ring_bytes) + le32(self.reserved0) + le64(
            self.write_bytes,
        ) + le64(self.read_bytes) + le64(self.reserved1[0]) + le64(self.reserved1[1]) + le64(
            self.reserved1[2],
        )
    }

    /// The header's 64 wire bytes.
    pub fn to_bytes(&self) -> (b: Vec<u8>)
        ensures
            b@ == self.spec_bytes(),
            b@.len() == RING_HEADER_BYTES,
    {
        let mut b: Vec<u8> = Vec::new();
        push_le32(&mut b, self.magic);
        push_le32(&mut b, self.version);
        push_le32(&mut b, self.sample_rate);
        push_le16(&mut b, self.channels);
        push_le16(&mut b, self.bits_per_sample);
        push_le32(&mut b, self.ring_bytes);
        push_le32(&mut b, self.reserved0);
        push_le64(&mut b, self.write_bytes);
        push_le64(&mut b, self.read_bytes);
        push_le64(&mut b, self.reserved1[0]);
        push_le64(&mut b, self.reserved1[1]);
        push_le64(&mut b, self.reserved1[2]);
        assert(b@ =~= self.spec_bytes());
        b
    }

    /// Decode the header from the first 64 bytes of a section; encoding
    /// the result gives those bytes back.
    pub fn from_bytes(b: &[u8]) -> (r: Self)
        requires
            b@.len() >= RING_HEADER_BYTES,
        ensures
            r.spec_bytes() == b@.take(RING_HEADER_BYTES as int),
    {
        let r = RingHeader {
            magic: read_le32(b, 0),
            version: read_le32(b, 4),
            sample_rate: read_le32(b, 8),
            channels: read_le16(b, 12),
            bits_per_sample: read_le16(b, 14),
            ring_bytes: read_le32(b, 16),
            reserved0: read_le32(b, 20),
            write_bytes: read_le64(b, 24),
            read_bytes: read_le64(b, 32),
            reserved1: [read_le64(b, 40), read_le64(b, 48), read_le64(b, 56)],
        };
        proof {
            lemma_le32_at_bytes(b@, 0);
            lemma_le32_at_bytes(b@, 4);
            lemma_le32_at_bytes(b@, 8);
            lemma_le16_at_bytes(b@, 12);
            lemma_le16_at_bytes(b@, 14);
            lemma_le32_at_bytes(b@, 16);
            lemma_le32_at_bytes(b@, 20);
            lemma_le64_at_bytes(b@, 24);
            lemma_le64_at_bytes(b@, 32);
            lemma_le64_at_bytes(b@, 40);
            lemma_le64_at_bytes(b@, 48);
            lemma_le64_at_bytes(b@, 56);
        }
        assert(r.spec_bytes() =~= b@.take(RING_HEADER_BYTES as int));
        r
    }
}

/// Reason for a header of another magic or version: the driver and the app
/// disagree on the layout.
pub open spec fn msg_header_mismatch(magic: u32, version: u32) -> Seq<char> {
    "ring header mismatch (magic 0x"@ + hex_digits(magic as nat, 8) + ", version "@ + dec_digits(
        version as nat,
    ) + ") — driver/app version skew"@
}

/// Reason for a header of another format.
pub open spec fn msg_ring_format(rate: u32, channels: u16, bits: u16, bytes: u32) -> Seq<char> {
    "unexpected ring format: "@ + dec_digits(rate as nat) + " Hz, "@ + dec_digits(channels as nat)
        + " ch, "@ + dec_digits(bits as nat) + " bit, "@ + dec_digits(bytes as nat) + " bytes"@
}

/// The header is the one this app speaks: magic and version first, then
/// the fixed 48 kHz stereo 16-bit format and the ring size.
pub open spec fn header_accepted(h: RingHeader) -> bool {
    &&& h.magic == RING_MAGIC
    &&& h.version == RING_VERSION
    &&& h.sample_rate == RING_SAMPLE_RATE
    &&& h.channels == RING_CHANNELS
    &&& h.bits_per_sample == RING_BITS_PER_SAMPLE
    &&& h.ring_bytes == RING_BYTES
}

/// Check a mapped header before touching the data: a foreign or stale
/// section is refused with the reason.
pub fn check_ring_header(h: &RingHeader) -> (r: Result<(), String>)
    ensures
        header_accepted(*h) <==> r is Ok,
        (h.magic != RING_MAGIC || h.version != RING_VERSION) ==> (r matches Err(m) && m@
            == msg_header_mismatch(h.magic, h.version)),
        (h.magic == RING_MAGIC && h.version == RING_VERSION && !header_accepted(*h)) ==> (r matches Err(m)
            && m@ == msg_ring_format(h.sample_rate, h.channels, h.bits_per_sample, h.ring_bytes)),
{
    if h.magic != RING_MAGIC || h.version != RING_VERSION {
        let mut m = String::from_str("ring header mismatch (magic 0x");
        push_hex(&mut m, h.magic as u64, 8);
        m.append(", version ");
        push_decimal(&mut m, h.version as u64);
        m.append(") — driver/app version skew");
        return Err(m);
    }
    if h.sample_rate != RING_SAMPLE_RATE || h.channels != RING_CHANNELS || h.bits_per_sample
        != RING_BITS_PER_SAMPLE || h.ring_bytes as usize != RING_BYTES {
        let mut m = String::from_str("unexpected ring format: ");
        push_decimal(&mut m, h.sample_rate as u64);
        m.append(" Hz, ");
        push_decimal(&mut m, h.channels as u64);
        m.append(" ch, ");
        push_decimal(&mut m, h.bits_per_sample as u64);
        m.append(" bit, ");
        push_decimal(&mut m, h.ring_bytes as u64);
        m.append(" bytes");
        return Err(m);
    }
    Ok(())
}

// ── Data ────────────────────────────────────────────────────────────────────

/// How far ring index `i` lies past index `s`, going round the ring.
pub open spec fn ring_slot(s: int, i: int) -> int {
    if i >= s {
        i - s
    } else {
        i + RING_BYTES - s
    }
}

/// `d` with `b` laid into it from index `s` on, wrapping at the ring's end.
pub open spec fn write_window(d: Seq<u8>, s: int, b: Seq<u8>) -> Seq<u8> {
    Seq::new(
        d.len(),
        |i: int|
            if ring_slot(s, i) < b.len() {
                b[ring_slot(s, i)]
            } else {
                d[i]
            },
    )
}

/// The ring data after `b` is written at monotonic offset `start`. Of a
/// write longer than the ring only its last ring's worth survives, laid
/// where the copy would have left it.
pub open spec fn spec_ring_write(d: Seq<u8>, start: u64, b: Seq<u8>) -> Seq<u8> {
    if b.len() <= RING_BYTES {
        write_window(d, (start as int) % (RING_BYTES as int), b)
    } else {
        let skip = b.len() - RING_BYTES;
        write_window(d, (start + skip) % (RING_BYTES as int), b.skip(skip))
    }
}

/// The `n` bytes read from monotonic offset `start` on.
pub open spec fn spec_ring_read(d: Seq<u8>, start: u64, n: nat) -> Seq<u8> {
    Seq::new(n, |k: int| d[(start + k) % (RING_BYTES as int)])
}

proof fn lemma_mod_step(a: int)
    requires
        a >= 0,
    ensures
        (a + 1) % (RING_BYTES as int) == if a % (RING_BYTES as int) + 1 == RING_BYTES {
            0
        } else {
            a % (RING_BYTES as int) + 1
        },
{
}

proof fn lemma_mod_sum(a: int, b: int)
    requires
        a >= 0,
        b >= 0,
    ensures
        (a + b) % (RING_BYTES as int) == (a % (RING_BYTES as int) + b % (RING_BYTES as int)) % (
        RING_BYTES as int),
{
    vstd::arithmetic::div_mod::lemma_add_mod_noop(a, b, RING_BYTES as int);
}

/// Copy `bytes` into the ring data at monotonic offset `start`, wrapping at
/// the end. The counter is not touched: the producer publishes it after.
pub fn write_pcm(data: &mut Vec<u8>, start: u64, bytes: &[u8])
    requires
        old(data)@.len() == RING_BYTES,
    ensures
        final(data)@ == spec_ring_write(old(data)@, start, bytes@),
{
    let ring = RING_BYTES as u64;
    let from: usize = if bytes.len() <= RING_BYTES {
        0
    } else {
        bytes.len() - RING_BYTES
    };
    let s: usize = if bytes.len() <= RING_BYTES {
        (start % ring) as usize
    } else {
        proof {
            lemma_mod_sum(start as int, from as int);
        }
        (((start % ring) as usize) + from % RING_BYTES) % RING_BYTES
    };
    let ghost src = bytes@.skip(from as int);
    assert(spec_ring_write(old(data)@, start, bytes@) == write_window(old(data)@, s as int, src));
    let mut k: usize = 0;
    let mut pos: usize = s;
    while from + k < bytes.len()
        invariant
            s < RING_BYTES,
            from <= bytes@.len(),
            bytes@.len() - from <= RING_BYTES,
            src == bytes@.skip(from as int),
            from + k <= bytes@.len(),
            bytes@.len() <= usize::MAX,
            pos == if s + k < RING_BYTES {
                s + k
            } else {
                s + k - RING_BYTES
            },
            data@.len() == RING_BYTES,
            data@ == write_window(old(data)@, s as int, src.take(k as int)),
        decreases bytes@.len() - from - k,
    {
        data.set(pos, bytes[from + k]);
        assert(data@ =~= write_window(old(data)@, s as int, src.take(k + 1)));
        k += 1;
        pos = if pos + 1 == RING_BYTES {
            0
        } else {
            pos + 1
        };
    }
    assert(src.take(k as int) =~= src);
}

/// Read `n` bytes from the ring data at monotonic offset `start`, wrapping
/// at the end.
pub fn read_pcm(data: &[u8], start: u64, n: usize) -> (out: Vec<u8>)
    requires
        data@.len() == RING_BYTES,
    ensures
        out@ == spec_ring_read(data@, start, n as nat),
{
    let mut out: Vec<u8> = Vec::new();
    let mut pos: usize = (start % (RING_BYTES as u64)) as usize;
    let mut k: usize = 0;
    while k < n
        invariant
            data@.len() == RING_BYTES,
            k <= n,
            pos == (start + k) % (RING_BYTES as int),
            out@ == spec_ring_read(data@, start, k as nat),
        decreases n - k,
    {
        out.push(data[pos]);
        assert(out@ =~= spec_ring_read(data@, start, (k + 1) as nat));
        proof {
            lemma_mod_step(start + k);
        }
        k += 1;
        pos = if pos + 1 == RING_BYTES {
            0
        } else {
            pos + 1
        };
    }
    out
}

/// What a consumer reads back from where a producer wrote is what was
/// written, as long as the write fits in the ring.
pub proof fn lemma_ring_read_after_write(d: Seq<u8>, start: u64, b: Seq<u8>)
    requires
        d.len() == RING_BYTES,
        b.len() <= RING_BYTES,
    ensures
        spec_ring_read(spec_ring_write(d, start, b), start, b.len()) == b,
{
    let s = (start as int) % (RING_BYTES as int);
    let w = spec_ring_write(d, start, b);
    assert forall|k: int| 0 <= k < b.len() implies #[trigger] spec_ring_read(w, start, b.len())[k]
        == b[k] by {
        lemma_mod_sum(start as int, k);
        let idx = (start + k) % (RING_BYTES as int);
        assert(idx == if s + k < RING_BYTES {
            s + k
        } else {
            s + k - RING_BYTES
        });
        assert(ring_slot(s, idx) == k);
    }
    assert(spec_ring_read(w, start, b.len()) =~= b);
}

/// A write leaves every byte outside its window as it was.
pub proof fn lemma_ring_write_keeps_rest(d: Seq<u8>, start: u64, b: Seq<u8>, i: int)
    requires
        d.len() == RING_BYTES,
        b.len() <= RING_BYTES,
        0 <= i < RING_BYTES,
        ring_slot((start as int) % (RING_BYTES as int), i) >= b.len(),
    ensures
        spec_ring_write(d, start, b)[i] == d[i],
{
}

// ── Reader pacing ───────────────────────────────────────────────────────────

/// Frames per chunk the reader forwards: 10 ms at 48 kHz.
pub const FRAMES_PER_CHUNK: usize = 480;

/// Samples per chunk (stereo).
pub const SAMPLES_PER_CHUNK: usize = 960;

/// Bytes per chunk (16-bit samples).
pub const BYTES_PER_CHUNK: u64 = 1920;

/// Unread bytes between a cursor and a producer's counter (none when the
/// cursor is ahead).
pub open spec fn spec_available(write_counter: u64, read: u64) -> u64 {
    if write_counter >= read {
        (write_counter - read) as u64
    } else {
        0
    }
}

/// Unread bytes between `read` and the producer's `write_counter`.
pub fn available(write_counter: u64, read: u64) -> (r: u64)
    ensures
        r == spec_available(write_counter, read),
{
    if write_counter >= read {
        write_counter - read
    } else {
        0
    }
}

/// What the ring reader does next.
#[derive(Debug, Clone, Copy, PartialEq, Eq, Structural)]
pub enum CaptureStep {
    /// Fallen behind by most of the ring: the oldest bytes are being
    /// overwritten, jump close to the live edge.
    Resync,
    /// A whole chunk is there: read it and advance by one chunk.
    Read,
    /// Less than a chunk: wait a moment.
    Wait,
}

/// Unread bytes past which the reader resyncs: three quarters of the ring.
pub open spec fn lag_limit() -> u64 {
    (RING_BYTES * 3 / 4) as u64
}

/// The reader's decision from the producer's counter and its own cursor.
pub fn capture_step(write_counter: u64, local_read: u64) -> (step: CaptureStep)
    ensures
        spec_available(write_counter, local_read) > lag_limit() ==> step == CaptureStep::Resync,
        spec_available(write_counter, local_read) <= lag_limit() && spec_available(
            write_counter,
            local_read,
        ) >= BYTES_PER_CHUNK ==> step == CaptureStep::Read,
        spec_available(write_counter, local_read) < BYTES_PER_CHUNK ==> step == CaptureStep::Wait,
{
    let avail = available(write_counter, local_read);
    if avail > (RING_BYTES as u64) * 3 / 4 {
        CaptureStep::Resync
    } else if avail >= BYTES_PER_CHUNK {
        CaptureStep::Read
    } else {
        CaptureStep::Wait
    }
}

/// Where a resyncing reader restarts: one chunk behind the live edge (or at
/// zero).
pub fn resync_point(write_counter: u64) -> (r: u64)
    ensures
        r == spec_available(write_counter, BYTES_PER_CHUNK),
{
    available(write_counter, BYTES_PER_CHUNK)
}

/// The producer is more than a whole ring ahead of the consumer (nobody is
/// recording from the mic); expected, noted once, not an error.
pub fn writer_lapped(written: u64, read_counter: u64) -> (b: bool)
    ensures
        b == (spec_available(written, read_counter) > RING_BYTES),
{
    available(written, read_counter) > RING_BYTES as u64
}

} // verus!
