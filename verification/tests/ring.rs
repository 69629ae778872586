use nodus::ring::{
    available, capture_step, check_ring_header, read_pcm, resync_point, write_pcm, writer_lapped,
    CaptureStep, RingHeader, BYTES_PER_CHUNK, MIC_SECTION_NAME, RENDER_SECTION_NAME, RING_BITS_PER_SAMPLE,
    RING_BYTES, RING_CHANNELS, RING_HEADER_BYTES, RING_MAGIC, RING_SAMPLE_RATE, RING_SECTION_BYTES,
    RING_VERSION,
};

fn le32_at(b: &[u8], off: usize) -> u32 {
    u32::from_le_bytes([b[off], b[off + 1], b[off + 2], b[off + 3]])
}

fn le16_at(b: &[u8], off: usize) -> u16 {
    u16::from_le_bytes([b[off], b[off + 1]])
}

fn le64_at(b: &[u8], off: usize) -> u64 {
    let mut a = [0u8; 8];
    a.copy_from_slice(&b[off..off + 8]);
    u64::from_le_bytes(a)
}

fn good_header() -> RingHeader {
    RingHeader {
        magic: RING_MAGIC,
        version: RING_VERSION,
        sample_rate: RING_SAMPLE_RATE,
        channels: RING_CHANNELS,
        bits_per_sample: RING_BITS_PER_SAMPLE,
        ring_bytes: RING_BYTES as u32,
        reserved0: 0,
        write_bytes: 0x1122_3344_5566_7788,
        read_bytes: 0x0102_0304_0506_0708,
        reserved1: [0; 3],
    }
}

fn check_layout() {
    let h = good_header();
    let b = h.to_bytes();
    assert_eq!(le32_at(&b, 0), RING_MAGIC);
    assert_eq!(le32_at(&b, 4), RING_VERSION);
    assert_eq!(le32_at(&b, 8), RING_SAMPLE_RATE);
    assert_eq!(le16_at(&b, 12), RING_CHANNELS);
    assert_eq!(le16_at(&b, 14), RING_BITS_PER_SAMPLE);
    assert_eq!(le32_at(&b, 16), RING_BYTES as u32);
    assert_eq!(le64_at(&b, 24), 0x1122_3344_5566_7788);
    assert_eq!(le64_at(&b, 32), 0x0102_0304_0506_0708);
    assert_eq!(b.len(), 64);
    assert_eq!(RING_HEADER_BYTES, 64);
    assert_eq!(RING_SECTION_BYTES, 64 + RING_BYTES);
    assert_eq!(RingHeader::from_bytes(&b), h);
}

fn check_constants() {
    assert_eq!(RING_MAGIC, 0x4E4F_4455);
    assert_eq!(RING_VERSION, 2);
    assert_eq!(RING_BYTES, 2 * 48_000 * 2 * 2);
    assert_eq!(RENDER_SECTION_NAME, "Global\\NodusRing-0");
}

#[test]
fn ring_layout_ring_header_layout_matches_common_h() {
    check_layout();
}

#[test]
fn ring_layout_ring_constants_match_contract() {
    check_constants();
    assert_eq!(MIC_SECTION_NAME, "Global\\NodusRing-mic-0");
}

#[test]
fn virtual_capture_ring_header_layout_matches_common_h() {
    check_layout();
}

#[test]
fn virtual_capture_ring_constants_match_contract() {
    check_constants();
}

#[test]
fn header_check_accepts_only_the_contract() {
    assert!(check_ring_header(&good_header()).is_ok());
    let mut h = good_header();
    h.version = 1;
    let e = check_ring_header(&h).unwrap_err();
    assert_eq!(e, "ring header mismatch (magic 0x4E4F4455, version 1) — driver/app version skew");
    let mut h = good_header();
    h.sample_rate = 44_100;
    let e = check_ring_header(&h).unwrap_err();
    assert_eq!(e, "unexpected ring format: 44100 Hz, 2 ch, 16 bit, 384000 bytes");
}

#[test]
fn ring_read_gives_back_what_was_written_across_the_wrap() {
    let mut data = vec![0u8; RING_BYTES];
    let start = (RING_BYTES as u64) * 3 - 4;
    let bytes: Vec<u8> = (1..=10u8).collect();
    write_pcm(&mut data, start, &bytes);
    assert_eq!(read_pcm(&data, start, 10), bytes);
    assert_eq!(data[RING_BYTES - 4], 1);
    assert_eq!(data[0], 5);
    assert_eq!(data[5], 10);
}

#[test]
fn capture_steps_follow_the_counters() {
    assert_eq!(available(5000, 1000), 4000);
    assert_eq!(available(1000, 5000), 0);
    assert_eq!(capture_step(1000, 1000), CaptureStep::Wait);
    assert_eq!(capture_step(1000 + BYTES_PER_CHUNK, 1000), CaptureStep::Read);
    assert!(matches!(capture_step(RING_BYTES as u64 * 4, 0), CaptureStep::Resync));
    let r = resync_point(RING_BYTES as u64 * 4);
    assert!(r <= RING_BYTES as u64 * 4);
    assert!(writer_lapped(RING_BYTES as u64 + 1, 0));
    assert!(!writer_lapped(RING_BYTES as u64, 0));
}
