use nodus::wasapi::{AudioFormat, ComGuard};

#[test]
fn default_format_frame_size() {
    let fmt = AudioFormat::default();
    assert_eq!(fmt.frame_size_bytes(), 8);
}

#[test]
fn default_format_bytes_per_second() {
    let fmt = AudioFormat::default();
    assert_eq!(fmt.bytes_per_second(), 384_000);
}

#[test]
fn com_guard_init_succeeds() {
    let guard = ComGuard::init();
    assert!(guard.is_ok());
}

#[test]
fn pcm16_stereo_frame_is_four_bytes() {
    let fmt = AudioFormat { sample_rate: 44_100, channels: 2, bits_per_sample: 16 };
    assert_eq!(fmt.frame_size_bytes(), 4);
    assert_eq!(fmt.bytes_per_second(), 176_400);
}
