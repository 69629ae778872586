use nodus::pcm::{pcm16_samples, samples_to_pcm16, to_stereo};

#[test]
fn mono_duplicates_into_stereo() {
    assert_eq!(to_stereo(&[0.1f32, -0.2], 1), vec![0.1, 0.1, -0.2, -0.2]);
}

#[test]
fn stereo_passes_through() {
    let f = [0.1f32, 0.2, 0.3, 0.4];
    assert_eq!(to_stereo(&f, 2), f.to_vec());
}

#[test]
fn multichannel_keeps_first_two() {
    let f = [0.1f32, 0.2, 0.8, 0.9, 0.3, 0.4, 0.8, 0.9];
    assert_eq!(to_stereo(&f, 4), vec![0.1, 0.2, 0.3, 0.4]);
}

#[test]
fn pcm16_round_trips() {
    let s = vec![0i16, 1, -1, 32767, -32768, 258];
    let b = samples_to_pcm16(&s);
    assert_eq!(b.len(), 12);
    assert_eq!(&b[..6], &[0, 0, 1, 0, 0xFF, 0xFF]);
    assert_eq!(&b[10..], &[2, 1]);
    assert_eq!(pcm16_samples(&b), s);
}

#[test]
fn pcm16_ignores_a_trailing_odd_byte() {
    assert_eq!(pcm16_samples(&[1, 0, 7]), vec![1]);
}
