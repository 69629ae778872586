//! 16-bit PCM: samples to little-endian ring bytes and back, and the
//! channel map that turns any interleaved frame into stereo.

use vstd::prelude::*;

verus! {

/// Little-endian bytes of 16-bit samples, two per sample.
pub open spec fn pcm16_bytes(s: Seq<i16>) -> Seq<u8> {
    Seq::new(
        2 * s.len(),
        |i: int|
            if i % 2 == 0 {
                ((s[i / 2] as u16) % 256) as u8
            } else {
                ((s[i / 2] as u16) / 256) as u8
            },
    )
}

/// The 16-bit samples that little-endian bytes hold; an odd last byte is
/// ignored.
pub open spec fn pcm16_samples_of(b: Seq<u8>) -> Seq<i16> {
    Seq::new(b.len() / 2, |k: int| ((b[2 * k] + b[2 * k + 1] * 256) as u16) as i16)
}

proof fn lemma_i16_bits(v: i16)
    by (bit_vector)
    ensures
        ((v as u16) as i16) == v,
{
}

/// Decoding the bytes of samples gives the samples back.
pub proof fn lemma_pcm16_roundtrip(s: Seq<i16>)
    ensures
        pcm16_samples_of(pcm16_bytes(s)) == s,
{
    let b = pcm16_bytes(s);
    assert forall|k: int| 0 <= k < s.len() implies #[trigger] pcm16_samples_of(b)[k] == s[k] by {
        let x = s[k] as u16;
        assert(b[2 * k] == (x % 256) as u8);
        assert(b[2 * k + 1] == (x / 256) as u8);
        assert((x % 256) + (x / 256) * 256 == x);
        lemma_i16_bits(s[k]);
    }
    assert(pcm16_samples_of(b) =~= s);
}

/// Samples as little-endian 16-bit PCM bytes.
pub fn samples_to_pcm16(samples: &[i16]) -> (b: Vec<u8>)
    requires
        2 * samples.len() <= usize::MAX,
    ensures
        b@ == pcm16_bytes(samples@),
{
    let mut b: Vec<u8> = Vec::new();
    let mut i: usize = 0;
    while i < samples.len()
        invariant
            i <= samples@.len(),
            b@ == pcm16_bytes(samples@.take(i as int)),
        decreases samples@.len() - i,
    {
        let x = samples[i] as u16;
        b.push((x % 256) as u8);
        b.push((x / 256) as u8);
        assert(pcm16_bytes(samples@.take(i + 1)) =~= pcm16_bytes(samples@.take(i as int)) + seq![
            (x % 256) as u8,
            (x / 256) as u8,
        ]);
        i += 1;
    }
    assert(samples@.take(i as int) =~= samples@);
    b
}

/// The 16-bit samples in little-endian PCM bytes (an odd last byte is
/// ignored).
pub fn pcm16_samples(bytes: &[u8]) -> (s: Vec<i16>)
    ensures
        s@ == pcm16_samples_of(bytes@),
{
    let n = bytes.len() / 2;
    let mut s: Vec<i16> = Vec::new();
    let mut k: usize = 0;
    let mut i: usize = 0;
    while k < n
        invariant
            n == bytes@.len() / 2,
            k <= n,
            i == 2 * k,
            s@ == pcm16_samples_of(bytes@).take(k as int),
        decreases n - k,
    {
        assert(i + 1 < bytes@.len());
        let lo = bytes[i] as u16;
        let hi = bytes[i + 1] as u16;
        assert(lo + hi * 256 <= u16::MAX);
        let v = #[verifier::truncate] ((lo + hi * 256) as i16);
        s.push(v);
        assert(s@ =~= pcm16_samples_of(bytes@).take(k + 1));
        k += 1;
        i += 2;
    }
    assert(s@ =~= pcm16_samples_of(bytes@));
    s
}

/// An interleaved frame of `channels` channels as stereo: stereo stays as
/// it is, mono (or a zero channel count) has each sample doubled, and wider
/// frames keep their first two channels (a trailing partial frame is
/// dropped).
pub open spec fn spec_to_stereo<T>(f: Seq<T>, channels: u16) -> Seq<T> {
    if channels == 2 {
        f
    } else if channels <= 1 {
        Seq::new(2 * f.len(), |i: int| f[i / 2])
    } else {
        Seq::new(2 * (f.len() / channels as nat), |i: int| f[(i / 2) * channels + i % 2])
    }
}

/// Sample `c` of frame `k` in an interleaved buffer of `width` channels.
pub open spec fn sample<T>(f: Seq<T>, width: int, k: int, c: int) -> T {
    f[k * width + c]
}

/// What stereo conversion keeps of each frame: a stereo buffer stays as
/// it is; a mono sample becomes a left and a right equal to it; a wider
/// frame gives its first two channels (front left, front right), in that
/// order, and no other channel; whole frames only.
pub proof fn lemma_stereo_keeps_front_pair<T>(f: Seq<T>, channels: u16)
    ensures
        channels == 2 ==> spec_to_stereo(f, channels) == f,
        channels <= 1 ==> spec_to_stereo(f, channels).len() == 2 * f.len() && forall|k: int|
            #![trigger sample(spec_to_stereo(f, channels), 2, k, 0)]
            0 <= k < f.len() ==> sample(spec_to_stereo(f, channels), 2, k, 0) == sample(f, 1, k, 0) && sample(
                spec_to_stereo(f, channels),
                2,
                k,
                1,
            ) == sample(f, 1, k, 0),
        channels > 2 ==> spec_to_stereo(f, channels).len() == 2 * (f.len() / channels as nat) && forall|k: int|
            #![trigger sample(spec_to_stereo(f, channels), 2, k, 0)]
            0 <= k < f.len() / channels as nat ==> sample(spec_to_stereo(f, channels), 2, k, 0) == sample(
                f,
                channels as int,
                k,
                0,
            ) && sample(spec_to_stereo(f, channels), 2, k, 1) == sample(f, channels as int, k, 1),
{
    if channels <= 1 {
        assert forall|k: int| 0 <= k < f.len() implies #[trigger] sample(spec_to_stereo(f, channels), 2, k, 0) == sample(f, 1, k, 0)
            && sample(spec_to_stereo(f, channels), 2, k, 1) == sample(f, 1, k, 0) by {
            assert((k * 2) / 2 == k);
            assert((k * 2 + 1) / 2 == k);
        }
    } else if channels > 2 {
        let n = f.len() / channels as nat;
        assert forall|k: int| 0 <= k < n implies #[trigger] sample(spec_to_stereo(f, channels), 2, k, 0) == sample(
            f,
            channels as int,
            k,
            0,
        ) && sample(spec_to_stereo(f, channels), 2, k, 1) == sample(f, channels as int, k, 1) by {
            assert((k * 2) / 2 == k && (k * 2) % 2 == 0);
            assert((k * 2 + 1) / 2 == k && (k * 2 + 1) % 2 == 1);
            assert(k * 2 + 1 < 2 * n);
        }
    }
}

/// Convert an interleaved frame to stereo (see `spec_to_stereo`).
pub fn to_stereo<T: Copy>(frame: &[T], channels: u16) -> (out: Vec<T>)
    requires
        2 * frame.len() <= usize::MAX,
    ensures
        out@ == spec_to_stereo(frame@, channels),
{
    let mut out: Vec<T> = Vec::new();
    if channels == 2 {
        let mut i: usize = 0;
        while i < frame.len()
            invariant
                i <= frame@.len(),
                out@ == frame@.take(i as int),
            decreases frame@.len() - i,
        {
            out.push(frame[i]);
            assert(out@ =~= frame@.take(i + 1));
            i += 1;
        }
        assert(out@ =~= frame@);
    } else if channels <= 1 {
        let mut i: usize = 0;
        while i < frame.len()
            invariant
                channels <= 1,
                i <= frame@.len(),
                out@ == Seq::new(2 * i as nat, |j: int| frame@[j / 2]),
            decreases frame@.len() - i,
        {
            out.push(frame[i]);
            out.push(frame[i]);
            assert(out@ =~= Seq::new(2 * (i + 1) as nat, |j: int| frame@[j / 2]));
            i += 1;
        }
    } else {
        let n = channels as usize;
        let frames = frame.len() / n;
        let mut f: usize = 0;
        let mut base: usize = 0;
        while f < frames
            invariant
                channels > 2,
                n == channels,
                frames == frame@.len() / n as nat,
                f <= frames,
                base == f * n,
                out@ == Seq::new(2 * f as nat, |j: int| frame@[(j / 2) * n + j % 2]),
            decreases frames - f,
        {
            assert(base + n <= frame@.len()) by (nonlinear_arith)
                requires
                    f < frames,
                    base == f * n,
                    frames == frame@.len() / n as nat,
                    n > 2,
            {
                assert(frames * n <= frame@.len());
                assert((f + 1) * n <= frames * n);
            }
            out.push(frame[base]);
            out.push(frame[base + 1]);
            assert(out@ =~= Seq::new(2 * (f + 1) as nat, |j: int| frame@[(j / 2) * n + j % 2]));
            assert((f + 1) * n == f * n + n) by (nonlinear_arith);
            base = base + n;
            f += 1;
        }
    }
    out
}

} // verus!
