//! The audio format the engine speaks, the errors of the system audio
//! layer, and the guard for the per-thread COM lifetime.

use vstd::prelude::*;

verus! {

/// Errors of the system audio layer.
#[derive(Debug)]
pub enum WasapiError {
    ComInit(String),
    EnumeratorFailed(String),
    PropertyStore(String),
    DeviceNotFound(String),
    AudioClient(String),
    FormatNotSupported,
    Buffer(String),
}

impl WasapiError {
    /// The error as a user reads it.
    pub open spec fn spec_message(&self) -> Seq<char> {
        match self {
            WasapiError::ComInit(m) => "COM initialization failed: "@ + m@,
            WasapiError::EnumeratorFailed(m) => "device enumerator creation failed: "@ + m@,
            WasapiError::PropertyStore(m) => "property store error: "@ + m@,
            WasapiError::DeviceNotFound(m) => "device not found: "@ + m@,
            WasapiError::AudioClient(m) => "audio client error: "@ + m@,
            WasapiError::FormatNotSupported => "format not supported"@,
            WasapiError::Buffer(m) => "buffer error: "@ + m@,
        }
    }

    /// The error as a user reads it.
    pub fn message(&self) -> (s: String)
        ensures
            s@ == self.spec_message(),
    {
        let (head, tail): (&str, Option<&String>) = match self {
            WasapiError::ComInit(m) => ("COM initialization failed: ", Some(m)),
            WasapiError::EnumeratorFailed(m) => ("device enumerator creation failed: ", Some(m)),
            WasapiError::PropertyStore(m) => ("property store error: ", Some(m)),
            WasapiError::DeviceNotFound(m) => ("device not found: ", Some(m)),
            WasapiError::AudioClient(m) => ("audio client error: ", Some(m)),
            WasapiError::FormatNotSupported => ("format not supported", None),
            WasapiError::Buffer(m) => ("buffer error: ", Some(m)),
        };
        let mut s = String::from_str(head);
        match tail {
            Some(m) => s.append(m.as_str()),
            None => {},
        }
        s
    }
}

/// Per-thread guard of the COM apartment. Where there is no COM (this
/// build) there is nothing to initialise and `init` always succeeds.
pub struct ComGuard;

impl ComGuard {
    /// Enter the apartment.
    pub fn init() -> (r: Result<ComGuard, WasapiError>)
        ensures
            r is Ok,
    {
        Ok(ComGuard)
    }
}

/// An interleaved PCM format: rate, channel count and sample width.
#[derive(Debug, Clone, Copy)]
pub struct AudioFormat {
    pub sample_rate: u32,
    pub channels: u16,
    pub bits_per_sample: u16,
}

impl Default for AudioFormat {
    /// What the engine normalises to: 48 kHz stereo 32-bit float.
    fn default() -> (f: Self)
        ensures
            f.sample_rate == 48_000,
            f.channels == 2,
            f.bits_per_sample == 32,
    {
        AudioFormat { sample_rate: 48_000, channels: 2, bits_per_sample: 32 }
    }
}

impl AudioFormat {
    /// Bytes of one frame: one sample of every channel (whole bytes only).
    pub open spec fn spec_frame_size(&self) -> nat {
        (self.channels * (self.bits_per_sample / 8)) as nat
    }

    /// Bytes of one frame.
    pub fn frame_size_bytes(&self) -> (n: usize)
        ensures
            n == self.spec_frame_size(),
    {
        let bytes = (self.bits_per_sample / 8) as usize;
        assert((self.channels as usize) * bytes <= 65535 * 8191) by (nonlinear_arith)
            requires
                self.channels <= 65535,
                bytes <= 8191,
        ;
        (self.channels as usize) * bytes
    }

    /// Bytes of one second of audio.
    pub fn bytes_per_second(&self) -> (n: usize)
        requires
            self.sample_rate * self.spec_frame_size() <= usize::MAX,
        ensures
            n == self.sample_rate * self.spec_frame_size(),
    {
        self.sample_rate as usize * self.frame_size_bytes()
    }
}

} // verus!
