//! Audio endpoints as the UI lists them, and the heuristic that tells a
//! software (virtual) device from hardware by its name.

use vstd::prelude::*;

use crate::text::{contains_seq, lowercase_of, str_contains, to_lowercase};
use crate::wasapi::WasapiError;

verus! {

/// Errors of device enumeration.
#[derive(Debug)]
pub enum DeviceError {
    Wasapi(WasapiError),
    Enumeration(String),
}

impl DeviceError {
    /// The error as a user reads it.
    pub open spec fn spec_message(&self) -> Seq<char> {
        match self {
            DeviceError::Wasapi(e) => "WASAPI error: "@ + e.spec_message(),
            DeviceError::Enumeration(m) => "enumeration failed: "@ + m@,
        }
    }

    /// The error as a user reads it.
    pub fn message(&self) -> (s: String)
        ensures
            s@ == self.spec_message(),
    {
        match self {
            DeviceError::Wasapi(e) => {
                let mut s = String::from_str("WASAPI error: ");
                let inner = e.message();
                s.append(inner.as_str());
                s
            },
            DeviceError::Enumeration(m) => {
                let mut s = String::from_str("enumeration failed: ");
                s.append(m.as_str());
                s
            },
        }
    }
}

/// Data flow of an endpoint (`Virtual` only in the legacy listing).
#[derive(Debug, Clone, Copy, PartialEq, Eq, Structural)]
pub enum DeviceType {
    Input,
    Output,
    Virtual,
}

/// One audio endpoint.
#[derive(Debug, Clone)]
pub struct AudioDevice {
    pub id: String,
    pub name: String,
    pub device_type: DeviceType,
    pub is_default: bool,
    /// The system name before a label replaced `name`.
    pub original_name: Option<String>,
    /// A software device (VB-Cable, VoiceMeeter, Nodus, ...) rather than
    /// hardware; only the UI's badges depend on it.
    pub is_virtual: bool,
}

/// A copy of `d`, field for field.
pub(crate) fn device_copy(d: &AudioDevice) -> (r: AudioDevice)
    ensures
        r == *d,
{
    let original_name = match &d.original_name {
        Some(o) => Some(o.clone()),
        None => None,
    };
    AudioDevice {
        id: d.id.clone(),
        name: d.name.clone(),
        device_type: d.device_type,
        is_default: d.is_default,
        original_name,
        is_virtual: d.is_virtual,
    }
}

/// A lower-cased name holds one of the common virtual-audio vendor marks.
pub open spec fn virtual_marker(n: Seq<char>) -> bool {
    ||| contains_seq(n, "virtual"@)
    ||| contains_seq(n, "vb-audio"@)
    ||| contains_seq(n, "cable"@)
    ||| contains_seq(n, "voicemeeter"@)
    ||| contains_seq(n, "vac"@)
    ||| contains_seq(n, "mixline"@)
    ||| contains_seq(n, "nodus"@)
    ||| contains_seq(n, "steam streaming"@)
    ||| contains_seq(n, "nvidia broadcast"@)
    ||| contains_seq(n, "rtx voice"@)
    ||| contains_seq(n, "obs"@)
}

/// A lower-cased name is virtual exactly when it holds one of the vendor
/// marks: virtual, vb-audio, cable, voicemeeter, vac, mixline, nodus,
/// steam streaming, nvidia broadcast, rtx voice, obs.
pub proof fn lemma_vendor_marks(n: Seq<char>)
    ensures
        contains_seq(n, "virtual"@) ==> virtual_marker(n),
        contains_seq(n, "vb-audio"@) ==> virtual_marker(n),
        contains_seq(n, "cable"@) ==> virtual_marker(n),
        contains_seq(n, "voicemeeter"@) ==> virtual_marker(n),
        contains_seq(n, "vac"@) ==> virtual_marker(n),
        contains_seq(n, "mixline"@) ==> virtual_marker(n),
        contains_seq(n, "nodus"@) ==> virtual_marker(n),
        contains_seq(n, "steam streaming"@) ==> virtual_marker(n),
        contains_seq(n, "nvidia broadcast"@) ==> virtual_marker(n),
        contains_seq(n, "rtx voice"@) ==> virtual_marker(n),
        contains_seq(n, "obs"@) ==> virtual_marker(n),
        virtual_marker(n) ==> (contains_seq(n, "virtual"@) || contains_seq(n, "vb-audio"@) || contains_seq(n, "cable"@) || contains_seq(n, "voicemeeter"@) || contains_seq(n, "vac"@) || contains_seq(n, "mixline"@) || contains_seq(n, "nodus"@) || contains_seq(n, "steam streaming"@) || contains_seq(n, "nvidia broadcast"@) || contains_seq(n, "rtx voice"@) || contains_seq(n, "obs"@)),
{
}

/// Does an already lower-cased name hold a virtual-audio vendor mark?
pub fn has_virtual_marker(lowered: &str) -> (b: bool)
    ensures
        b == virtual_marker(lowered@),
{
    str_contains(lowered, "virtual") || str_contains(lowered, "vb-audio") || str_contains(
        lowered,
        "cable",
    ) || str_contains(lowered, "voicemeeter") || str_contains(lowered, "vac") || str_contains(
        lowered,
        "mixline",
    ) || str_contains(lowered, "nodus") || str_contains(lowered, "steam streaming")
        || str_contains(lowered, "nvidia broadcast") || str_contains(lowered, "rtx voice")
        || str_contains(lowered, "obs")
}

/// Does this endpoint belong to a software (virtual) driver? Matched on
/// the lower-cased name.
pub fn is_virtual_device(name: &str) -> (b: bool)
    ensures
        b == virtual_marker(lowercase_of(name@)),
{
    let n = to_lowercase(name);
    has_virtual_marker(n.as_str())
}

/// An enumerated endpoint: the default when its id is the flow's default
/// id, virtual by its name, not relabelled.
pub fn make_device(id: String, name: String, device_type: DeviceType, default_id: &Option<
    String,
>) -> (d: AudioDevice)
    ensures
        d.id == id,
        d.name == name,
        d.device_type == device_type,
        d.is_default == (default_id matches Some(x) && x@ == id@),
        d.original_name is None,
        d.is_virtual == virtual_marker(lowercase_of(name@)),
{
    let is_default = match default_id {
        Some(x) => *x == id,
        None => false,
    };
    let is_virtual = is_virtual_device(name.as_str());
    AudioDevice { id, name, device_type, is_default, original_name: None, is_virtual }
}

/// The endpoints of this build, where there is no system audio to ask: a
/// single stand-in output.
pub fn enumerate_audio_devices() -> (r: Result<Vec<AudioDevice>, DeviceError>)
    ensures
        r matches Ok(v) && v@.len() == 1 && v@[0].id@ == "stub-output"@ && v@[0].name@
            == "Stub Output (non-Windows)"@ && v@[0].device_type == DeviceType::Output
            && v@[0].is_default && v@[0].original_name is None && !v@[0].is_virtual,
{
    let mut v: Vec<AudioDevice> = Vec::new();
    v.push(
        AudioDevice {
            id: String::from_str("stub-output"),
            name: String::from_str("Stub Output (non-Windows)"),
            device_type: DeviceType::Output,
            is_default: true,
            original_name: None,
            is_virtual: false,
        },
    );
    Ok(v)
}

} // verus!
