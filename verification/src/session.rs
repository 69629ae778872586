//! Capture and render sessions: their errors, which process of an app to
//! capture, and the sessions of this build, where there is no system audio
//! to open.

use vstd::prelude::*;

use crate::text::{dec_digits, push_decimal, str_eq};
use crate::wasapi::{AudioFormat, WasapiError};

verus! {

/// Errors of capture and render sessions.
#[derive(Debug)]
pub enum SessionError {
    Wasapi(WasapiError),
    DeviceUnavailable(String),
    FormatMismatch,
    AlreadyRunning,
    ChannelError,
}

impl SessionError {
    /// The error as a user reads it.
    pub open spec fn spec_message(&self) -> Seq<char> {
        match self {
            SessionError::Wasapi(e) => "WASAPI error: "@ + e.spec_message(),
            SessionError::DeviceUnavailable(m) => "device not available: "@ + m@,
            SessionError::FormatMismatch => "format mismatch"@,
            SessionError::AlreadyRunning => "session already running"@,
            SessionError::ChannelError => "channel error"@,
        }
    }

    /// The error as a user reads it.
    pub fn message(&self) -> (s: String)
        ensures
            s@ == self.spec_message(),
    {
        match self {
            SessionError::Wasapi(e) => {
                let mut s = String::from_str("WASAPI error: ");
                let inner = e.message();
                s.append(inner.as_str());
                s
            },
            SessionError::DeviceUnavailable(m) => {
                let mut s = String::from_str("device not available: ");
                s.append(m.as_str());
                s
            },
            SessionError::FormatMismatch => String::from_str("format mismatch"),
            SessionError::AlreadyRunning => String::from_str("session already running"),
            SessionError::ChannelError => String::from_str("channel error"),
        }
    }
}

/// `r` is `Err(DeviceUnavailable(m))` with message `msg`.
pub open spec fn is_unavailable<T>(r: &Result<T, SessionError>, msg: Seq<char>) -> bool {
    match r {
        Err(SessionError::DeviceUnavailable(m)) => m@ == msg,
        _ => false,
    }
}

/// The pids of the running processes whose lower-cased exe name is
/// `exe_lower`, each once, in the order first seen.
pub open spec fn pids_named(names: Seq<Seq<char>>, pids: Seq<u32>, exe_lower: Seq<char>, k: int) -> Seq<u32>
    decreases k,
{
    if k <= 0 {
        Seq::empty()
    } else {
        let prev = pids_named(names, pids, exe_lower, k - 1);
        if names[k - 1] == exe_lower && !prev.contains(pids[k - 1]) {
            prev.push(pids[k - 1])
        } else {
            prev
        }
    }
}

/// Collect the pids of the processes (given by lower-cased exe name and
/// pid, in snapshot order) that run `exe_lower`.
pub fn matching_pids(names_lowered: &[String], pids: &[u32], exe_lower: &str) -> (r: Vec<u32>)
    requires
        names_lowered@.len() == pids@.len(),
    ensures
        r@ == pids_named(names_lowered@.map_values(|s: String| s@), pids@, exe_lower@, pids@.len() as int),
{
    let ghost names = names_lowered@.map_values(|s: String| s@);
    let mut r: Vec<u32> = Vec::new();
    let mut i: usize = 0;
    while i < pids.len()
        invariant
            names_lowered@.len() == pids@.len(),
            names == names_lowered@.map_values(|s: String| s@),
            i <= pids@.len(),
            r@ == pids_named(names, pids@, exe_lower@, i as int),
        decreases pids@.len() - i,
    {
        if str_eq(names_lowered[i].as_str(), exe_lower) {
            let mut seen = false;
            let mut k: usize = 0;
            while k < r.len()
                invariant
                    i < pids@.len(),
                    names_lowered@.len() == pids@.len(),
                    names == names_lowered@.map_values(|s: String| s@),
                    r@ == pids_named(names, pids@, exe_lower@, i as int),
                    names[i as int] == exe_lower@,
                    k <= r@.len(),
                    seen == exists|j: int| 0 <= j < k && r@[j] == pids@[i as int],
                decreases r@.len() - k,
            {
                if r[k] == pids[i] {
                    seen = true;
                }
                k += 1;
            }
            if !seen {
                r.push(pids[i]);
            }
        }
        i += 1;
    }
    r
}

/// The pid to capture an app by: the first render session (in the order
/// the system lists them) that belongs to one of the app's processes;
/// without one, the app's first process, so capture binds now and picks up
/// audio once it starts. An app with no process is not running.
pub open spec fn spec_pick_pid(pids: Seq<u32>, session_pids: Seq<u32>) -> Option<u32> {
    if pids.len() == 0 {
        None
    } else if exists|j: int| 0 <= j < session_pids.len() && pids.contains(#[trigger] session_pids[j]) {
        let j = choose|j: int|
            0 <= j < session_pids.len() && pids.contains(session_pids[j]) && forall|i: int|
                0 <= i < j ==> !pids.contains(#[trigger] session_pids[i]);
        Some(session_pids[j])
    } else {
        Some(pids[0])
    }
}

/// Message for an app with no process.
pub open spec fn msg_not_running(exe: Seq<char>) -> Seq<char> {
    exe + " not running"@
}

/// Is `p` among `pids`?
fn contains_pid(pids: &[u32], p: u32) -> (b: bool)
    ensures
        b == pids@.contains(p),
{
    let mut i: usize = 0;
    while i < pids.len()
        invariant
            i <= pids@.len(),
            forall|j: int| 0 <= j < i ==> pids@[j] != p,
        decreases pids@.len() - i,
    {
        if pids[i] == p {
            return true;
        }
        i += 1;
    }
    false
}

/// The pid to capture `exe_name` by (see `spec_pick_pid`); an app with no
/// process is refused as not running.
pub fn pick_audio_pid(exe_name: &str, pids: &[u32], session_pids: &[u32]) -> (r: Result<u32, SessionError>)
    ensures
        match spec_pick_pid(pids@, session_pids@) {
            Some(p) => r matches Ok(q) && q == p,
            None => is_unavailable(&r, msg_not_running(exe_name@)),
        },
{
    if pids.len() == 0 {
        let mut m = String::from_str(exe_name);
        m.append(" not running");
        return Err(SessionError::DeviceUnavailable(m));
    }
    let mut j: usize = 0;
    while j < session_pids.len()
        invariant
            j <= session_pids@.len(),
            pids@.len() > 0,
            forall|i: int| 0 <= i < j ==> !pids@.contains(#[trigger] session_pids@[i]),
        decreases session_pids@.len() - j,
    {
        if contains_pid(pids, session_pids[j]) {
            proof {
                let jj = choose|jx: int|
                    0 <= jx < session_pids@.len() && pids@.contains(session_pids@[jx]) && forall|i: int|
                        0 <= i < jx ==> !pids@.contains(#[trigger] session_pids@[i]);
                if jj < j {
                } else if jj > j {
                    assert(!pids@.contains(session_pids@[j as int]));
                }
            }
            return Ok(session_pids[j]);
        }
        j += 1;
    }
    Ok(pids[0])
}

/// Message for an app none of whose processes has a render session.
pub open spec fn msg_no_session(exe: Seq<char>, n: nat) -> Seq<char> {
    "no active audio session for "@ + exe + " (checked "@ + dec_digits(n) + " pids)"@
}

/// The first render session, in the order the system lists devices and
/// their sessions, that belongs to one of `pids`.
pub open spec fn first_session_of(pids: Seq<u32>, sessions: Seq<(String, u32)>, j: int) -> bool {
    &&& 0 <= j < sessions.len()
    &&& pids.contains(sessions[j].1)
    &&& forall|i: int| 0 <= i < j ==> !pids.contains(#[trigger] sessions[i].1)
}

/// The output device an app plays on, given the app's processes `pids` and
/// the render sessions as (device id, session pid), device by device in
/// enumeration order: the device of the first session one of the app's
/// processes holds. An app with no process is not running; one whose
/// processes hold no session is refused with how many pids were checked.
pub fn device_for_pids(exe_name: &str, pids: &[u32], sessions: &[(String, u32)]) -> (r: Result<String, SessionError>)
    ensures
        pids@.len() == 0 ==> is_unavailable(&r, msg_not_running(exe_name@)),
        pids@.len() > 0 && (exists|j: int| first_session_of(pids@, sessions@, j)) ==> (r matches Ok(d) && exists|j: int|
            first_session_of(pids@, sessions@, j) && d@ == sessions@[j].0@),
        pids@.len() > 0 && !(exists|j: int| first_session_of(pids@, sessions@, j)) ==> is_unavailable(
            &r,
            msg_no_session(exe_name@, pids@.len()),
        ),
{
    if pids.len() == 0 {
        let mut m = String::from_str(exe_name);
        m.append(" not running");
        return Err(SessionError::DeviceUnavailable(m));
    }
    let mut j: usize = 0;
    while j < sessions.len()
        invariant
            j <= sessions@.len(),
            forall|i: int| 0 <= i < j ==> !pids@.contains(#[trigger] sessions@[i].1),
        decreases sessions@.len() - j,
    {
        if contains_pid(pids, sessions[j].1) {
            let d = sessions[j].0.clone();
            proof {
                assert(first_session_of(pids@, sessions@, j as int));
            }
            return Ok(d);
        }
        j += 1;
    }
    proof {
        assert forall|k: int| !first_session_of(pids@, sessions@, k) by {
            if first_session_of(pids@, sessions@, k) {
                assert(!pids@.contains(sessions@[k].1));
            }
        }
    }
    let mut m = String::from_str("no active audio session for ");
    m.append(exe_name);
    m.append(" (checked ");
    push_decimal(&mut m, pids.len() as u64);
    m.append(" pids)");
    Err(SessionError::DeviceUnavailable(m))
}

/// The app-capture pid of this build, where there is no process loopback.
pub fn find_audio_pid_for_exe(exe_name: &str) -> (r: Result<u32, SessionError>)
    ensures
        is_unavailable(&r, "process loopback not supported on non-Windows"@),
{
    Err(SessionError::DeviceUnavailable(String::from_str("process loopback not supported on non-Windows")))
}

/// The capture format of a device in this build: the engine's default.
pub fn get_device_capture_format(device_id: &str) -> (r: Result<AudioFormat, SessionError>)
    ensures
        r matches Ok(f) && f.sample_rate == 48_000 && f.channels == 2 && f.bits_per_sample == 32,
{
    Ok(AudioFormat { sample_rate: 48_000, channels: 2, bits_per_sample: 32 })
}

/// A render session to a device; in this build it plays nothing.
pub struct AudioRenderer {
    pub device_id: String,
}

impl AudioRenderer {
    /// A renderer for `device_id`.
    pub fn new(device_id: String, format: AudioFormat) -> (r: Self)
        ensures
            r.device_id == device_id,
    {
        AudioRenderer { device_id }
    }

    /// Stop rendering (nothing runs in this build).
    pub fn stop(&self) {
    }
}

/// The writer into the virtual microphone's ring; the ring only exists on
/// Windows, so in this build it writes nothing.
pub struct VirtualRender;

impl VirtualRender {
    /// A writer for frames of `format`.
    pub fn new(format: AudioFormat) -> (r: Self) {
        VirtualRender
    }

    /// Stop writing (nothing runs in this build).
    pub fn stop(&self) {
    }
}

} // verus!
