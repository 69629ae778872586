//! Application settings: the persisted document, its defaults, the live
//! intervals derived from it, and the daemon's access check.

use vstd::prelude::*;

use core::time::Duration;

verus! {

/// What `Duration::from_millis` gives for a count of milliseconds.
pub uninterp spec fn millis_duration(ms: u64) -> Duration;

/// What `Duration::from_secs` gives for a count of seconds.
pub uninterp spec fn secs_duration(secs: u64) -> Duration;

/// `Duration::from_millis`: a duration of `ms` milliseconds, a function of
/// `ms` alone.
#[verifier::external_body]
fn duration_from_millis(ms: u64) -> (d: Duration)
    ensures
        d == millis_duration(ms),
{
    Duration::from_millis(ms)
}

/// `Duration::from_secs`: a duration of `secs` seconds, a function of `secs`
/// alone.
#[verifier::external_body]
fn duration_from_secs(secs: u64) -> (d: Duration)
    ensures
        d == secs_duration(secs),
{
    Duration::from_secs(secs)
}

/// All persisted application settings.
#[derive(Debug, Clone, Copy, PartialEq, Eq, Structural)]
pub struct Settings {
    /// Emit VU meter levels at all.
    pub vu_enabled: bool,
    /// VU meter refresh rate in frames per second (used clamped to 1..=60).
    pub vu_fps: u32,
    /// Seconds between process scans (used clamped to 1..=30).
    pub process_scan_secs: u32,
    /// TCP port of the embedded daemon.
    pub server_port: u16,
    /// Listen on the LAN instead of loopback.
    pub server_lan: bool,
    /// Start the routing engine when the app launches.
    pub start_engine_on_launch: bool,
    /// Closing the window hides it to the tray.
    pub close_to_tray: bool,
    /// Launch with Windows.
    pub start_with_windows: bool,
}

impl Default for Settings {
    /// Meters on at 15 fps, a scan every 2 s, port 7878 on loopback, close to
    /// the tray, nothing started automatically.
    fn default() -> (s: Self)
        ensures
            s == (Settings {
                vu_enabled: true,
                vu_fps: 15,
                process_scan_secs: 2,
                server_port: 7878,
                server_lan: false,
                start_engine_on_launch: false,
                close_to_tray: true,
                start_with_windows: false,
            }),
    {
        Settings {
            vu_enabled: true,
            vu_fps: 15,
            process_scan_secs: 2,
            server_port: 7878,
            server_lan: false,
            start_engine_on_launch: false,
            close_to_tray: true,
            start_with_windows: false,
        }
    }
}

/// `v` clamped to `lo..=hi`.
pub open spec fn clamp_u32(v: u32, lo: u32, hi: u32) -> u32 {
    if v < lo {
        lo
    } else if v > hi {
        hi
    } else {
        v
    }
}

impl Settings {
    /// Milliseconds between VU updates: 1000 / fps, the rate clamped to 1..=60.
    pub open spec fn spec_vu_millis(&self) -> u64 {
        (1000u32 / clamp_u32(self.vu_fps, 1, 60)) as u64
    }

    /// Seconds between process scans, clamped to 1..=30.
    pub open spec fn spec_scan_secs(&self) -> u64 {
        clamp_u32(self.process_scan_secs, 1, 30) as u64
    }

    /// The VU refresh interval.
    pub fn vu_interval(&self) -> (d: Duration)
        ensures
            d == millis_duration(self.spec_vu_millis()),
    {
        let fps: u32 = if self.vu_fps < 1 {
            1
        } else if self.vu_fps > 60 {
            60
        } else {
            self.vu_fps
        };
        duration_from_millis(1000 / fps as u64)
    }

    /// The process-scan interval.
    pub fn scan_interval(&self) -> (d: Duration)
        ensures
            d == secs_duration(self.spec_scan_secs()),
    {
        let secs: u32 = if self.process_scan_secs < 1 {
            1
        } else if self.process_scan_secs > 30 {
            30
        } else {
            self.process_scan_secs
        };
        duration_from_secs(secs as u64)
    }
}

/// `s` with its two rates clamped to what is used: `vu_fps` to 1..=60 and
/// `process_scan_secs` to 1..=30; every other field unchanged. Settings are
/// stored and handed back in this form.
pub fn normalised(s: Settings) -> (n: Settings)
    ensures
        n == (Settings {
            vu_fps: clamp_u32(s.vu_fps, 1, 60),
            process_scan_secs: clamp_u32(s.process_scan_secs, 1, 30),
            ..s
        }),
        n.spec_vu_millis() == s.spec_vu_millis(),
        n.spec_scan_secs() == s.spec_scan_secs(),
{
    let vu_fps: u32 = if s.vu_fps < 1 {
        1
    } else if s.vu_fps > 60 {
        60
    } else {
        s.vu_fps
    };
    let process_scan_secs: u32 = if s.process_scan_secs < 1 {
        1
    } else if s.process_scan_secs > 30 {
        30
    } else {
        s.process_scan_secs
    };
    Settings { vu_fps, process_scan_secs, ..s }
}

/// Whether replacing `prev` by `next` must update the Windows autostart
/// entry (and to which state): only when the flag changed.
pub fn autostart_change(prev: &Settings, next: &Settings) -> (r: Option<bool>)
    ensures
        prev.start_with_windows != next.start_with_windows ==> r == Some(next.start_with_windows),
        prev.start_with_windows == next.start_with_windows ==> r is None,
{
    if prev.start_with_windows != next.start_with_windows {
        Some(next.start_with_windows)
    } else {
        None
    }
}

// ── Daemon access ───────────────────────────────────────────────────────────

/// Where to reach the daemon.
#[derive(Debug, Clone)]
pub struct ServerInfo {
    pub url: String,
    pub token: String,
}

/// A request is let through when the daemon has no token (auth off) or the
/// request carries exactly that token.
pub fn authorized(token: &str, provided: Option<&str>) -> (b: bool)
    ensures
        b == (token@.len() == 0 || (provided matches Some(p) && p@ == token@)),
{
    if token.unicode_len() == 0 {
        return true;
    }
    match provided {
        Some(p) => crate::text::str_eq(p, token),
        None => false,
    }
}

/// The daemon asks for a token on the LAN, where other machines reach it,
/// and outside debug builds; a loopback debug build goes without one.
pub fn token_required(server_lan: bool, debug_build: bool) -> (b: bool)
    ensures
        b == (server_lan || !debug_build),
{
    server_lan || !debug_build
}

/// The daemon's token: a fresh random one where a token is required, else
/// none (the empty token, which lets every request through).
pub fn daemon_token(server_lan: bool, debug_build: bool) -> (t: String)
    ensures
        (server_lan || !debug_build) ==> crate::graph::is_v4_uuid_text(t@),
        !(server_lan || !debug_build) ==> t@.len() == 0,
{
    if token_required(server_lan, debug_build) {
        crate::graph::new_uuid()
    } else {
        String::new()
    }
}

/// The address the daemon listens on: every interface on the LAN, else
/// loopback.
pub fn bind_address(server_lan: bool) -> (a: [u8; 4])
    ensures
        server_lan ==> a@ == seq![0u8, 0u8, 0u8, 0u8],
        !server_lan ==> a@ == seq![127u8, 0u8, 0u8, 1u8],
{
    if server_lan {
        [0, 0, 0, 0]
    } else {
        [127, 0, 0, 1]
    }
}

} // verus!
