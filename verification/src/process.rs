//! Audio-process detection: the known-app table, the OS plumbing that is
//! never a source, the display-name fallback, the choice of which running
//! processes to show, and the detector's change test.

use vstd::prelude::*;

use crate::text::{chars_of, ends_with_seq, lemma_str_lt_total, lemma_str_lt_trans, lowercase_of, opt_view, str_eq, str_less, str_lt, to_lowercase};

verus! {

/// Errors of process enumeration.
#[derive(Debug)]
pub enum DetectionError {
    SnapshotFailed(String),
    IterationFailed(String),
}

impl DetectionError {
    /// The error as a user reads it.
    pub open spec fn spec_message(&self) -> Seq<char> {
        match self {
            DetectionError::SnapshotFailed(m) => "failed to create process snapshot: "@ + m@,
            DetectionError::IterationFailed(m) => "process iteration failed: "@ + m@,
        }
    }

    /// The error as a user reads it.
    pub fn message(&self) -> (s: String)
        ensures
            s@ == self.spec_message(),
    {
        let (head, m) = match self {
            DetectionError::SnapshotFailed(m) => ("failed to create process snapshot: ", m),
            DetectionError::IterationFailed(m) => ("process iteration failed: ", m),
        };
        let mut s = String::from_str(head);
        s.append(m.as_str());
        s
    }
}

/// The kind of source a detected app is.
#[derive(Debug, Clone, Copy, PartialEq, Eq, Structural)]
pub enum SourceType {
    Game,
    Chat,
    Voice,
    Music,
    Browser,
    Recording,
    System,
    Unknown,
}

/// A detected audio process.
#[derive(Debug, Clone)]
pub struct AudioProcess {
    pub exe_name: String,
    pub pid: u32,
    pub display_name: String,
    pub source_type: SourceType,
    /// The app's icon as a PNG data URL, when one could be extracted.
    pub icon: Option<String>,
}

/// The known apps by lower-cased exe name: display name and source type.
pub open spec fn spec_classify(e: Seq<char>) -> Option<(Seq<char>, SourceType)> {
    if e == "arma3_x64.exe"@ || e == "arma3.exe"@ {
        Some(("Arma 3"@, SourceType::Game))
    } else if e == "discord.exe"@ {
        Some(("Discord"@, SourceType::Chat))
    } else if e == "ts3client_win64.exe"@ || e == "ts3client_win32.exe"@ {
        Some(("TeamSpeak 3"@, SourceType::Voice))
    } else if e == "spotify.exe"@ {
        Some(("Spotify"@, SourceType::Music))
    } else if e == "chrome.exe"@ {
        Some(("Chrome"@, SourceType::Browser))
    } else if e == "firefox.exe"@ {
        Some(("Firefox"@, SourceType::Browser))
    } else if e == "msedge.exe"@ {
        Some(("Edge"@, SourceType::Browser))
    } else if e == "obs64.exe"@ || e == "obs32.exe"@ || e == "obs.exe"@ {
        Some(("OBS Studio"@, SourceType::Recording))
    } else if e == "steamwebhelper.exe"@ {
        Some(("Steam"@, SourceType::System))
    } else if e == "csgo.exe"@ || e == "cs2.exe"@ {
        Some(("Counter-Strike"@, SourceType::Game))
    } else if e == "hl2.exe"@ {
        Some(("Source Engine Game"@, SourceType::Game))
    } else {
        None
    }
}

/// The known-app table: each exe it lists is that app, with that kind.
pub proof fn lemma_known_apps()
    ensures
        spec_classify("arma3_x64.exe"@) == Some(("Arma 3"@, SourceType::Game)),
        spec_classify("arma3.exe"@) == Some(("Arma 3"@, SourceType::Game)),
        spec_classify("discord.exe"@) == Some(("Discord"@, SourceType::Chat)),
        spec_classify("ts3client_win64.exe"@) == Some(("TeamSpeak 3"@, SourceType::Voice)),
        spec_classify("ts3client_win32.exe"@) == Some(("TeamSpeak 3"@, SourceType::Voice)),
        spec_classify("spotify.exe"@) == Some(("Spotify"@, SourceType::Music)),
        spec_classify("chrome.exe"@) == Some(("Chrome"@, SourceType::Browser)),
        spec_classify("firefox.exe"@) == Some(("Firefox"@, SourceType::Browser)),
        spec_classify("msedge.exe"@) == Some(("Edge"@, SourceType::Browser)),
        spec_classify("obs64.exe"@) == Some(("OBS Studio"@, SourceType::Recording)),
        spec_classify("obs32.exe"@) == Some(("OBS Studio"@, SourceType::Recording)),
        spec_classify("obs.exe"@) == Some(("OBS Studio"@, SourceType::Recording)),
        spec_classify("steamwebhelper.exe"@) == Some(("Steam"@, SourceType::System)),
        spec_classify("csgo.exe"@) == Some(("Counter-Strike"@, SourceType::Game)),
        spec_classify("cs2.exe"@) == Some(("Counter-Strike"@, SourceType::Game)),
        spec_classify("hl2.exe"@) == Some(("Source Engine Game"@, SourceType::Game)),
{
    reveal_strlit("arma3_x64.exe");
    reveal_strlit("arma3.exe");
    reveal_strlit("discord.exe");
    reveal_strlit("ts3client_win64.exe");
    reveal_strlit("ts3client_win32.exe");
    reveal_strlit("spotify.exe");
    reveal_strlit("chrome.exe");
    reveal_strlit("firefox.exe");
    reveal_strlit("msedge.exe");
    reveal_strlit("obs64.exe");
    reveal_strlit("obs32.exe");
    reveal_strlit("obs.exe");
    reveal_strlit("steamwebhelper.exe");
    reveal_strlit("csgo.exe");
    reveal_strlit("cs2.exe");
    reveal_strlit("hl2.exe");
    assert("arma3.exe"@[5] != "arma3_x64.exe"@[5]);
    assert("discord.exe"@[0] != "arma3_x64.exe"@[0]);
    assert("discord.exe"@[0] != "arma3.exe"@[0]);
    assert("ts3client_win64.exe"@[0] != "arma3_x64.exe"@[0]);
    assert("ts3client_win64.exe"@[0] != "arma3.exe"@[0]);
    assert("ts3client_win64.exe"@[0] != "discord.exe"@[0]);
    assert("ts3client_win32.exe"@[0] != "arma3_x64.exe"@[0]);
    assert("ts3client_win32.exe"@[0] != "arma3.exe"@[0]);
    assert("ts3client_win32.exe"@[0] != "discord.exe"@[0]);
    assert("ts3client_win32.exe"@[13] != "ts3client_win64.exe"@[13]);
    assert("spotify.exe"@[0] != "arma3_x64.exe"@[0]);
    assert("spotify.exe"@[0] != "arma3.exe"@[0]);
    assert("spotify.exe"@[0] != "discord.exe"@[0]);
    assert("spotify.exe"@[0] != "ts3client_win64.exe"@[0]);
    assert("spotify.exe"@[0] != "ts3client_win32.exe"@[0]);
    assert("chrome.exe"@[0] != "arma3_x64.exe"@[0]);
    assert("chrome.exe"@[0] != "arma3.exe"@[0]);
    assert("chrome.exe"@[0] != "discord.exe"@[0]);
    assert("chrome.exe"@[0] != "ts3client_win64.exe"@[0]);
    assert("chrome.exe"@[0] != "ts3client_win32.exe"@[0]);
    assert("chrome.exe"@[0] != "spotify.exe"@[0]);
    assert("firefox.exe"@[0] != "arma3_x64.exe"@[0]);
    assert("firefox.exe"@[0] != "arma3.exe"@[0]);
    assert("firefox.exe"@[0] != "discord.exe"@[0]);
    assert("firefox.exe"@[0] != "ts3client_win64.exe"@[0]);
    assert("firefox.exe"@[0] != "ts3client_win32.exe"@[0]);
    assert("firefox.exe"@[0] != "spotify.exe"@[0]);
    assert("firefox.exe"@[0] != "chrome.exe"@[0]);
    assert("msedge.exe"@[0] != "arma3_x64.exe"@[0]);
    assert("msedge.exe"@[0] != "arma3.exe"@[0]);
    assert("msedge.exe"@[0] != "discord.exe"@[0]);
    assert("msedge.exe"@[0] != "ts3client_win64.exe"@[0]);
    assert("msedge.exe"@[0] != "ts3client_win32.exe"@[0]);
    assert("msedge.exe"@[0] != "spotify.exe"@[0]);
    assert("msedge.exe"@[0] != "chrome.exe"@[0]);
    assert("msedge.exe"@[0] != "firefox.exe"@[0]);
    assert("obs64.exe"@[0] != "arma3_x64.exe"@[0]);
    assert("obs64.exe"@[0] != "arma3.exe"@[0]);
    assert("obs64.exe"@[0] != "discord.exe"@[0]);
    assert("obs64.exe"@[0] != "ts3client_win64.exe"@[0]);
    assert("obs64.exe"@[0] != "ts3client_win32.exe"@[0]);
    assert("obs64.exe"@[0] != "spotify.exe"@[0]);
    assert("obs64.exe"@[0] != "chrome.exe"@[0]);
    assert("obs64.exe"@[0] != "firefox.exe"@[0]);
    assert("obs64.exe"@[0] != "msedge.exe"@[0]);
    assert("obs32.exe"@[0] != "arma3_x64.exe"@[0]);
    assert("obs32.exe"@[0] != "arma3.exe"@[0]);
    assert("obs32.exe"@[0] != "discord.exe"@[0]);
    assert("obs32.exe"@[0] != "ts3client_win64.exe"@[0]);
    assert("obs32.exe"@[0] != "ts3client_win32.exe"@[0]);
    assert("obs32.exe"@[0] != "spotify.exe"@[0]);
    assert("obs32.exe"@[0] != "chrome.exe"@[0]);
    assert("obs32.exe"@[0] != "firefox.exe"@[0]);
    assert("obs32.exe"@[0] != "msedge.exe"@[0]);
    assert("obs32.exe"@[3] != "obs64.exe"@[3]);
    assert("obs.exe"@[0] != "arma3_x64.exe"@[0]);
    assert("obs.exe"@[0] != "arma3.exe"@[0]);
    assert("obs.exe"@[0] != "discord.exe"@[0]);
    assert("obs.exe"@[0] != "ts3client_win64.exe"@[0]);
    assert("obs.exe"@[0] != "ts3client_win32.exe"@[0]);
    assert("obs.exe"@[0] != "spotify.exe"@[0]);
    assert("obs.exe"@[0] != "chrome.exe"@[0]);
    assert("obs.exe"@[0] != "firefox.exe"@[0]);
    assert("obs.exe"@[0] != "msedge.exe"@[0]);
    assert("obs.exe"@[3] != "obs64.exe"@[3]);
    assert("obs.exe"@[3] != "obs32.exe"@[3]);
    assert("steamwebhelper.exe"@[0] != "arma3_x64.exe"@[0]);
    assert("steamwebhelper.exe"@[0] != "arma3.exe"@[0]);
    assert("steamwebhelper.exe"@[0] != "discord.exe"@[0]);
    assert("steamwebhelper.exe"@[0] != "ts3client_win64.exe"@[0]);
    assert("steamwebhelper.exe"@[0] != "ts3client_win32.exe"@[0]);
    assert("steamwebhelper.exe"@[1] != "spotify.exe"@[1]);
    assert("steamwebhelper.exe"@[0] != "chrome.exe"@[0]);
    assert("steamwebhelper.exe"@[0] != "firefox.exe"@[0]);
    assert("steamwebhelper.exe"@[0] != "msedge.exe"@[0]);
    assert("steamwebhelper.exe"@[0] != "obs64.exe"@[0]);
    assert("steamwebhelper.exe"@[0] != "obs32.exe"@[0]);
    assert("steamwebhelper.exe"@[0] != "obs.exe"@[0]);
    assert("csgo.exe"@[0] != "arma3_x64.exe"@[0]);
    assert("csgo.exe"@[0] != "arma3.exe"@[0]);
    assert("csgo.exe"@[0] != "discord.exe"@[0]);
    assert("csgo.exe"@[0] != "ts3client_win64.exe"@[0]);
    assert("csgo.exe"@[0] != "ts3client_win32.exe"@[0]);
    assert("csgo.exe"@[0] != "spotify.exe"@[0]);
    assert("csgo.exe"@[1] != "chrome.exe"@[1]);
    assert("csgo.exe"@[0] != "firefox.exe"@[0]);
    assert("csgo.exe"@[0] != "msedge.exe"@[0]);
    assert("csgo.exe"@[0] != "obs64.exe"@[0]);
    assert("csgo.exe"@[0] != "obs32.exe"@[0]);
    assert("csgo.exe"@[0] != "obs.exe"@[0]);
    assert("csgo.exe"@[0] != "steamwebhelper.exe"@[0]);
    assert("cs2.exe"@[0] != "arma3_x64.exe"@[0]);
    assert("cs2.exe"@[0] != "arma3.exe"@[0]);
    assert("cs2.exe"@[0] != "discord.exe"@[0]);
    assert("cs2.exe"@[0] != "ts3client_win64.exe"@[0]);
    assert("cs2.exe"@[0] != "ts3client_win32.exe"@[0]);
    assert("cs2.exe"@[0] != "spotify.exe"@[0]);
    assert("cs2.exe"@[1] != "chrome.exe"@[1]);
    assert("cs2.exe"@[0] != "firefox.exe"@[0]);
    assert("cs2.exe"@[0] != "msedge.exe"@[0]);
    assert("cs2.exe"@[0] != "obs64.exe"@[0]);
    assert("cs2.exe"@[0] != "obs32.exe"@[0]);
    assert("cs2.exe"@[0] != "obs.exe"@[0]);
    assert("cs2.exe"@[0] != "steamwebhelper.exe"@[0]);
    assert("cs2.exe"@[2] != "csgo.exe"@[2]);
    assert("hl2.exe"@[0] != "arma3_x64.exe"@[0]);
    assert("hl2.exe"@[0] != "arma3.exe"@[0]);
    assert("hl2.exe"@[0] != "discord.exe"@[0]);
    assert("hl2.exe"@[0] != "ts3client_win64.exe"@[0]);
    assert("hl2.exe"@[0] != "ts3client_win32.exe"@[0]);
    assert("hl2.exe"@[0] != "spotify.exe"@[0]);
    assert("hl2.exe"@[0] != "chrome.exe"@[0]);
    assert("hl2.exe"@[0] != "firefox.exe"@[0]);
    assert("hl2.exe"@[0] != "msedge.exe"@[0]);
    assert("hl2.exe"@[0] != "obs64.exe"@[0]);
    assert("hl2.exe"@[0] != "obs32.exe"@[0]);
    assert("hl2.exe"@[0] != "obs.exe"@[0]);
    assert("hl2.exe"@[0] != "steamwebhelper.exe"@[0]);
    assert("hl2.exe"@[0] != "csgo.exe"@[0]);
    assert("hl2.exe"@[0] != "cs2.exe"@[0]);
}

/// Only the exes of the table are known apps; every other name is not.
pub proof fn lemma_only_listed_apps(e: Seq<char>)
    ensures
        spec_classify(e) is Some ==> (e == "arma3_x64.exe"@ || e == "arma3.exe"@ || e == "discord.exe"@ || e == "ts3client_win64.exe"@ || e == "ts3client_win32.exe"@ || e == "spotify.exe"@ || e == "chrome.exe"@ || e == "firefox.exe"@ || e == "msedge.exe"@ || e == "obs64.exe"@ || e == "obs32.exe"@ || e == "obs.exe"@ || e == "steamwebhelper.exe"@ || e == "csgo.exe"@ || e == "cs2.exe"@ || e == "hl2.exe"@),
{
}

/// A classification result as plain values.
pub open spec fn class_view(r: Option<(&'static str, SourceType)>) -> Option<(Seq<char>, SourceType)> {
    match r {
        Some((d, t)) => Some((d@, t)),
        None => None,
    }
}

/// The known app an already lower-cased exe name is, if any.
pub fn classify_lowered(e: &str) -> (r: Option<(&'static str, SourceType)>)
    ensures
        class_view(r) == spec_classify(e@),
{
    if str_eq(e, "arma3_x64.exe") || str_eq(e, "arma3.exe") {
        Some(("Arma 3", SourceType::Game))
    } else if str_eq(e, "discord.exe") {
        Some(("Discord", SourceType::Chat))
    } else if str_eq(e, "ts3client_win64.exe") || str_eq(e, "ts3client_win32.exe") {
        Some(("TeamSpeak 3", SourceType::Voice))
    } else if str_eq(e, "spotify.exe") {
        Some(("Spotify", SourceType::Music))
    } else if str_eq(e, "chrome.exe") {
        Some(("Chrome", SourceType::Browser))
    } else if str_eq(e, "firefox.exe") {
        Some(("Firefox", SourceType::Browser))
    } else if str_eq(e, "msedge.exe") {
        Some(("Edge", SourceType::Browser))
    } else if str_eq(e, "obs64.exe") || str_eq(e, "obs32.exe") || str_eq(e, "obs.exe") {
        Some(("OBS Studio", SourceType::Recording))
    } else if str_eq(e, "steamwebhelper.exe") {
        Some(("Steam", SourceType::System))
    } else if str_eq(e, "csgo.exe") || str_eq(e, "cs2.exe") {
        Some(("Counter-Strike", SourceType::Game))
    } else if str_eq(e, "hl2.exe") {
        Some(("Source Engine Game", SourceType::Game))
    } else {
        None
    }
}

/// The known app an exe is, matched without regard to case.
pub fn classify_exe(exe: &str) -> (r: Option<(&'static str, SourceType)>)
    ensures
        class_view(r) == spec_classify(lowercase_of(exe@)),
{
    let low = to_lowercase(exe);
    classify_lowered(low.as_str())
}

/// OS audio plumbing and shell processes: they hold a render session but
/// are never a user's source.
pub open spec fn spec_system_session_exe(e: Seq<char>) -> bool {
    ||| e == "svchost.exe"@
    ||| e == "audiodg.exe"@
    ||| e == "dwm.exe"@
    ||| e == "csrss.exe"@
    ||| e == "wininit.exe"@
    ||| e == "taskhostw.exe"@
    ||| e == "sihost.exe"@
    ||| e == "runtimebroker.exe"@
    ||| e == "ctfmon.exe"@
    ||| e == "explorer.exe"@
    ||| e == "searchhost.exe"@
    ||| e == "shellexperiencehost.exe"@
    ||| e == "startmenuexperiencehost.exe"@
    ||| e == "applicationframehost.exe"@
}

/// Is a lower-cased exe name OS plumbing?
pub fn is_system_session_exe(exe_lower: &str) -> (b: bool)
    ensures
        b == spec_system_session_exe(exe_lower@),
{
    str_eq(exe_lower, "svchost.exe") || str_eq(exe_lower, "audiodg.exe") || str_eq(
        exe_lower,
        "dwm.exe",
    ) || str_eq(exe_lower, "csrss.exe") || str_eq(exe_lower, "wininit.exe") || str_eq(
        exe_lower,
        "taskhostw.exe",
    ) || str_eq(exe_lower, "sihost.exe") || str_eq(exe_lower, "runtimebroker.exe") || str_eq(
        exe_lower,
        "ctfmon.exe",
    ) || str_eq(exe_lower, "explorer.exe") || str_eq(exe_lower, "searchhost.exe") || str_eq(
        exe_lower,
        "shellexperiencehost.exe",
    ) || str_eq(exe_lower, "startmenuexperiencehost.exe") || str_eq(
        exe_lower,
        "applicationframehost.exe",
    )
}

/// The display name of an unknown app: its exe name without a trailing
/// ".exe" (in any case).
pub open spec fn spec_pretty_exe_name(exe: Seq<char>, low: Seq<char>) -> Seq<char> {
    if ends_with_seq(low, ".exe"@) && exe.len() >= 4 {
        exe.take(exe.len() - 4)
    } else {
        exe
    }
}

/// The display name of an unknown app, given its exe name lower-cased.
pub fn pretty_name_lowered(exe: &str, lowered: &str) -> (s: String)
    ensures
        s@ == spec_pretty_exe_name(exe@, lowered@),
{
    let l = chars_of(lowered);
    let ends = if l.len() >= 4 {
        let n = l.len();
        let ok = l[n - 4] == '.' && l[n - 3] == 'e' && l[n - 2] == 'x' && l[n - 1] == 'e';
        proof {
            reveal_strlit(".exe");
            let sub = l@.subrange(n - 4, n as int);
            if ok {
                assert(sub =~= ".exe"@);
            } else if sub == ".exe"@ {
                assert(sub[0] == '.' && sub[1] == 'e' && sub[2] == 'x' && sub[3] == 'e');
            }
        }
        ok
    } else {
        proof {
            reveal_strlit(".exe");
        }
        false
    };
    let c = chars_of(exe);
    if ends && c.len() >= 4 {
        let mut s = String::new();
        let mut i: usize = 0;
        let stop = c.len() - 4;
        while i < stop
            invariant
                stop == c@.len() - 4,
                i <= stop,
                s@ == c@.take(i as int),
            decreases stop - i,
        {
            crate::text::push_char(&mut s, c[i]);
            assert(s@ =~= c@.take(i + 1));
            i += 1;
        }
        s
    } else {
        String::from_str(exe)
    }
}

/// The display name of an unknown app: its exe name without ".exe".
pub fn pretty_exe_name(exe: &str) -> (s: String)
    ensures
        s@ == spec_pretty_exe_name(exe@, lowercase_of(exe@)),
{
    let low = to_lowercase(exe);
    pretty_name_lowered(exe, low.as_str())
}

// ── Selecting from the system's process list ─────────────────────────────────

/// A process as plain values: exe name, pid, display name, kind, icon.
pub open spec fn process_view(p: AudioProcess) -> (Seq<char>, u32, Seq<char>, SourceType, Option<Seq<char>>) {
    (p.exe_name@, p.pid, p.display_name@, p.source_type, opt_view(&p.icon))
}

/// The process an entry stands for, given its exe name lower-cased: a known
/// app under its name and kind, any other under its tidied exe name as
/// `Unknown`; no icon yet.
pub open spec fn entry_process(exe: Seq<char>, pid: u32, low: Seq<char>) -> (Seq<char>, u32, Seq<char>, SourceType, Option<Seq<char>>) {
    match spec_classify(low) {
        Some((n, t)) => (exe, pid, n, t, None),
        None => (exe, pid, spec_pretty_exe_name(exe, low), SourceType::Unknown, None),
    }
}

/// The exe names of the entries, lower-cased.
pub open spec fn entry_lows(entries: Seq<(String, u32)>) -> Seq<Seq<char>> {
    Seq::new(entries.len(), |i: int| lowercase_of(entries[i].0@))
}

/// Entry `i` is shown (see `spec_shown`).
pub open spec fn entry_shown(entries: Seq<(String, u32)>, audio: Seq<u32>, own: u32, i: int) -> bool {
    spec_shown(entry_lows(entries)[i], entries[i].1, audio, own)
}

/// Entry `i` is listed: it is shown, and no earlier shown entry has the same
/// exe name (matched without case) — the first one seen wins.
pub open spec fn listed(entries: Seq<(String, u32)>, audio: Seq<u32>, own: u32, i: int) -> bool {
    &&& entry_shown(entries, audio, own, i)
    &&& forall|j: int|
        0 <= j < i && #[trigger] entry_shown(entries, audio, own, j) ==> entry_lows(entries)[j] != entry_lows(entries)[i]
}

/// `out` lists the listed entries (`origin` says which entry each came
/// from), each once, ordered by display name; equal names keep the order
/// of the system's list.
pub open spec fn selection_is(entries: Seq<(String, u32)>, audio: Seq<u32>, own: u32, origin: Seq<int>, out: Seq<AudioProcess>) -> bool {
    &&& origin.len() == out.len()
    &&& forall|k: int|
        0 <= k < origin.len() ==> 0 <= #[trigger] origin[k] < entries.len() && listed(entries, audio, own, origin[k])
            && process_view(out[k]) == entry_process(
            entries[origin[k]].0@,
            entries[origin[k]].1,
            entry_lows(entries)[origin[k]],
        )
    &&& forall|i: int| 0 <= i < entries.len() && #[trigger] listed(entries, audio, own, i) ==> origin.contains(i)
    &&& forall|a: int, c: int| 0 <= a < c < origin.len() ==> origin[a] != origin[c]
    &&& forall|a: int, c: int| 0 <= a < c < out.len() ==> !str_lt(out[c].display_name@, out[a].display_name@)
    &&& forall|a: int, c: int|
        0 <= a < c < out.len() && out[a].display_name@ == out[c].display_name@ ==> origin[a] < origin[c]
}

/// The process for one entry, given its exe name lower-cased.
fn make_process(exe: &String, pid: u32, low: &str) -> (p: AudioProcess)
    ensures
        process_view(p) == entry_process(exe@, pid, low@),
{
    match classify_lowered(low) {
        Some((name, t)) => AudioProcess {
            exe_name: exe.clone(),
            pid,
            display_name: String::from_str(name),
            source_type: t,
            icon: None,
        },
        None => AudioProcess {
            exe_name: exe.clone(),
            pid,
            display_name: pretty_name_lowered(exe.as_str(), low),
            source_type: SourceType::Unknown,
            icon: None,
        },
    }
}

/// Is `key` among `keys`?
fn has_key(keys: &Vec<String>, key: &str) -> (b: bool)
    ensures
        b == exists|j: int| 0 <= j < keys@.len() && (#[trigger] keys@[j])@ == key@,
{
    let mut j: usize = 0;
    while j < keys.len()
        invariant
            j <= keys@.len(),
            forall|t: int| 0 <= t < j ==> (#[trigger] keys@[t])@ != key@,
        decreases keys@.len() - j,
    {
        if str_eq(keys[j].as_str(), key) {
            return true;
        }
        j += 1;
    }
    false
}

/// The listed entries, in the order of the system's list.
fn listed_in_order(entries: &[(String, u32)], audio_pids: &[u32], own_pid: u32) -> (r: (Vec<AudioProcess>, Ghost<Seq<int>>))
    ensures
        r.1@.len() == r.0@.len(),
        forall|k: int|
            0 <= k < r.1@.len() ==> 0 <= #[trigger] r.1@[k] < entries@.len() && listed(entries@, audio_pids@, own_pid, r.1@[k])
                && process_view(r.0@[k]) == entry_process(
                entries@[r.1@[k]].0@,
                entries@[r.1@[k]].1,
                entry_lows(entries@)[r.1@[k]],
            ),
        forall|i: int| 0 <= i < entries@.len() && #[trigger] listed(entries@, audio_pids@, own_pid, i) ==> r.1@.contains(i),
        forall|a: int, c: int| 0 <= a < c < r.1@.len() ==> r.1@[a] < r.1@[c],
{
    let ghost es = entries@;
    let ghost lows = entry_lows(es);
    let mut out: Vec<AudioProcess> = Vec::new();
    let mut seen: Vec<String> = Vec::new();
    let ghost mut origin: Seq<int> = Seq::empty();
    let mut i: usize = 0;
    while i < entries.len()
        invariant
            es == entries@,
            lows == entry_lows(es),
            i <= es.len(),
            origin.len() == out@.len(),
            seen@.len() == out@.len(),
            forall|k: int|
                0 <= k < origin.len() ==> 0 <= #[trigger] origin[k] < i && listed(es, audio_pids@, own_pid, origin[k])
                    && process_view(out@[k]) == entry_process(es[origin[k]].0@, es[origin[k]].1, lows[origin[k]])
                    && seen@[k]@ == lows[origin[k]],
            forall|x: int| 0 <= x < i && #[trigger] listed(es, audio_pids@, own_pid, x) ==> origin.contains(x),
            forall|x: int|
                0 <= x < i && #[trigger] entry_shown(es, audio_pids@, own_pid, x) ==> exists|k: int|
                    0 <= k < seen@.len() && (#[trigger] seen@[k])@ == lows[x],
            forall|a: int, c: int| 0 <= a < c < origin.len() ==> origin[a] < origin[c],
        decreases es.len() - i,
    {
        let exe = &entries[i].0;
        let pid = entries[i].1;
        let low = to_lowercase(exe.as_str());
        assert(low@ == lows[i as int]);
        let shown = is_shown(low.as_str(), pid, audio_pids, own_pid);
        assert(shown == entry_shown(es, audio_pids@, own_pid, i as int));
        let dup = has_key(&seen, low.as_str());
        proof {
            if shown && !dup {
                assert forall|j: int| 0 <= j < i && #[trigger] entry_shown(es, audio_pids@, own_pid, j) implies lows[j] != lows[i as int] by {
                    let k = choose|k: int| 0 <= k < seen@.len() && (#[trigger] seen@[k])@ == lows[j];
                }
                assert(listed(es, audio_pids@, own_pid, i as int));
            }
            if dup {
                let k = choose|k: int| 0 <= k < seen@.len() && (#[trigger] seen@[k])@ == low@;
                assert(entry_shown(es, audio_pids@, own_pid, origin[k]));
                assert(origin[k] < i);
                assert(!listed(es, audio_pids@, own_pid, i as int));
            }
        }
        if shown && !dup {
            let p = make_process(exe, pid, low.as_str());
            let ghost o0 = origin;
            let ghost s0 = seen@;
            out.push(p);
            seen.push(low);
            proof {
                origin = origin.push(i as int);
                assert forall|x: int| 0 <= x < i + 1 && #[trigger] listed(es, audio_pids@, own_pid, x) implies origin.contains(x) by {
                    if x < i {
                        let k = choose|k: int| 0 <= k < o0.len() && o0[k] == x;
                        assert(origin[k] == x);
                    } else {
                        assert(origin[origin.len() - 1] == x);
                    }
                }
                assert forall|x: int| 0 <= x < i + 1 && #[trigger] entry_shown(es, audio_pids@, own_pid, x) implies exists|k: int|
                    0 <= k < seen@.len() && (#[trigger] seen@[k])@ == lows[x] by {
                    if x < i {
                        let k = choose|k: int| 0 <= k < s0.len() && (#[trigger] s0[k])@ == lows[x];
                        assert(seen@[k] == s0[k]);
                    } else {
                        assert(seen@[seen@.len() - 1]@ == lows[x]);
                    }
                }
            }
        } else {
            proof {
                assert forall|x: int| 0 <= x < i + 1 && #[trigger] entry_shown(es, audio_pids@, own_pid, x) implies exists|k: int|
                    0 <= k < seen@.len() && (#[trigger] seen@[k])@ == lows[x] by {
                    if x == i {
                        let k = choose|k: int| 0 <= k < seen@.len() && (#[trigger] seen@[k])@ == low@;
                    }
                }
            }
        }
        i += 1;
    }
    (out, Ghost(origin))
}

/// A copy of `p`, field for field.
fn clone_process(p: &AudioProcess) -> (q: AudioProcess)
    ensures
        process_view(q) == process_view(*p),
{
    let icon = match &p.icon {
        Some(u) => Some(u.clone()),
        None => None,
    };
    AudioProcess {
        exe_name: p.exe_name.clone(),
        pid: p.pid,
        display_name: p.display_name.clone(),
        source_type: p.source_type,
        icon,
    }
}

/// Ordered by display name, equal names by origin.
pub open spec fn sorted_stable(out: Seq<AudioProcess>, origin: Seq<int>) -> bool {
    &&& forall|a: int, c: int| 0 <= a < c < out.len() ==> !str_lt(out[c].display_name@, out[a].display_name@)
    &&& forall|a: int, c: int|
        0 <= a < c < out.len() && out[a].display_name@ == out[c].display_name@ ==> origin[a] < origin[c]
}

/// Inserting a process with a later origin before the first name that sorts
/// after its own keeps the order stable.
proof fn lemma_insert_sorted(out: Seq<AudioProcess>, origin: Seq<int>, x: AudioProcess, ox: int, pos: int)
    requires
        origin.len() == out.len(),
        sorted_stable(out, origin),
        forall|q: int| 0 <= q < origin.len() ==> origin[q] < ox,
        0 <= pos <= out.len(),
        forall|t: int| 0 <= t < pos ==> !str_lt(x.display_name@, (#[trigger] out[t]).display_name@),
        pos < out.len() ==> str_lt(x.display_name@, out[pos].display_name@),
    ensures
        sorted_stable(out.insert(pos, x), origin.insert(pos, ox)),
{
    let o2 = out.insert(pos, x);
    let g2 = origin.insert(pos, ox);
    out.insert_ensures(pos, x);
    origin.insert_ensures(pos, ox);
    // everything after the insertion point sorts strictly after x
    assert forall|c: int| pos <= c < out.len() implies str_lt(x.display_name@, (#[trigger] out[c]).display_name@) by {
        if c > pos {
            assert(!str_lt(out[c].display_name@, out[pos].display_name@));
            lemma_str_lt_total(out[c].display_name@, out[pos].display_name@);
            if out[c].display_name@ != out[pos].display_name@ {
                lemma_str_lt_trans(x.display_name@, out[pos].display_name@, out[c].display_name@);
            }
        }
    }
    assert forall|a: int, c: int| 0 <= a < c < o2.len() implies !str_lt(o2[c].display_name@, o2[a].display_name@) by {
        if c < pos {
        } else if c == pos {
            assert(o2[a] == out[a]);
        } else if a < pos {
            assert(o2[c] == out[c - 1]);
            assert(o2[a] == out[a]);
        } else if a == pos {
            assert(o2[c] == out[c - 1]);
            assert(str_lt(x.display_name@, out[c - 1].display_name@));
            lemma_str_lt_total(x.display_name@, out[c - 1].display_name@);
        } else {
            assert(o2[c] == out[c - 1]);
            assert(o2[a] == out[a - 1]);
        }
    }
    assert forall|a: int, c: int| 0 <= a < c < o2.len() && o2[a].display_name@ == o2[c].display_name@ implies g2[a]
        < g2[c] by {
        if c < pos {
        } else if c == pos {
            assert(g2[a] == origin[a]);
        } else if a < pos {
            assert(o2[c] == out[c - 1] && g2[c] == origin[c - 1]);
            assert(o2[a] == out[a] && g2[a] == origin[a]);
        } else if a == pos {
            assert(o2[c] == out[c - 1]);
            assert(str_lt(x.display_name@, out[c - 1].display_name@));
            lemma_str_lt_total(x.display_name@, out[c - 1].display_name@);
        } else {
            assert(o2[c] == out[c - 1] && g2[c] == origin[c - 1]);
            assert(o2[a] == out[a - 1] && g2[a] == origin[a - 1]);
        }
    }
}

/// The origin of the next listed entry to insert (past every entry when
/// none is left).
pub open spec fn next_origin(lorigin: Seq<int>, k: int, n: int) -> int {
    if k < lorigin.len() {
        lorigin[k]
    } else {
        n
    }
}

/// The bookkeeping of one insertion step of the selection.
proof fn lemma_insert_keeps(
    es: Seq<(String, u32)>,
    audio: Seq<u32>,
    own: u32,
    lorigin: Seq<int>,
    procs: Seq<AudioProcess>,
    o0: Seq<int>,
    out0: Seq<AudioProcess>,
    x: AudioProcess,
    pos: int,
    k: int,
)
    requires
        0 <= k < lorigin.len(),
        lorigin.len() == procs.len(),
        forall|q: int|
            0 <= q < lorigin.len() ==> 0 <= #[trigger] lorigin[q] < es.len() && listed(es, audio, own, lorigin[q])
                && process_view(procs[q]) == entry_process(es[lorigin[q]].0@, es[lorigin[q]].1, entry_lows(es)[lorigin[q]]),
        forall|a: int, c: int| 0 <= a < c < lorigin.len() ==> lorigin[a] < lorigin[c],
        process_view(x) == process_view(procs[k]),
        o0.len() == out0.len(),
        out0.len() == k,
        0 <= pos <= out0.len(),
        forall|q: int|
            0 <= q < o0.len() ==> 0 <= #[trigger] o0[q] < es.len() && listed(es, audio, own, o0[q])
                && process_view(out0[q]) == entry_process(es[o0[q]].0@, es[o0[q]].1, entry_lows(es)[o0[q]]),
        forall|t: int| 0 <= t < k ==> o0.contains(#[trigger] lorigin[t]),
        forall|q: int| 0 <= q < o0.len() ==> #[trigger] o0[q] < next_origin(lorigin, k, es.len() as int),
        forall|a: int, c: int| 0 <= a < c < o0.len() ==> o0[a] != o0[c],
    ensures
        ({
            let origin = o0.insert(pos, lorigin[k]);
            let out = out0.insert(pos, x);
            &&& origin.len() == out.len()
            &&& out.len() == k + 1
            &&& forall|q: int|
                0 <= q < origin.len() ==> 0 <= #[trigger] origin[q] < es.len() && listed(es, audio, own, origin[q])
                    && process_view(out[q]) == entry_process(es[origin[q]].0@, es[origin[q]].1, entry_lows(es)[origin[q]])
            &&& forall|t: int| 0 <= t < k + 1 ==> origin.contains(#[trigger] lorigin[t])
            &&& forall|q: int| 0 <= q < origin.len() ==> #[trigger] origin[q] < next_origin(lorigin, k + 1, es.len() as int)
            &&& forall|a: int, c: int| 0 <= a < c < origin.len() ==> origin[a] != origin[c]
        }),
{
    let ox = lorigin[k];
    let origin = o0.insert(pos, ox);
    let out = out0.insert(pos, x);
    out0.insert_ensures(pos, x);
    o0.insert_ensures(pos, ox);
    assert forall|j: int| 0 <= j < o0.len() implies o0[j] < ox by {
        assert(o0[j] < next_origin(lorigin, k, es.len() as int));
    }
    if k + 1 < lorigin.len() {
        assert(ox < lorigin[k + 1]);
    }
    assert forall|qq: int| 0 <= qq < origin.len() implies 0 <= #[trigger] origin[qq] < es.len() && listed(es, audio, own, origin[qq])
        && process_view(out[qq]) == entry_process(es[origin[qq]].0@, es[origin[qq]].1, entry_lows(es)[origin[qq]]) by {
        if qq < pos {
            assert(origin[qq] == o0[qq] && out[qq] == out0[qq]);
        } else if qq == pos {
        } else {
            assert(origin[qq] == o0[qq - 1] && out[qq] == out0[qq - 1]);
        }
    }
    assert forall|t: int| 0 <= t < k + 1 implies origin.contains(#[trigger] lorigin[t]) by {
        if t < k {
            let j = choose|j: int| 0 <= j < o0.len() && o0[j] == lorigin[t];
            if j < pos {
                assert(origin[j] == lorigin[t]);
            } else {
                assert(origin[j + 1] == lorigin[t]);
            }
        } else {
            assert(origin[pos] == lorigin[t]);
        }
    }
    assert forall|qq: int| 0 <= qq < origin.len() implies #[trigger] origin[qq] < next_origin(lorigin, k + 1, es.len() as int) by {
        if qq < pos {
            assert(origin[qq] == o0[qq]);
        } else if qq == pos {
            assert(lorigin[k] == origin[qq]);
        } else {
            assert(origin[qq] == o0[qq - 1]);
        }
    }
    assert forall|a: int, c: int| 0 <= a < c < origin.len() implies origin[a] != origin[c] by {
        if a != pos && c != pos {
            let aa = if a < pos { a } else { a - 1 };
            let cc = if c < pos { c } else { c - 1 };
            assert(origin[a] == o0[aa] && origin[c] == o0[cc]);
        } else if a == pos {
            let cc = c - 1;
            assert(origin[c] == o0[cc]);
        } else {
            assert(origin[a] == o0[a]);
        }
    }
}

/// Select the processes to show from the system's process list (`entries`:
/// exe name and pid, in the system's order): the known apps, and the apps
/// holding a render session (`audio_pids`) that are neither this app
/// (`own_pid`) nor OS plumbing; one per exe name (the first seen), ordered
/// by display name. Icons are added by the caller.
pub fn select_audio_processes(entries: &[(String, u32)], audio_pids: &[u32], own_pid: u32) -> (out: Vec<AudioProcess>)
    ensures
        exists|origin: Seq<int>| selection_is(entries@, audio_pids@, own_pid, origin, out@),
{
    let (listed_procs, Ghost(lorigin)) = listed_in_order(entries, audio_pids, own_pid);
    let ghost es = entries@;
    let mut out: Vec<AudioProcess> = Vec::new();
    let ghost mut origin: Seq<int> = Seq::empty();
    let mut k: usize = 0;
    while k < listed_procs.len()
        invariant
            es == entries@,
            k <= listed_procs@.len(),
            lorigin.len() == listed_procs@.len(),
            forall|q: int|
                0 <= q < lorigin.len() ==> 0 <= #[trigger] lorigin[q] < es.len() && listed(es, audio_pids@, own_pid, lorigin[q])
                    && process_view(listed_procs@[q]) == entry_process(es[lorigin[q]].0@, es[lorigin[q]].1, entry_lows(es)[lorigin[q]]),
            forall|a: int, c: int| 0 <= a < c < lorigin.len() ==> lorigin[a] < lorigin[c],
            forall|i: int| 0 <= i < es.len() && #[trigger] listed(es, audio_pids@, own_pid, i) ==> lorigin.contains(i),
            origin.len() == out@.len(),
            out@.len() == k,
            forall|q: int|
                0 <= q < origin.len() ==> 0 <= #[trigger] origin[q] < es.len() && listed(es, audio_pids@, own_pid, origin[q])
                    && process_view(out@[q]) == entry_process(es[origin[q]].0@, es[origin[q]].1, entry_lows(es)[origin[q]]),
            forall|t: int| 0 <= t < k ==> origin.contains(#[trigger] lorigin[t]),
            forall|q: int| 0 <= q < origin.len() ==> #[trigger] origin[q] < next_origin(lorigin, k as int, es.len() as int),
            forall|a: int, c: int| 0 <= a < c < origin.len() ==> origin[a] != origin[c],
            sorted_stable(out@, origin),
        decreases listed_procs@.len() - k,
    {
        let p = &listed_procs[k];
        let mut pos: usize = 0;
        while pos < out.len() && !str_less(p.display_name.as_str(), out[pos].display_name.as_str())
            invariant
                pos <= out@.len(),
                forall|t: int| 0 <= t < pos ==> !str_lt(p.display_name@, (#[trigger] out@[t]).display_name@),
            decreases out@.len() - pos,
        {
            pos += 1;
        }
        let ghost o0 = origin;
        let ghost out0 = out@;
        let ghost ox = lorigin[k as int];
        let q = clone_process(p);
        proof {
            assert forall|j: int| 0 <= j < o0.len() implies o0[j] < ox by {
                assert(o0[j] < next_origin(lorigin, k as int, es.len() as int));
            }
            lemma_insert_sorted(out0, o0, q, ox, pos as int);
        }
        proof {
            lemma_insert_keeps(es, audio_pids@, own_pid, lorigin, listed_procs@, origin, out0, q, pos as int, k as int);
        }
        out.insert(pos, q);
        proof {
            origin = o0.insert(pos as int, ox);
        }
        k += 1;
    }
    proof {
        assert forall|i: int| 0 <= i < es.len() && #[trigger] listed(es, audio_pids@, own_pid, i) implies origin.contains(i) by {
            let t = choose|t: int| 0 <= t < lorigin.len() && lorigin[t] == i;
            assert(origin.contains(lorigin[t]));
        }
        assert(selection_is(es, audio_pids@, own_pid, origin, out@));
    }
    out
}

/// The processes this build can see: none, where there is no process list
/// to read.
pub fn detect_audio_processes() -> (r: Result<Vec<AudioProcess>, DetectionError>)
    ensures
        r matches Ok(v) && v@.len() == 0,
{
    Ok(Vec::new())
}

/// Is `pid` among `pids`?
pub fn has_pid(pids: &[u32], pid: u32) -> (b: bool)
    ensures
        b == pids@.contains(pid),
{
    let mut i: usize = 0;
    while i < pids.len()
        invariant
            i <= pids@.len(),
            forall|j: int| 0 <= j < i ==> pids@[j] != pid,
        decreases pids@.len() - i,
    {
        if pids[i] == pid {
            return true;
        }
        i += 1;
    }
    false
}

/// Whether a running process is shown: a known app, or one holding a render
/// session that is neither this app nor OS plumbing.
pub open spec fn spec_shown(low: Seq<char>, pid: u32, audio_pids: Seq<u32>, own_pid: u32) -> bool {
    spec_classify(low) is Some || (audio_pids.contains(pid) && pid != own_pid
        && !spec_system_session_exe(low))
}

/// Whether a running process with lower-cased exe name `lowered` is shown.
pub fn is_shown(lowered: &str, pid: u32, audio_pids: &[u32], own_pid: u32) -> (b: bool)
    ensures
        b == spec_shown(lowered@, pid, audio_pids@, own_pid),
{
    match classify_lowered(lowered) {
        Some(_) => true,
        None => has_pid(audio_pids, pid) && pid != own_pid && !is_system_session_exe(lowered),
    }
}

/// The set of pids a process list holds.
pub open spec fn pid_set(ps: Seq<AudioProcess>) -> Set<u32> {
    Set::new(|p: u32| exists|i: int| 0 <= i < ps.len() && ps[i].pid == p)
}

/// The detector's change test: the pids now listed differ, as a set, from
/// the ones it knew.
pub fn pids_changed(known: &[u32], procs: &[AudioProcess]) -> (b: bool)
    ensures
        b == (known@.to_set() != pid_set(procs@)),
{
    let mut i: usize = 0;
    while i < procs.len()
        invariant
            i <= procs@.len(),
            forall|j: int| 0 <= j < i ==> known@.contains(#[trigger] procs@[j].pid),
        decreases procs@.len() - i,
    {
        if !has_pid(known, procs[i].pid) {
            assert(!known@.to_set().contains(procs@[i as int].pid));
            assert(pid_set(procs@).contains(procs@[i as int].pid));
            return true;
        }
        i += 1;
    }
    let mut k: usize = 0;
    while k < known.len()
        invariant
            k <= known@.len(),
            forall|j: int| 0 <= j < procs@.len() ==> known@.contains(#[trigger] procs@[j].pid),
            forall|j: int| 0 <= j < k ==> pid_set(procs@).contains(#[trigger] known@[j]),
        decreases known@.len() - k,
    {
        let p = known[k];
        let mut found = false;
        let mut m: usize = 0;
        while m < procs.len()
            invariant
                m <= procs@.len(),
                found ==> pid_set(procs@).contains(p),
                !found ==> forall|j: int| 0 <= j < m ==> procs@[j].pid != p,
            decreases procs@.len() - m,
        {
            if procs[m].pid == p {
                found = true;
                assert(pid_set(procs@).contains(p));
            }
            m += 1;
        }
        if !found {
            assert(known@.to_set().contains(p));
            assert(!pid_set(procs@).contains(p));
            return true;
        }
        k += 1;
    }
    assert(known@.to_set() =~= pid_set(procs@)) by {
        assert forall|p: u32| known@.to_set().contains(p) implies pid_set(procs@).contains(p) by {
            let j = choose|j: int| 0 <= j < known@.len() && known@[j] == p;
            assert(pid_set(procs@).contains(known@[j]));
        }
        assert forall|p: u32| pid_set(procs@).contains(p) implies known@.to_set().contains(p) by {
            let j = choose|j: int| 0 <= j < procs@.len() && procs@[j].pid == p;
            assert(known@.contains(procs@[j].pid));
        }
    }
    false
}

/// Background detector state: the pids of the last list, and whether the
/// poller runs.
pub struct ProcessDetector {
    pub known: Vec<u32>,
    pub running: bool,
}

impl ProcessDetector {
    /// A stopped detector that knows no pid.
    pub fn new() -> (d: Self)
        ensures
            d.known@.len() == 0,
            !d.running,
    {
        ProcessDetector { known: Vec::new(), running: false }
    }

    /// Start the poller; `false` when it already runs (nothing changes).
    pub fn begin(&mut self) -> (started: bool)
        ensures
            started == !old(self).running,
            final(self).running,
            final(self).known == old(self).known,
    {
        if self.running {
            return false;
        }
        self.running = true;
        true
    }

    /// One poll: adopt the new list's pids and report whether they changed
    /// (the caller then notifies with the list).
    pub fn observe(&mut self, procs: &[AudioProcess]) -> (changed: bool)
        ensures
            changed == (old(self).known@.to_set() != pid_set(procs@)),
            final(self).running == old(self).running,
            changed ==> final(self).known@.to_set() == pid_set(procs@),
            !changed ==> final(self).known == old(self).known,
    {
        if pids_changed(self.known.as_slice(), procs) {
            let mut v: Vec<u32> = Vec::new();
            let mut i: usize = 0;
            while i < procs.len()
                invariant
                    i <= procs@.len(),
                    v@.len() == i,
                    forall|j: int| 0 <= j < i ==> v@[j] == #[trigger] procs@[j].pid,
                decreases procs@.len() - i,
            {
                v.push(procs[i].pid);
                i += 1;
            }
            assert(v@.to_set() =~= pid_set(procs@)) by {
                assert forall|p: u32| v@.to_set().contains(p) implies pid_set(procs@).contains(p) by {
                    let j = choose|j: int| 0 <= j < v@.len() && v@[j] == p;
                    assert(procs@[j].pid == p);
                }
                assert forall|p: u32| pid_set(procs@).contains(p) implies v@.to_set().contains(p) by {
                    let j = choose|j: int| 0 <= j < procs@.len() && procs@[j].pid == p;
                    assert(v@[j] == p);
                }
            }
            self.known = v;
            true
        } else {
            false
        }
    }

    /// Ask the poller to stop.
    pub fn stop(&mut self)
        ensures
            !final(self).running,
            final(self).known == old(self).known,
    {
        self.running = false;
    }
}

} // verus!
