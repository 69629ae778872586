use nodus::process::{
    classify_exe, detect_audio_processes, is_shown, pids_changed, pretty_exe_name, select_audio_processes, AudioProcess,
    DetectionError, ProcessDetector, SourceType,
};

fn proc_with(pid: u32) -> AudioProcess {
    AudioProcess {
        exe_name: "a.exe".to_string(),
        pid,
        display_name: "A".to_string(),
        source_type: SourceType::Unknown,
        icon: None,
    }
}

#[test]
fn known_exe_classified_correctly() {
    let (name, kind) = classify_exe("arma3_x64.exe").unwrap();
    assert_eq!(name, "Arma 3");
    assert_eq!(kind, SourceType::Game);

    let (name, kind) = classify_exe("discord.exe").unwrap();
    assert_eq!(name, "Discord");
    assert_eq!(kind, SourceType::Chat);

    let (name, kind) = classify_exe("spotify.exe").unwrap();
    assert_eq!(kind, SourceType::Music);
    let _ = name;
}

#[test]
fn unknown_exe_returns_none() {
    assert!(classify_exe("notepad.exe").is_none());
    assert!(classify_exe("explorer.exe").is_none());
}

#[test]
fn exe_classification_case_insensitive() {
    assert!(classify_exe("Discord.exe").is_some());
    assert!(classify_exe("ARMA3_X64.EXE").is_some());
}

#[test]
fn detect_returns_vec_on_windows() {
    let result = detect_audio_processes();
    assert!(result.is_ok());
}

#[test]
fn unknown_apps_get_a_tidy_name() {
    assert_eq!(pretty_exe_name("obs64.EXE"), "obs64");
    assert_eq!(pretty_exe_name("tool"), "tool");
}

#[test]
fn shown_processes() {
    assert!(is_shown("discord.exe", 10, &[], 1));
    assert!(is_shown("foo.exe", 10, &[10], 1));
    assert!(!is_shown("foo.exe", 1, &[1], 1));
    assert!(!is_shown("foo.exe", 10, &[], 1));
}

#[test]
fn detector_reports_changes_of_the_pid_set() {
    let mut d = ProcessDetector::new();
    assert!(d.begin());
    assert!(!d.begin());
    assert!(d.observe(&[proc_with(3), proc_with(4)]));
    assert!(!d.observe(&[proc_with(4), proc_with(3)]));
    assert!(pids_changed(&d.known, &[proc_with(3)]));
    d.stop();
    assert!(!d.running);
}

fn entry(exe: &str, pid: u32) -> (String, u32) {
    (exe.to_string(), pid)
}

#[test]
fn selection_keeps_known_apps_and_session_holders_once_by_name() {
    let entries = vec![
        entry("svchost.exe", 4),
        entry("Spotify.exe", 20),
        entry("spotify.exe", 21),
        entry("game.exe", 30),
        entry("discord.exe", 40),
        entry("notepad.exe", 50),
        entry("nodus.exe", 60),
    ];
    let procs = select_audio_processes(&entries, &[4, 30, 60], 60);
    let names: Vec<&str> = procs.iter().map(|p| p.display_name.as_str()).collect();
    assert_eq!(names, vec!["Discord", "Spotify", "game"]);
    assert_eq!(procs[1].pid, 20, "the first seen pid of an exe wins");
    assert_eq!(procs[1].exe_name, "Spotify.exe");
    assert_eq!(procs[2].source_type, SourceType::Unknown);
    assert!(procs.iter().all(|p| p.icon.is_none()));
}

#[test]
fn equal_names_keep_the_system_order() {
    let entries = vec![entry("cs2.exe", 7), entry("csgo.exe", 3)];
    let procs = select_audio_processes(&entries, &[], 1);
    assert_eq!(procs.len(), 2);
    assert_eq!(procs[0].exe_name, "cs2.exe");
    assert_eq!(procs[1].exe_name, "csgo.exe");
}

#[test]
fn detection_errors_read_like_the_system() {
    assert_eq!(
        DetectionError::SnapshotFailed("denied".to_string()).message(),
        "failed to create process snapshot: denied"
    );
}
