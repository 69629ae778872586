use nodus::session::{
    device_for_pids, find_audio_pid_for_exe, get_device_capture_format, matching_pids, pick_audio_pid, SessionError,
};

#[test]
fn pids_of_an_exe_in_list_order_without_repeats() {
    let names = vec!["a.exe".to_string(), "b.exe".to_string(), "a.exe".to_string(), "a.exe".to_string()];
    assert_eq!(matching_pids(&names, &[10, 11, 12, 10], "a.exe"), vec![10, 12]);
    assert!(matching_pids(&names, &[10, 11, 12, 10], "c.exe").is_empty());
}

#[test]
fn the_pid_holding_a_session_wins() {
    assert_eq!(pick_audio_pid("a.exe", &[10, 12], &[5, 12, 10]).unwrap(), 12);
    assert_eq!(pick_audio_pid("a.exe", &[10, 12], &[5]).unwrap(), 10);
    match pick_audio_pid("a.exe", &[], &[5]) {
        Err(SessionError::DeviceUnavailable(m)) => assert_eq!(m, "a.exe not running"),
        other => panic!("unexpected {other:?}"),
    }
}

#[test]
fn process_capture_is_unavailable_off_windows() {
    assert!(matches!(find_audio_pid_for_exe("a.exe"), Err(SessionError::DeviceUnavailable(_))));
    assert!(get_device_capture_format("dev").is_ok());
}

#[test]
fn the_device_of_the_first_session_an_app_holds() {
    let sessions = vec![("dev-a".to_string(), 7u32), ("dev-b".to_string(), 42u32), ("dev-c".to_string(), 43u32)];
    assert_eq!(device_for_pids("spotify.exe", &[43, 42], &sessions).expect("found"), "dev-b");
    match device_for_pids("spotify.exe", &[], &sessions) {
        Err(SessionError::DeviceUnavailable(m)) => assert_eq!(m, "spotify.exe not running"),
        other => panic!("expected not running, got {other:?}"),
    }
    match device_for_pids("spotify.exe", &[1, 2, 3], &sessions) {
        Err(SessionError::DeviceUnavailable(m)) => {
            assert_eq!(m, "no active audio session for spotify.exe (checked 3 pids)")
        }
        other => panic!("expected no session, got {other:?}"),
    }
}
