use std::time::Duration;

use nodus::settings::{
    authorized, autostart_change, bind_address, daemon_token, normalised, token_required, Settings,
};

#[test]
fn defaults_are_sane() {
    let s = Settings::default();
    assert!(s.vu_enabled);
    assert_eq!(s.vu_interval(), Duration::from_millis(1000 / 15));
    assert_eq!(s.scan_interval(), Duration::from_secs(2));
    assert!(!s.server_lan);
    assert!(s.close_to_tray);
}

#[test]
fn vu_interval_clamps() {
    let mut s = Settings::default();
    s.vu_fps = 0;
    assert_eq!(s.vu_interval(), Duration::from_millis(1000));
    s.vu_fps = 1000;
    assert_eq!(s.vu_interval(), Duration::from_millis(1000 / 60));
}

#[test]
fn scan_interval_clamps() {
    let mut s = Settings::default();
    s.process_scan_secs = 0;
    assert_eq!(s.scan_interval(), Duration::from_secs(1));
    s.process_scan_secs = 100;
    assert_eq!(s.scan_interval(), Duration::from_secs(30));
}

#[test]
fn autostart_changes_only_with_its_flag() {
    let a = Settings::default();
    let mut b = a;
    b.vu_fps = 30;
    assert_eq!(autostart_change(&a, &b), None);
    b.start_with_windows = true;
    assert_eq!(autostart_change(&a, &b), Some(true));
}

#[test]
fn empty_token_disables_auth() {
    assert!(authorized("", None));
    assert!(authorized("", Some("anything")));
}

#[test]
fn token_must_match() {
    assert!(authorized("secret", Some("secret")));
    assert!(!authorized("secret", Some("wrong")));
    assert!(!authorized("secret", None));
}

#[test]
fn a_token_is_required_on_the_lan_and_outside_debug_builds() {
    assert!(token_required(true, true));
    assert!(token_required(false, false));
    assert!(!token_required(false, true));
    assert_eq!(daemon_token(false, true), "");
    let t = daemon_token(true, true);
    assert_eq!(t.len(), 36);
    assert_eq!(t.chars().nth(14), Some('4'));
    assert_ne!(daemon_token(false, false), daemon_token(false, false), "each token is fresh");
}

#[test]
fn the_daemon_binds_every_interface_only_on_the_lan() {
    assert_eq!(bind_address(true), [0, 0, 0, 0]);
    assert_eq!(bind_address(false), [127, 0, 0, 1]);
}

#[test]
fn stored_settings_have_their_rates_clamped() {
    let mut s = Settings::default();
    s.vu_fps = 0;
    s.process_scan_secs = 100;
    s.server_port = 9000;
    let n = normalised(s);
    assert_eq!(n.vu_fps, 1);
    assert_eq!(n.process_scan_secs, 30);
    assert_eq!(n.server_port, 9000);
    assert!(n.vu_enabled);
    s.vu_fps = 1000;
    s.process_scan_secs = 0;
    let n = normalised(s);
    assert_eq!(n.vu_fps, 60);
    assert_eq!(n.process_scan_secs, 1);
    assert_eq!(normalised(Settings::default()), Settings::default());
}

#[test]
fn set_broadcasts_and_keeps() {
    // What the store keeps (and broadcasts) is the normalised settings.
    let mut next = Settings::default();
    next.vu_fps = 30;
    next.server_lan = true;
    let kept = normalised(next);
    assert_eq!(kept.vu_fps, 30);
    assert!(kept.server_lan);
    assert_eq!(kept, next);
}
