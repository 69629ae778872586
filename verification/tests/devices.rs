use nodus::devices::{enumerate_audio_devices, has_virtual_marker, is_virtual_device, make_device, DeviceType};
use nodus::wasapi::ComGuard;

#[test]
fn enumerate_returns_at_least_one_device() {
    let _guard = ComGuard::init().expect("COM init");
    let devices = enumerate_audio_devices().expect("enumerate");
    assert!(!devices.is_empty(), "Expected at least one audio device");
}

#[test]
fn detects_virtual_devices() {
    for name in [
        "CABLE Output (VB-Audio Virtual Cable)",
        "Микрофон (MIXLINE Stream)",
        "VoiceMeeter Output",
        "Nodus Mic",
    ] {
        assert!(is_virtual_device(name), "expected virtual: {name}");
    }
    for name in ["Headphones (Galaxy Buds)", "Microphone (Blue Yeti)", "Speakers (Realtek)"] {
        assert!(!is_virtual_device(name), "expected physical: {name}");
    }
}

#[test]
fn virtual_marker_needs_lower_case_input() {
    assert!(has_virtual_marker("obs virtual camera"));
    assert!(!has_virtual_marker("OBS"));
    assert!(is_virtual_device("OBS"));
}

#[test]
fn made_device_is_default_only_for_the_default_id() {
    let d = make_device("a".to_string(), "Speakers".to_string(), DeviceType::Output, &Some("a".to_string()));
    assert!(d.is_default);
    assert!(!d.is_virtual);
    assert!(d.original_name.is_none());
    let d = make_device("b".to_string(), "CABLE Input".to_string(), DeviceType::Output, &Some("a".to_string()));
    assert!(!d.is_default);
    assert!(d.is_virtual);
    let d = make_device("b".to_string(), "x".to_string(), DeviceType::Input, &None);
    assert!(!d.is_default);
}
