use nodus::devices::{AudioDevice, DeviceType};
use nodus::virtual_device::{
    apply_nodus_labels, get_virtual_setup, is_nodus_virtual_mic_name, is_nodus_virtual_name, nodus_label,
    query_virtual_status, test_signing_in, VirtualSetupKind,
};

fn dev(name: &str, t: DeviceType) -> AudioDevice {
    AudioDevice {
        id: format!("id-{name}"),
        name: name.to_string(),
        device_type: t,
        is_default: false,
        original_name: None,
        is_virtual: false,
    }
}

#[test]
fn cable_input_maps_to_nodus_virtual_speaker() {
    assert_eq!(nodus_label("CABLE Input (VB-Audio Virtual Cable)"), Some("Nodus Virtual Speaker"));
}

#[test]
fn cable_output_maps_to_nodus_virtual_output() {
    assert_eq!(nodus_label("CABLE Output (VB-Audio Virtual Cable)"), Some("Nodus Virtual Output"));
}

#[test]
fn real_device_not_renamed() {
    assert_eq!(nodus_label("Realtek HD Audio"), None);
}

#[test]
fn virtual_mic_name_detected() {
    assert!(is_nodus_virtual_mic_name("Nodus Virtual Mic"));
    assert!(is_nodus_virtual_mic_name("Микрофон (Nodus Virtual Mic)"));
}

#[test]
fn virtual_mic_name_rejects_non_mic_endpoints() {
    assert!(!is_nodus_virtual_mic_name("Nodus Virtual Speaker"));
    assert!(!is_nodus_virtual_mic_name("Динамики (Nodus Virtual Audio)"));
    assert!(!is_nodus_virtual_mic_name("Микрофон (Realtek High Definition Audio)"));
}

#[test]
fn setup_detects_vbaudio() {
    let devices = vec![
        dev("CABLE Input (VB-Audio Virtual Cable)", DeviceType::Output),
        dev("CABLE Output (VB-Audio Virtual Cable)", DeviceType::Input),
        dev("Headphones", DeviceType::Output),
    ];
    let status = get_virtual_setup(&devices);
    assert_eq!(status.kind, VirtualSetupKind::VbAudio);
    assert_eq!(status.endpoints.len(), 2);
    assert_eq!(status.endpoints[0].label, "Nodus Virtual Speaker");
    assert_eq!(status.message, "VB-Audio detected — 2 endpoints ready.");
}

#[test]
fn setup_not_found_when_no_virtual() {
    let devices = vec![dev("Headphones", DeviceType::Output)];
    let status = get_virtual_setup(&devices);
    assert_eq!(status.kind, VirtualSetupKind::NotFound);
    assert!(status.endpoints.is_empty());
}

#[test]
fn setup_prefers_the_nodus_driver() {
    let devices = vec![
        dev("CABLE Input (VB-Audio Virtual Cable)", DeviceType::Output),
        dev("Nodus Virtual Speaker", DeviceType::Output),
    ];
    let status = get_virtual_setup(&devices);
    assert_eq!(status.kind, VirtualSetupKind::NodusDriver);
    assert_eq!(status.endpoints.len(), 2);
    assert_eq!(status.endpoints[1].label, "Nodus Virtual Speaker");
    assert_eq!(status.endpoints[1].device_id, "id-Nodus Virtual Speaker");
}

#[test]
fn apply_labels_renames_in_place() {
    let mut devices = vec![
        dev("CABLE Input (VB-Audio Virtual Cable)", DeviceType::Output),
        dev("Galaxy Buds FE", DeviceType::Output),
    ];
    apply_nodus_labels(&mut devices);
    assert_eq!(devices[0].name, "Nodus Virtual Speaker");
    assert_eq!(devices[0].original_name.as_deref(), Some("CABLE Input (VB-Audio Virtual Cable)"));
    assert_eq!(devices[1].name, "Galaxy Buds FE");
}

#[test]
fn virtual_names_are_matched_without_case() {
    assert!(is_nodus_virtual_name("NODUS Virtual Speaker"));
    assert!(!is_nodus_virtual_name("Speakers"));
}

#[test]
fn legacy_status_lists_virtual_devices_typed_virtual() {
    let devices = vec![
        dev("CABLE Input (VB-Audio Virtual Cable)", DeviceType::Output),
        dev("Headphones", DeviceType::Output),
    ];
    let s = query_virtual_status(&devices);
    assert!(s.available);
    assert_eq!(s.devices.len(), 1);
    assert_eq!(s.devices[0].device_type, DeviceType::Virtual);
    assert_eq!(s.devices[0].name, "Nodus Virtual Speaker");
    let none = query_virtual_status(&[dev("Headphones", DeviceType::Output)]);
    assert!(!none.available);
}

#[test]
fn test_signing_read_from_bcdedit_listing() {
    assert!(test_signing_in("testsigning             Yes"));
    assert!(!test_signing_in("testsigning             No"));
}
