use nodus::device_control::{
    build_create_input, build_destroy_input, check_reply_len, decode_create_output, decode_friendly_name,
    decode_list_output, decode_version_output, encode_friendly_name, guid_devinterface_nodus_control,
    ioctl_error, ioctl_hint, nodus_ctl_code, open_error, ControlError, CreateDeviceInput, CreateDeviceOutput, DestroyDeviceInput,
    DeviceInfoRaw, DeviceKind, ListDevicesOutput, QueryVersionOutput, CREATE_DEVICE_INPUT_SIZE,
    CREATE_DEVICE_OUTPUT_SIZE, CTL_VERSION, DESTROY_DEVICE_INPUT_SIZE, DEVFLAG_RING_ACTIVE, DEVFLAG_STATIC,
    DEVICE_INFO_SIZE, IOCTL_NODUS_CREATE_DEVICE, IOCTL_NODUS_DESTROY_DEVICE, IOCTL_NODUS_LIST_DEVICES,
    IOCTL_NODUS_QUERY_VERSION, KIND_CAPTURE, KIND_RENDER, LIST_DEVICES_OUTPUT_SIZE, MAX_DYNAMIC_DEVICES,
    MAX_NAME_CCH, QUERY_VERSION_OUTPUT_SIZE, TOTAL_DEVICE_SLOTS,
};

fn le32_at(b: &[u8], off: usize) -> u32 {
    u32::from_le_bytes([b[off], b[off + 1], b[off + 2], b[off + 3]])
}

fn le64_at(b: &[u8], off: usize) -> u64 {
    let mut a = [0u8; 8];
    a.copy_from_slice(&b[off..off + 8]);
    u64::from_le_bytes(a)
}

fn name_field(name: &str) -> [u16; MAX_NAME_CCH] {
    encode_friendly_name(name).expect("name")
}

#[test]
fn ioctl_codes_match_adr() {
    assert_eq!(IOCTL_NODUS_QUERY_VERSION, 0x0022_2000);
    assert_eq!(IOCTL_NODUS_CREATE_DEVICE, 0x0022_2004);
    assert_eq!(IOCTL_NODUS_DESTROY_DEVICE, 0x0022_2008);
    assert_eq!(IOCTL_NODUS_LIST_DEVICES, 0x0022_200C);
}

#[test]
fn ctl_code_formula_matches_constants() {
    assert_eq!(nodus_ctl_code(0x800), IOCTL_NODUS_QUERY_VERSION);
    assert_eq!(nodus_ctl_code(0x803), IOCTL_NODUS_LIST_DEVICES);
}

#[test]
fn protocol_constants_match_adr() {
    assert_eq!(CTL_VERSION, 1);
    assert_eq!(MAX_DYNAMIC_DEVICES, 8);
    assert_eq!(MAX_NAME_CCH, 64);
    assert_eq!(TOTAL_DEVICE_SLOTS, 10);
    assert_eq!(KIND_RENDER, 0);
    assert_eq!(KIND_CAPTURE, 1);
    assert_eq!(DEVFLAG_STATIC, 0x1);
    assert_eq!(DEVFLAG_RING_ACTIVE, 0x2);
}

#[test]
fn control_guid_matches_team_lead_issue() {
    let g = guid_devinterface_nodus_control();
    assert_eq!(g.data1, 0x56AE_E59C);
    assert_eq!(g.data2, 0x38D8);
    assert_eq!(g.data3, 0x47E1);
    assert_eq!(g.data4, [0x89, 0x43, 0x94, 0xF7, 0x4A, 0x98, 0x9A, 0x92]);
}

#[test]
fn query_version_output_layout() {
    let v = QueryVersionOutput { size: 11, protocol: 22, max_dynamic_devices: 33, reserved0: 44 };
    let b = v.to_bytes();
    assert_eq!(le32_at(&b, 0), 11);
    assert_eq!(le32_at(&b, 4), 22);
    assert_eq!(le32_at(&b, 8), 33);
    assert_eq!(le32_at(&b, 12), 44);
    assert_eq!(b.len(), 16);
    assert_eq!(QUERY_VERSION_OUTPUT_SIZE, 16);
    let back = QueryVersionOutput::from_bytes(&b);
    assert_eq!(back, v);
}

#[test]
fn create_device_input_layout() {
    let input = CreateDeviceInput {
        size: 1,
        kind: 2,
        requested_id: 3,
        flags: 4,
        friendly_name: name_field("AB"),
        reserved0: 0x0102_0304_0506_0708,
    };
    let b = input.to_bytes();
    assert_eq!(le32_at(&b, 0), 1);
    assert_eq!(le32_at(&b, 4), 2);
    assert_eq!(le32_at(&b, 8), 3);
    assert_eq!(le32_at(&b, 12), 4);
    assert_eq!(b[16], b'A');
    assert_eq!(b[18], b'B');
    assert_eq!(le64_at(&b, 144), 0x0102_0304_0506_0708);
    assert_eq!(b.len(), 152);
    assert_eq!(CREATE_DEVICE_INPUT_SIZE, 152);
}

#[test]
fn create_device_output_layout() {
    let out = CreateDeviceOutput { size: 16, id: 5, reserved0: 7 };
    let b = out.to_bytes();
    assert_eq!(le32_at(&b, 0), 16);
    assert_eq!(le32_at(&b, 4), 5);
    assert_eq!(le64_at(&b, 8), 7);
    assert_eq!(b.len(), 16);
    assert_eq!(CREATE_DEVICE_OUTPUT_SIZE, 16);
    assert_eq!(CreateDeviceOutput::from_bytes(&b), out);
}

#[test]
fn destroy_device_input_layout() {
    let d = DestroyDeviceInput { size: 16, id: 3, flags: 9, reserved0: 12 };
    let b = d.to_bytes();
    assert_eq!(le32_at(&b, 0), 16);
    assert_eq!(le32_at(&b, 4), 3);
    assert_eq!(le32_at(&b, 8), 9);
    assert_eq!(le32_at(&b, 12), 12);
    assert_eq!(b.len(), 16);
    assert_eq!(DESTROY_DEVICE_INPUT_SIZE, 16);
}

#[test]
fn device_info_layout() {
    let d = DeviceInfoRaw { id: 7, kind: 1, flags: 3, reserved0: 9, friendly_name: name_field("Z") };
    let b = d.to_bytes();
    assert_eq!(le32_at(&b, 0), 7);
    assert_eq!(le32_at(&b, 4), 1);
    assert_eq!(le32_at(&b, 8), 3);
    assert_eq!(le32_at(&b, 12), 9);
    assert_eq!(b[16], b'Z');
    assert_eq!(b.len(), 144);
    assert_eq!(DEVICE_INFO_SIZE, 144);
    assert_eq!(DeviceInfoRaw::read_at(&b, 0), d);
}

#[test]
fn list_devices_output_layout() {
    let mut out = ListDevicesOutput::zeroed();
    out.size = 1;
    out.count = 2;
    out.max_dynamic_devices = 3;
    out.reserved0 = 4;
    out.devices[0].id = 77;
    out.devices[9].flags = 5;
    let b = out.to_bytes();
    assert_eq!(le32_at(&b, 0), 1);
    assert_eq!(le32_at(&b, 4), 2);
    assert_eq!(le32_at(&b, 8), 3);
    assert_eq!(le32_at(&b, 12), 4);
    assert_eq!(le32_at(&b, 16), 77);
    assert_eq!(le32_at(&b, 16 + 9 * 144 + 8), 5);
    assert_eq!(b.len(), 1456);
    assert_eq!(LIST_DEVICES_OUTPUT_SIZE, 1456);
    assert_eq!(ListDevicesOutput::from_bytes(&b), out);
}

#[test]
fn kind_wire_roundtrip() {
    assert_eq!(DeviceKind::Render.to_wire(), KIND_RENDER);
    assert_eq!(DeviceKind::Capture.to_wire(), KIND_CAPTURE);
    assert_eq!(DeviceKind::from_wire(0), Some(DeviceKind::Render));
    assert_eq!(DeviceKind::from_wire(1), Some(DeviceKind::Capture));
    assert_eq!(DeviceKind::from_wire(42), None);
    assert_eq!(DeviceKind::Render.name(), "render");
    assert_eq!(DeviceKind::Capture.name(), "capture");
}

#[test]
fn friendly_name_encode_decode_roundtrip() {
    let field = encode_friendly_name("Nodus Game Audio").expect("valid name");
    assert_eq!(decode_friendly_name(&field), "Nodus Game Audio");
    assert_eq!(field["Nodus Game Audio".encode_utf16().count()], 0);

    let field = encode_friendly_name("Микрофон стрима").expect("valid name");
    assert_eq!(decode_friendly_name(&field), "Микрофон стрима");
}

#[test]
fn friendly_name_rejects_invalid() {
    assert!(matches!(encode_friendly_name(""), Err(ControlError::InvalidArgument(_))));
    assert!(matches!(encode_friendly_name("   "), Err(ControlError::InvalidArgument(_))));
    assert!(matches!(encode_friendly_name("bad\0name"), Err(ControlError::InvalidArgument(_))));
    assert!(encode_friendly_name(&"x".repeat(63)).is_ok());
    assert!(matches!(encode_friendly_name(&"x".repeat(64)), Err(ControlError::InvalidArgument(_))));
}

#[test]
fn friendly_name_messages() {
    match encode_friendly_name("") {
        Err(ControlError::InvalidArgument(m)) => assert_eq!(m, "device name must not be empty"),
        other => panic!("unexpected {other:?}"),
    }
    match encode_friendly_name(&"x".repeat(70)) {
        Err(ControlError::InvalidArgument(m)) => {
            assert_eq!(m, "device name is too long: 70 UTF-16 units, max 63")
        }
        other => panic!("unexpected {other:?}"),
    }
}

#[test]
fn build_create_input_fills_contract_fields() {
    let input =
        build_create_input(DeviceKind::Capture, Some(3), "Nodus Virtual Mic #2").expect("valid input");
    assert_eq!(input.size, CREATE_DEVICE_INPUT_SIZE);
    assert_eq!(input.kind, KIND_CAPTURE);
    assert_eq!(input.requested_id, 3);
    assert_eq!(input.flags, 0);
    assert_eq!(input.reserved0, 0);
    assert_eq!(decode_friendly_name(&input.friendly_name), "Nodus Virtual Mic #2");

    let auto = build_create_input(DeviceKind::Render, None, "X").expect("valid input");
    assert_eq!(auto.requested_id, 0);

    assert!(matches!(
        build_create_input(DeviceKind::Render, Some(9), "X"),
        Err(ControlError::InvalidArgument(_))
    ));
}

#[test]
fn build_destroy_input_refuses_static_and_out_of_range() {
    let d = build_destroy_input(2).expect("dynamic slot");
    assert_eq!(d.size, DESTROY_DEVICE_INPUT_SIZE);
    assert_eq!(d.id, 2);
    assert!(matches!(build_destroy_input(0), Err(ControlError::InvalidArgument(_))));
    assert!(matches!(build_destroy_input(9), Err(ControlError::InvalidArgument(_))));
}

fn sample_list() -> ListDevicesOutput {
    let mut out = ListDevicesOutput::zeroed();
    out.size = LIST_DEVICES_OUTPUT_SIZE;
    out.max_dynamic_devices = MAX_DYNAMIC_DEVICES;
    out.count = 2;
    out.devices[0].id = 0;
    out.devices[0].kind = KIND_RENDER;
    out.devices[0].flags = DEVFLAG_STATIC | DEVFLAG_RING_ACTIVE;
    out.devices[0].friendly_name = name_field("Nodus Virtual Speaker");
    out.devices[1].id = 0;
    out.devices[1].kind = KIND_CAPTURE;
    out.devices[1].flags = DEVFLAG_STATIC;
    out.devices[1].friendly_name = name_field("Nodus Virtual Mic");
    out
}

#[test]
fn decode_list_output_validates_and_decodes() {
    let out = sample_list();
    let list = decode_list_output(&out).expect("valid snapshot");
    assert_eq!(list.len(), 2);
    assert_eq!(list[0].kind, DeviceKind::Render);
    assert!(list[0].is_static && list[0].ring_active);
    assert_eq!(list[0].name, "Nodus Virtual Speaker");
    assert_eq!(list[1].kind, DeviceKind::Capture);
    assert!(list[1].is_static && !list[1].ring_active);

    let mut bad = out;
    bad.size = 8;
    assert!(matches!(decode_list_output(&bad), Err(ControlError::BadReply { .. })));

    let mut bad = out;
    bad.count = 11;
    assert!(matches!(decode_list_output(&bad), Err(ControlError::BadReply { .. })));

    let mut bad = out;
    bad.devices[1].kind = 42;
    assert!(matches!(decode_list_output(&bad), Err(ControlError::BadReply { .. })));
}

#[test]
fn decode_list_output_reports_the_ioctl_code() {
    let mut bad = sample_list();
    bad.size = 8;
    match decode_list_output(&bad) {
        Err(ControlError::BadReply { code, .. }) => assert_eq!(code, IOCTL_NODUS_LIST_DEVICES),
        other => panic!("unexpected {other:?}"),
    }
}

#[test]
fn decode_version_and_create_replies() {
    let v = QueryVersionOutput { size: 16, protocol: 1, max_dynamic_devices: 8, reserved0: 0 };
    let info = decode_version_output(&v).expect("valid version reply");
    assert_eq!(info.protocol, 1);
    assert_eq!(info.max_dynamic_devices, 8);
    let bad = QueryVersionOutput { size: 4, ..v };
    assert!(matches!(decode_version_output(&bad), Err(ControlError::BadReply { .. })));

    let c = CreateDeviceOutput { size: 16, id: 4, reserved0: 0 };
    assert_eq!(decode_create_output(&c).expect("valid create reply"), 4);
    let bad = CreateDeviceOutput { size: 0, id: 4, reserved0: 0 };
    assert!(matches!(decode_create_output(&bad), Err(ControlError::BadReply { .. })));
}

#[test]
fn short_replies_are_refused() {
    assert!(check_reply_len(IOCTL_NODUS_QUERY_VERSION, 16, 16).is_ok());
    assert!(matches!(
        check_reply_len(IOCTL_NODUS_QUERY_VERSION, 8, 16),
        Err(ControlError::BadReply { .. })
    ));
}

#[test]
fn ioctl_hints_name_common_statuses() {
    assert!(ioctl_hint(87).contains("rejected the request"));
    assert!(ioctl_hint(1816).contains("limit (8)"));
    assert_eq!(ioctl_hint(123456), "");
}

#[test]
fn ioctl_failures_carry_the_hint_for_their_win32_code() {
    match ioctl_error(IOCTL_NODUS_CREATE_DEVICE, 0x8007_00B7, "Cannot create a file".to_string()) {
        ControlError::Ioctl { code, message, hint } => {
            assert_eq!(code, IOCTL_NODUS_CREATE_DEVICE);
            assert_eq!(message, "Cannot create a file");
            assert_eq!(hint, " — the requested id is already in use");
        }
        other => panic!("expected an IOCTL error, got {other:?}"),
    }
}

#[test]
fn a_missing_control_device_means_no_driver() {
    assert!(matches!(open_error(0x8007_0002, "not found"), ControlError::InterfaceNotFound));
    assert!(matches!(open_error(0x8007_0003, "not found"), ControlError::InterfaceNotFound));
    match open_error(0x8007_0005, "Access is denied.") {
        ControlError::Open(m) => assert_eq!(m, "Access is denied. (path \\\\.\\NodusControl)"),
        other => panic!("expected an open failure, got {other:?}"),
    }
}
