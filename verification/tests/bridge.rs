use nodus::bridge::{full_device_list, list_devices_full, upgrade_virtual_outputs};
use nodus::devices::{AudioDevice, DeviceError, DeviceType};
use nodus::engine::EngineError;
use nodus::graph::GraphError;
use nodus::device_control::ControlError;
use nodus::session::SessionError;
use nodus::process::DetectionError;
use nodus::wasapi::WasapiError;

fn dev(id: &str, name: &str, t: DeviceType) -> AudioDevice {
    AudioDevice {
        id: id.to_string(),
        name: name.to_string(),
        device_type: t,
        is_default: false,
        original_name: None,
        is_virtual: false,
    }
}

#[test]
fn render_side_virtual_devices_become_virtual() {
    let devices = vec![
        dev("a", "CABLE Input (VB-Audio Virtual Cable)", DeviceType::Output),
        dev("b", "CABLE Output (VB-Audio Virtual Cable)", DeviceType::Input),
        dev("c", "Headphones", DeviceType::Output),
    ];
    let full = full_device_list(devices);
    assert_eq!(full[0].device_type, DeviceType::Virtual);
    assert_eq!(full[0].name, "Nodus Virtual Speaker", "VB-Audio cables get their Nodus names");
    assert_eq!(full[0].original_name.as_deref(), Some("CABLE Input (VB-Audio Virtual Cable)"));
    assert_eq!(full[1].device_type, DeviceType::Input, "capture endpoints stay inputs");
    assert_eq!(full[1].name, "Nodus Virtual Output");
    assert_eq!(full[1].original_name.as_deref(), Some("CABLE Output (VB-Audio Virtual Cable)"));
    assert_eq!(full[2].name, "Headphones");
    assert_eq!(full[2].original_name, None);
    assert_eq!(full[2].device_type, DeviceType::Output);
}

#[test]
fn only_the_first_device_with_an_id_is_marked() {
    let mut devices = vec![dev("x", "A", DeviceType::Output), dev("x", "B", DeviceType::Output)];
    upgrade_virtual_outputs(&mut devices, &["x".to_string(), "zz".to_string()]);
    assert_eq!(devices[0].device_type, DeviceType::Virtual);
    assert_eq!(devices[1].device_type, DeviceType::Output);
}

#[test]
fn the_stand_in_device_list() {
    let list = list_devices_full().expect("devices");
    assert_eq!(list.len(), 1);
    assert_eq!(list[0].device_type, DeviceType::Output);
}

#[test]
fn errors_read_as_their_messages() {
    assert_eq!(WasapiError::ComInit("x".to_string()).message(), "COM initialization failed: x");
    assert_eq!(
        DeviceError::Wasapi(WasapiError::FormatNotSupported).message(),
        "WASAPI error: format not supported"
    );
    assert_eq!(SessionError::AlreadyRunning.message(), "session already running");
    assert_eq!(EngineError::Session("s".to_string()).message(), "session error: s");
    assert_eq!(
        GraphError::DuplicateRoute { from: "a".to_string(), to: "b".to_string() }.message(),
        "duplicate route from 'a' to 'b'"
    );
    assert_eq!(
        ControlError::BadReply { code: 0x0022_200C, detail: "d".to_string() }.message(),
        "IOCTL 0x0022200C returned a malformed reply: d"
    );
    assert_eq!(
        ControlError::CfgMgr { call: "CM_Get".to_string(), cr: 0x1A }.message(),
        "CM_Get failed with CONFIGRET 0x0000001A"
    );
}

#[test]
fn every_error_variant_has_its_message() {
    let s = |x: &str| x.to_string();
    let wasapi = [
        (WasapiError::ComInit(s("a")), "COM initialization failed: a"),
        (WasapiError::EnumeratorFailed(s("b")), "device enumerator creation failed: b"),
        (WasapiError::PropertyStore(s("c")), "property store error: c"),
        (WasapiError::DeviceNotFound(s("d")), "device not found: d"),
        (WasapiError::AudioClient(s("e")), "audio client error: e"),
        (WasapiError::FormatNotSupported, "format not supported"),
        (WasapiError::Buffer(s("f")), "buffer error: f"),
    ];
    for (e, m) in wasapi {
        assert_eq!(e.message(), m);
    }
    assert_eq!(DeviceError::Enumeration(s("g")).message(), "enumeration failed: g");
    assert_eq!(
        SessionError::Wasapi(WasapiError::Buffer(s("h"))).message(),
        "WASAPI error: buffer error: h"
    );
    assert_eq!(SessionError::DeviceUnavailable(s("i")).message(), "device not available: i");
    assert_eq!(SessionError::FormatMismatch.message(), "format mismatch");
    assert_eq!(SessionError::ChannelError.message(), "channel error");
    assert_eq!(EngineError::AlreadyRunning.message(), "engine already running");
    assert_eq!(EngineError::NotRunning.message(), "engine not running");
    assert_eq!(GraphError::NodeNotFound(s("n")).message(), "node 'n' not found");
    assert_eq!(GraphError::RouteNotFound(s("r")).message(), "route 'r' not found");
    assert_eq!(GraphError::CycleDetected.message(), "routing cycle detected");
    assert_eq!(DetectionError::IterationFailed(s("j")).message(), "process iteration failed: j");
    assert_eq!(ControlError::InvalidArgument(s("k")).message(), "invalid argument: k");
    assert_eq!(
        ControlError::NotImplemented(s("RENAME_DEVICE")).message(),
        "RENAME_DEVICE is not implemented yet — the driver answers STATUS_NOT_IMPLEMENTED until ADR plan steps 3/5 land"
    );
    assert_eq!(ControlError::Unsupported.message(), "device control is only supported on Windows");
    assert_eq!(
        ControlError::Open(s("denied")).message(),
        "CreateFileW on the control interface failed: denied"
    );
    assert_eq!(
        ControlError::Ioctl { code: 0x0022_2004, message: s("m"), hint: s(" — h") }.message(),
        "DeviceIoControl(0x00222004) failed: m — h"
    );
    assert!(ControlError::InterfaceNotFound.message().starts_with("Nodus control interface {"));
}
