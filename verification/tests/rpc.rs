use nodus::device_control::DeviceKind;
use nodus::rpc::{kind_arg, missing_arg, parse_command, route_id_arg, Command};

#[test]
fn unknown_command_errors() {
    match parse_command("nope") {
        Err(m) => assert_eq!(m, "unknown command: nope"),
        Ok(c) => panic!("unexpected {c:?}"),
    }
}

#[test]
fn set_route_volume_accepts_camel_and_snake() {
    assert_eq!(parse_command("set_route_volume"), Ok(Command::SetRouteVolume));
    assert_eq!(route_id_arg(Some("e1".to_string()), None), Some("e1".to_string()));
    assert_eq!(route_id_arg(None, Some("e1".to_string())), Some("e1".to_string()));
    assert_eq!(route_id_arg(Some("a".to_string()), Some("b".to_string())), Some("a".to_string()));
}

#[test]
fn set_route_volume_missing_id_errors() {
    assert_eq!(route_id_arg(None, None), None);
    assert_eq!(missing_arg("routeId"), "missing routeId");
}

#[test]
fn every_command_parses_by_name() {
    for (name, c) in [
        ("get_audio_devices", Command::GetAudioDevices),
        ("push_scene", Command::PushScene),
        ("apply_routing_graph", Command::ApplyRoutingGraph),
        ("remove_virtual_device", Command::RemoveVirtualDevice),
        ("set_route_pan", Command::SetRoutePan),
    ] {
        assert_eq!(parse_command(name), Ok(c));
    }
}

#[test]
fn device_kinds_by_name() {
    assert_eq!(kind_arg("render"), Ok(DeviceKind::Render));
    assert_eq!(kind_arg("capture"), Ok(DeviceKind::Capture));
    assert_eq!(kind_arg("both"), Err("unknown kind 'both'".to_string()));
}
