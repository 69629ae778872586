//! The daemon's command vocabulary: which command a request names, and the
//! argument rules every transport shares (a route id under either spelling,
//! a device kind by name).

use vstd::prelude::*;

use crate::device_control::DeviceKind;
use crate::text::str_eq;

verus! {

/// A command the daemon answers.
#[derive(Debug, Clone, Copy, PartialEq, Eq, Structural)]
pub enum Command {
    GetAudioDevices,
    GetRunningAudioProcesses,
    GetVirtualSetupStatus,
    IsTestSigningEnabled,
    GetScene,
    PushScene,
    ApplyRoutingGraph,
    StartEngine,
    StopEngine,
    IsEngineRunning,
    ListVirtualDevices,
    CreateVirtualDevice,
    RemoveVirtualDevice,
    GetSettings,
    SetSettings,
    SetRouteMute,
    SetRouteVolume,
    SetRoutePan,
}

/// The name a command is requested by.
pub open spec fn command_name(c: Command) -> Seq<char> {
    match c {
        Command::GetAudioDevices => "get_audio_devices"@,
        Command::GetRunningAudioProcesses => "get_running_audio_processes"@,
        Command::GetVirtualSetupStatus => "get_virtual_setup_status"@,
        Command::IsTestSigningEnabled => "is_test_signing_enabled"@,
        Command::GetScene => "get_scene"@,
        Command::PushScene => "push_scene"@,
        Command::ApplyRoutingGraph => "apply_routing_graph"@,
        Command::StartEngine => "start_engine"@,
        Command::StopEngine => "stop_engine"@,
        Command::IsEngineRunning => "is_engine_running"@,
        Command::ListVirtualDevices => "list_virtual_devices"@,
        Command::CreateVirtualDevice => "create_virtual_device"@,
        Command::RemoveVirtualDevice => "remove_virtual_device"@,
        Command::GetSettings => "get_settings"@,
        Command::SetSettings => "set_settings"@,
        Command::SetRouteMute => "set_route_mute"@,
        Command::SetRouteVolume => "set_route_volume"@,
        Command::SetRoutePan => "set_route_pan"@,
    }
}

/// The command a request names; any other name is refused with
/// `unknown command: <name>`.
pub fn parse_command(cmd: &str) -> (r: Result<Command, String>)
    ensures
        match r {
            Ok(c) => command_name(c) == cmd@,
            Err(m) => (forall|c: Command| command_name(c) != cmd@) && m@ == "unknown command: "@ + cmd@,
        },
{
    if str_eq(cmd, "get_audio_devices") {
        Ok(Command::GetAudioDevices)
    } else if str_eq(cmd, "get_running_audio_processes") {
        Ok(Command::GetRunningAudioProcesses)
    } else if str_eq(cmd, "get_virtual_setup_status") {
        Ok(Command::GetVirtualSetupStatus)
    } else if str_eq(cmd, "is_test_signing_enabled") {
        Ok(Command::IsTestSigningEnabled)
    } else if str_eq(cmd, "get_scene") {
        Ok(Command::GetScene)
    } else if str_eq(cmd, "push_scene") {
        Ok(Command::PushScene)
    } else if str_eq(cmd, "apply_routing_graph") {
        Ok(Command::ApplyRoutingGraph)
    } else if str_eq(cmd, "start_engine") {
        Ok(Command::StartEngine)
    } else if str_eq(cmd, "stop_engine") {
        Ok(Command::StopEngine)
    } else if str_eq(cmd, "is_engine_running") {
        Ok(Command::IsEngineRunning)
    } else if str_eq(cmd, "list_virtual_devices") {
        Ok(Command::ListVirtualDevices)
    } else if str_eq(cmd, "create_virtual_device") {
        Ok(Command::CreateVirtualDevice)
    } else if str_eq(cmd, "remove_virtual_device") {
        Ok(Command::RemoveVirtualDevice)
    } else if str_eq(cmd, "get_settings") {
        Ok(Command::GetSettings)
    } else if str_eq(cmd, "set_settings") {
        Ok(Command::SetSettings)
    } else if str_eq(cmd, "set_route_mute") {
        Ok(Command::SetRouteMute)
    } else if str_eq(cmd, "set_route_volume") {
        Ok(Command::SetRouteVolume)
    } else if str_eq(cmd, "set_route_pan") {
        Ok(Command::SetRoutePan)
    } else {
        proof {
            assert forall|c: Command| command_name(c) != cmd@ by {
                match c {
                    Command::GetAudioDevices => {},
                    Command::GetRunningAudioProcesses => {},
                    Command::GetVirtualSetupStatus => {},
                    Command::IsTestSigningEnabled => {},
                    Command::GetScene => {},
                    Command::PushScene => {},
                    Command::ApplyRoutingGraph => {},
                    Command::StartEngine => {},
                    Command::StopEngine => {},
                    Command::IsEngineRunning => {},
                    Command::ListVirtualDevices => {},
                    Command::CreateVirtualDevice => {},
                    Command::RemoveVirtualDevice => {},
                    Command::GetSettings => {},
                    Command::SetSettings => {},
                    Command::SetRouteMute => {},
                    Command::SetRouteVolume => {},
                    Command::SetRoutePan => {},
                }
            }
        }
        let mut m = String::from_str("unknown command: ");
        m.append(cmd);
        Err(m)
    }
}

/// The route id of a request: the `routeId` spelling when given, else the
/// `route_id` one.
pub fn route_id_arg(camel: Option<String>, snake: Option<String>) -> (r: Option<String>)
    ensures
        r == (match camel {
            Some(c) => Some(c),
            None => snake,
        }),
{
    match camel {
        Some(c) => Some(c),
        None => snake,
    }
}

/// The refusal of a request lacking argument `name`.
pub fn missing_arg(name: &str) -> (m: String)
    ensures
        m@ == "missing "@ + name@,
{
    let mut m = String::from_str("missing ");
    m.append(name);
    m
}

/// The device kind a request names: `render` or `capture`; any other name
/// is refused with `unknown kind '<name>'`.
pub fn kind_arg(kind: &str) -> (r: Result<DeviceKind, String>)
    ensures
        kind@ == "render"@ ==> r == Ok::<DeviceKind, String>(DeviceKind::Render),
        kind@ == "capture"@ ==> r == Ok::<DeviceKind, String>(DeviceKind::Capture),
        kind@ != "render"@ && kind@ != "capture"@ ==> (r matches Err(m) && m@ == "unknown kind '"@ + kind@ + "'"@),
{
    proof {
        reveal_strlit("render");
        reveal_strlit("capture");
        assert("render"@[0] != "capture"@[0]);
        assert("render"@ != "capture"@);
    }
    if str_eq(kind, "render") {
        Ok(DeviceKind::Render)
    } else if str_eq(kind, "capture") {
        Ok(DeviceKind::Capture)
    } else {
        let mut m = String::from_str("unknown kind '");
        m.append(kind);
        m.append("'");
        Err(m)
    }
}

} // verus!
