//! Which virtual-audio backend is present (VB-Audio's cable or the Nodus
//! driver), the Nodus labels of the cable's endpoints, and the status the
//! onboarding dialog shows.
//!
//! Every name test is made on the lower-cased name; each public test has a
//! twin that takes the lower-cased name itself.

use vstd::prelude::*;

use crate::devices::{device_copy, AudioDevice, DeviceType};
use crate::text::{contains_seq, dec_digits, lowercase_of, push_decimal, str_contains, to_lowercase};

verus! {

// ── Name tests ──────────────────────────────────────────────────────────────

/// A lower-cased name of a VB-Audio endpoint.
pub open spec fn vbaudio_marker(n: Seq<char>) -> bool {
    contains_seq(n, "cable input"@) || contains_seq(n, "cable output"@) || contains_seq(
        n,
        "voicemeeter"@,
    )
}

/// A lower-cased name of a Nodus endpoint.
pub open spec fn nodus_marker(n: Seq<char>) -> bool {
    contains_seq(n, "nodus"@)
}

/// A lower-cased name of the Nodus virtual microphone: "nodus" and either
/// "mic" or its Russian form.
pub open spec fn nodus_mic_marker(n: Seq<char>) -> bool {
    contains_seq(n, "nodus"@) && (contains_seq(n, "mic"@) || contains_seq(n, "микрофон"@))
}

/// The Nodus label of a lower-cased cable endpoint name: the cable's input
/// (where apps play to) is the virtual speaker, its output (where Nodus
/// reads) the virtual output.
pub open spec fn spec_label(n: Seq<char>) -> Option<Seq<char>> {
    if contains_seq(n, "cable input"@) {
        Some("Nodus Virtual Speaker"@)
    } else if contains_seq(n, "cable output"@) {
        Some("Nodus Virtual Output"@)
    } else {
        None
    }
}

fn is_vbaudio_lowered(lowered: &str) -> (b: bool)
    ensures
        b == vbaudio_marker(lowered@),
{
    str_contains(lowered, "cable input") || str_contains(lowered, "cable output") || str_contains(
        lowered,
        "voicemeeter",
    )
}

/// Does an already lower-cased name belong to a Nodus endpoint?
pub fn is_nodus_lowered(lowered: &str) -> (b: bool)
    ensures
        b == nodus_marker(lowered@),
{
    str_contains(lowered, "nodus")
}

/// Does this device or node name refer to a Nodus virtual endpoint (one
/// the engine reads from the driver's ring)?
pub fn is_nodus_virtual_name(name: &str) -> (b: bool)
    ensures
        b == nodus_marker(lowercase_of(name@)),
{
    let low = to_lowercase(name);
    is_nodus_lowered(low.as_str())
}

/// Does an already lower-cased name belong to the Nodus virtual mic?
pub fn is_nodus_mic_lowered(lowered: &str) -> (b: bool)
    ensures
        b == nodus_mic_marker(lowered@),
{
    str_contains(lowered, "nodus") && (str_contains(lowered, "mic") || str_contains(
        lowered,
        "микрофон",
    ))
}

/// Does this name refer to the Nodus virtual microphone (a route
/// destination the engine writes into the driver's mic ring)?
pub fn is_nodus_virtual_mic_name(name: &str) -> (b: bool)
    ensures
        b == nodus_mic_marker(lowercase_of(name@)),
{
    let low = to_lowercase(name);
    is_nodus_mic_lowered(low.as_str())
}

/// The Nodus label for an already lower-cased name.
pub fn label_for_lowered(lowered: &str) -> (r: Option<&'static str>)
    ensures
        match r {
            Some(l) => spec_label(lowered@) == Some(l@),
            None => spec_label(lowered@) is None,
        },
{
    if str_contains(lowered, "cable input") {
        Some("Nodus Virtual Speaker")
    } else if str_contains(lowered, "cable output") {
        Some("Nodus Virtual Output")
    } else {
        None
    }
}

/// The Nodus-branded label of a VB-Audio endpoint, or `None` when the name
/// needs none.
pub fn nodus_label(device_name: &str) -> (r: Option<&'static str>)
    ensures
        match r {
            Some(l) => spec_label(lowercase_of(device_name@)) == Some(l@),
            None => spec_label(lowercase_of(device_name@)) is None,
        },
{
    let low = to_lowercase(device_name);
    label_for_lowered(low.as_str())
}

/// `d` after labelling: renamed to its label with the system name kept in
/// `original_name` when it has one, unchanged otherwise.
pub open spec fn labelled(old: AudioDevice, new: AudioDevice) -> bool {
    match spec_label(lowercase_of(old.name@)) {
        Some(l) => {
            &&& new.name@ == l
            &&& new.original_name matches Some(o) && o == old.name
            &&& new.id == old.id
            &&& new.device_type == old.device_type
            &&& new.is_default == old.is_default
            &&& new.is_virtual == old.is_virtual
        },
        None => new == old,
    }
}

/// Apply the Nodus labels to a device list in place, keeping each system
/// name in `original_name`.
pub fn apply_nodus_labels(devices: &mut Vec<AudioDevice>)
    ensures
        final(devices)@.len() == old(devices)@.len(),
        forall|i: int|
            0 <= i < old(devices)@.len() ==> #[trigger] labelled(old(devices)@[i], final(devices)@[i]),
{
    let mut out: Vec<AudioDevice> = Vec::new();
    let mut i: usize = 0;
    while i < devices.len()
        invariant
            devices@ == old(devices)@,
            i <= devices@.len(),
            out@.len() == i,
            forall|j: int| 0 <= j < i ==> #[trigger] labelled(devices@[j], out@[j]),
        decreases devices@.len() - i,
    {
        let d = &devices[i];
        let mut n = device_copy(d);
        match nodus_label(d.name.as_str()) {
            Some(label) => {
                n.original_name = Some(d.name.clone());
                n.name = String::from_str(label);
            },
            None => {},
        }
        out.push(n);
        i += 1;
    }
    *devices = out;
}

// ── Setup status ────────────────────────────────────────────────────────────

/// Which backend is present.
#[derive(Debug, Clone, Copy, PartialEq, Eq, Structural)]
pub enum VirtualSetupKind {
    /// Nothing found: the onboarding dialog is shown.
    NotFound,
    /// VB-Audio's cable.
    VbAudio,
    /// The Nodus kernel driver.
    NodusDriver,
}

/// One resolved virtual endpoint.
#[derive(Debug, Clone)]
pub struct VirtualEndpoint {
    /// The label the UI shows.
    pub label: String,
    /// The system endpoint id.
    pub device_id: String,
    pub device_type: DeviceType,
    /// The system name.
    pub underlying_name: String,
}

/// The setup state the UI shows.
#[derive(Debug, Clone)]
pub struct VirtualSetupStatus {
    pub kind: VirtualSetupKind,
    pub endpoints: Vec<VirtualEndpoint>,
    pub message: String,
}

/// An endpoint by its plain values: label, id, type, system name.
pub type EndpointView = (Seq<char>, Seq<char>, DeviceType, Seq<char>);

/// The endpoint's plain values.
pub open spec fn endpoint_view(e: VirtualEndpoint) -> EndpointView {
    (e.label@, e.device_id@, e.device_type, e.underlying_name@)
}

/// The endpoint a device gives, by its lower-cased name `low`: a Nodus
/// device under its own name, a VB-Audio device under its label when it has
/// one, any other device none.
pub open spec fn device_endpoint(d: AudioDevice, low: Seq<char>) -> Option<EndpointView> {
    if nodus_marker(low) {
        Some((d.name@, d.id@, d.device_type, d.name@))
    } else if vbaudio_marker(low) {
        match spec_label(low) {
            Some(l) => Some((l, d.id@, d.device_type, d.name@)),
            None => None,
        }
    } else {
        None
    }
}

/// The endpoints of a device list, in order, given each name lower-cased.
pub open spec fn spec_endpoints(ds: Seq<AudioDevice>, lows: Seq<Seq<char>>) -> Seq<EndpointView>
    decreases ds.len(),
{
    if ds.len() == 0 || lows.len() != ds.len() {
        Seq::empty()
    } else {
        let rest = spec_endpoints(ds.drop_last(), lows.drop_last());
        match device_endpoint(ds.last(), lows.last()) {
            Some(e) => rest.push(e),
            None => rest,
        }
    }
}

/// The backend: the Nodus driver when a Nodus device is there, else
/// VB-Audio when some endpoint resolved, else nothing.
pub open spec fn spec_setup_kind(ds: Seq<AudioDevice>, lows: Seq<Seq<char>>) -> VirtualSetupKind {
    if exists|i: int| 0 <= i < lows.len() && nodus_marker(#[trigger] lows[i]) {
        VirtualSetupKind::NodusDriver
    } else if spec_endpoints(ds, lows).len() > 0 {
        VirtualSetupKind::VbAudio
    } else {
        VirtualSetupKind::NotFound
    }
}

/// The UI's message for a backend and an endpoint count.
pub open spec fn spec_setup_message(kind: VirtualSetupKind, n: nat) -> Seq<char> {
    match kind {
        VirtualSetupKind::NotFound => "Virtual device not found. Install VB-Audio or enable Nodus driver."@,
        VirtualSetupKind::VbAudio => "VB-Audio detected — "@ + dec_digits(n) + " endpoints ready."@,
        VirtualSetupKind::NodusDriver => "Nodus driver detected — "@ + dec_digits(n)
            + " endpoints ready."@,
    }
}

/// The names of a device list, lower-cased.
pub open spec fn lowered_names(ds: Seq<AudioDevice>) -> Seq<Seq<char>> {
    Seq::new(ds.len(), |i: int| lowercase_of(ds[i].name@))
}

/// The setup status exactly as `spec_endpoints`, `spec_setup_kind` and
/// `spec_setup_message` state it.
pub open spec fn setup_matches(s: VirtualSetupStatus, ds: Seq<AudioDevice>, lows: Seq<Seq<char>>) -> bool {
    &&& s.endpoints@.map_values(|e: VirtualEndpoint| endpoint_view(e)) == spec_endpoints(ds, lows)
    &&& s.kind == spec_setup_kind(ds, lows)
    &&& s.message@ == spec_setup_message(s.kind, s.endpoints@.len())
}

fn endpoint_of(d: &AudioDevice, label: String) -> (e: VirtualEndpoint)
    ensures
        endpoint_view(e) == (label@, d.id@, d.device_type, d.name@),
{
    VirtualEndpoint {
        label,
        device_id: d.id.clone(),
        device_type: d.device_type,
        underlying_name: d.name.clone(),
    }
}

/// The setup status of a device list whose names are given lower-cased in
/// `lowered` (one per device, in order).
pub fn virtual_setup_from(all_devices: &[AudioDevice], lowered: &[String]) -> (s: VirtualSetupStatus)
    requires
        lowered@.len() == all_devices@.len(),
    ensures
        setup_matches(s, all_devices@, lowered@.map_values(|l: String| l@)),
{
    let ghost lows = lowered@.map_values(|l: String| l@);
    let mut endpoints: Vec<VirtualEndpoint> = Vec::new();
    let mut saw_nodus = false;
    let mut i: usize = 0;
    while i < all_devices.len()
        invariant
            lowered@.len() == all_devices@.len(),
            lows == lowered@.map_values(|l: String| l@),
            i <= all_devices@.len(),
            endpoints@.map_values(|e: VirtualEndpoint| endpoint_view(e)) == spec_endpoints(
                all_devices@.take(i as int),
                lows.take(i as int),
            ),
            saw_nodus == exists|j: int| 0 <= j < i && nodus_marker(#[trigger] lows[j]),
        decreases all_devices@.len() - i,
    {
        let d = &all_devices[i];
        let low = lowered[i].as_str();
        let ghost before = endpoints@;
        assert(all_devices@.take(i + 1).drop_last() =~= all_devices@.take(i as int));
        assert(lows.take(i + 1).drop_last() =~= lows.take(i as int));
        if is_nodus_lowered(low) {
            saw_nodus = true;
            endpoints.push(endpoint_of(d, d.name.clone()));
        } else if is_vbaudio_lowered(low) {
            match label_for_lowered(low) {
                Some(label) => {
                    endpoints.push(endpoint_of(d, String::from_str(label)));
                },
                None => {},
            }
        }
        assert(endpoints@.map_values(|e: VirtualEndpoint| endpoint_view(e)) =~= spec_endpoints(
            all_devices@.take(i + 1),
            lows.take(i + 1),
        ));
        i += 1;
    }
    assert(all_devices@.take(i as int) =~= all_devices@);
    assert(lows.take(i as int) =~= lows);
    let kind = if saw_nodus {
        VirtualSetupKind::NodusDriver
    } else if endpoints.len() > 0 {
        VirtualSetupKind::VbAudio
    } else {
        VirtualSetupKind::NotFound
    };
    let message = match kind {
        VirtualSetupKind::NotFound => String::from_str(
            "Virtual device not found. Install VB-Audio or enable Nodus driver.",
        ),
        VirtualSetupKind::VbAudio => {
            let mut m = String::from_str("VB-Audio detected — ");
            push_decimal(&mut m, endpoints.len() as u64);
            m.append(" endpoints ready.");
            m
        },
        VirtualSetupKind::NodusDriver => {
            let mut m = String::from_str("Nodus driver detected — ");
            push_decimal(&mut m, endpoints.len() as u64);
            m.append(" endpoints ready.");
            m
        },
    };
    VirtualSetupStatus { kind, endpoints, message }
}

/// Each device's name, lower-cased.
fn lower_names(all_devices: &[AudioDevice]) -> (v: Vec<String>)
    ensures
        v@.map_values(|l: String| l@) == lowered_names(all_devices@),
{
    let mut v: Vec<String> = Vec::new();
    let mut i: usize = 0;
    while i < all_devices.len()
        invariant
            i <= all_devices@.len(),
            v@.len() == i,
            forall|j: int| 0 <= j < i ==> (#[trigger] v@[j])@ == lowercase_of(all_devices@[j].name@),
        decreases all_devices@.len() - i,
    {
        let low = to_lowercase(all_devices[i].name.as_str());
        v.push(low);
        i += 1;
    }
    assert(v@.map_values(|l: String| l@) =~= lowered_names(all_devices@));
    v
}

/// Inspect the device list: resolve the virtual endpoints and decide which
/// backend is present.
pub fn get_virtual_setup(all_devices: &[AudioDevice]) -> (s: VirtualSetupStatus)
    ensures
        setup_matches(s, all_devices@, lowered_names(all_devices@)),
{
    let lowered = lower_names(all_devices);
    virtual_setup_from(all_devices, lowered.as_slice())
}

// ── Legacy status ───────────────────────────────────────────────────────────

/// The status shape older callers use.
#[derive(Debug, Clone)]
pub struct LegacyStatus {
    pub available: bool,
    pub devices: Vec<AudioDevice>,
    pub message: String,
}

/// A device as the legacy listing shows it: typed `Virtual`, under its
/// label when it has one.
pub open spec fn legacy_entry(d: AudioDevice, low: Seq<char>, e: AudioDevice) -> bool {
    &&& e.id == d.id
    &&& e.device_type == DeviceType::Virtual
    &&& e.is_default == d.is_default
    &&& e.original_name == d.original_name
    &&& e.is_virtual == d.is_virtual
    &&& e.name@ == match spec_label(low) {
        Some(l) => l,
        None => d.name@,
    }
}

/// The positions of the VB-Audio and Nodus devices, in order, given each
/// name lower-cased.
pub open spec fn legacy_sources(lows: Seq<Seq<char>>) -> Seq<int>
    decreases lows.len(),
{
    if lows.len() == 0 {
        Seq::empty()
    } else {
        let rest = legacy_sources(lows.drop_last());
        if vbaudio_marker(lows.last()) || nodus_marker(lows.last()) {
            rest.push(lows.len() - 1)
        } else {
            rest
        }
    }
}

pub(crate) proof fn lemma_legacy_sources_bound(lows: Seq<Seq<char>>)
    ensures
        forall|k: int|
            0 <= k < legacy_sources(lows).len() ==> 0 <= #[trigger] legacy_sources(lows)[k]
                < lows.len(),
    decreases lows.len(),
{
    if lows.len() > 0 {
        let rest = legacy_sources(lows.drop_last());
        lemma_legacy_sources_bound(lows.drop_last());
        assert forall|k: int| 0 <= k < legacy_sources(lows).len() implies 0
            <= #[trigger] legacy_sources(lows)[k] < lows.len() by {
            if k < rest.len() {
                assert(legacy_sources(lows)[k] == rest[k]);
            }
        }
    }
}

/// The legacy status: available unless nothing was found, the VB-Audio
/// and Nodus devices in order (see `legacy_entry`), and the setup message.
pub fn query_virtual_status(all_devices: &[AudioDevice]) -> (r: LegacyStatus)
    ensures
        ({
            let lows = lowered_names(all_devices@);
            let src = legacy_sources(lows);
            &&& r.available == (spec_setup_kind(all_devices@, lows) != VirtualSetupKind::NotFound)
            &&& r.message@ == spec_setup_message(
                spec_setup_kind(all_devices@, lows),
                spec_endpoints(all_devices@, lows).len(),
            )
            &&& r.devices@.len() == src.len()
            &&& forall|k: int|
                0 <= k < src.len() ==> #[trigger] legacy_entry(
                    all_devices@[src[k]],
                    lows[src[k]],
                    r.devices@[k],
                )
        }),
{
    let lowered = lower_names(all_devices);
    let ghost lows = lowered_names(all_devices@);
    let setup = virtual_setup_from(all_devices, lowered.as_slice());
    let mut devices: Vec<AudioDevice> = Vec::new();
    let mut i: usize = 0;
    while i < all_devices.len()
        invariant
            lowered@.map_values(|l: String| l@) == lows,
            lows == lowered_names(all_devices@),
            lowered@.len() == all_devices@.len(),
            i <= all_devices@.len(),
            devices@.len() == legacy_sources(lows.take(i as int)).len(),
            forall|k: int|
                0 <= k < devices@.len() ==> #[trigger] legacy_entry(
                    all_devices@[legacy_sources(lows.take(i as int))[k]],
                    lows[legacy_sources(lows.take(i as int))[k]],
                    devices@[k],
                ),
        decreases all_devices@.len() - i,
    {
        let d = &all_devices[i];
        let low = lowered[i].as_str();
        assert(low@ == lows[i as int]);
        assert(lows.take(i + 1).drop_last() =~= lows.take(i as int));
        proof {
            lemma_legacy_sources_bound(lows.take(i as int));
        }
        if is_vbaudio_lowered(low) || is_nodus_lowered(low) {
            let mut dev = device_copy(d);
            dev.device_type = DeviceType::Virtual;
            match label_for_lowered(low) {
                Some(label) => {
                    dev.name = String::from_str(label);
                },
                None => {},
            }
            devices.push(dev);
        }
        i += 1;
    }
    assert(lows.take(i as int) =~= lows);
    proof {
        lemma_legacy_sources_bound(lows);
        assert(devices@.len() == legacy_sources(lows).len());
        assert(setup.kind == spec_setup_kind(all_devices@, lows));
        assert(setup.message@ == spec_setup_message(setup.kind, setup.endpoints@.len()));
        assert(spec_endpoints(all_devices@, lows).len() == setup.endpoints@.len());
        let src = legacy_sources(lows);
        assert forall|k: int| 0 <= k < src.len() implies #[trigger] legacy_entry(
            all_devices@[src[k]],
            lows[src[k]],
            devices@[k],
        ) by {
            assert(legacy_sources(lows.take(i as int)) == src);
            assert(legacy_entry(
                all_devices@[legacy_sources(lows.take(i as int))[k]],
                lows[legacy_sources(lows.take(i as int))[k]],
                devices@[k],
            ));
        }
        assert(setup.endpoints@.map_values(|e: VirtualEndpoint| endpoint_view(e)).len()
            == setup.endpoints@.len());
    }
    LegacyStatus {
        available: setup.kind != VirtualSetupKind::NotFound,
        devices,
        message: setup.message,
    }
}

// ── Driver signing ──────────────────────────────────────────────────────────

/// What the boot-configuration listing, lower-cased, says of test signing:
/// on when it mentions "testsigning" and "yes".
pub open spec fn test_signing_marker(n: Seq<char>) -> bool {
    contains_seq(n, "testsigning"@) && contains_seq(n, "yes"@)
}

/// Test signing per an already lower-cased boot-configuration listing.
pub fn test_signing_in_lowered(lowered: &str) -> (b: bool)
    ensures
        b == test_signing_marker(lowered@),
{
    str_contains(lowered, "testsigning") && str_contains(lowered, "yes")
}

/// Test signing per the boot-configuration listing, matched without regard
/// to case.
pub fn test_signing_in(listing: &str) -> (b: bool)
    ensures
        b == test_signing_marker(lowercase_of(listing@)),
{
    let low = to_lowercase(listing);
    test_signing_in_lowered(low.as_str())
}

/// Whether unsigned drivers load. Only Windows has the boot configuration
/// to ask; this build has none, so it is off.
pub fn is_test_signing_enabled() -> (b: bool)
    ensures
        !b,
{
    false
}

} // verus!
