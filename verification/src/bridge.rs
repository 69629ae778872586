//! The device list the UI shows: the enumerated endpoints, with the render
//! side of every virtual device marked virtual and the VB-Audio cables under
//! their Nodus names.

use vstd::prelude::*;

use crate::devices::{device_copy, enumerate_audio_devices, AudioDevice, DeviceType};
use crate::text::str_eq;
use crate::virtual_device::{apply_nodus_labels, labelled, legacy_sources, lowered_names, query_virtual_status};
use crate::wasapi::ComGuard;

verus! {

/// No device before position `i` has the id of the device at `i`.
pub open spec fn first_with_id(ds: Seq<AudioDevice>, i: int) -> bool {
    forall|j: int| 0 <= j < i ==> (#[trigger] ds[j]).id@ != ds[i].id@
}

/// The device at `i` once virtual outputs are marked: an output that is
/// the first device with its id, and whose id is among `ids`, is typed
/// `Virtual`; every other device is unchanged.
pub open spec fn upgraded(ds: Seq<AudioDevice>, ids: Seq<Seq<char>>, i: int) -> AudioDevice {
    if ds[i].device_type == DeviceType::Output && first_with_id(ds, i) && ids.contains(ds[i].id@) {
        AudioDevice { device_type: DeviceType::Virtual, ..ds[i] }
    } else {
        ds[i]
    }
}

/// The ids a list of strings holds.
pub open spec fn id_views(ids: Seq<String>) -> Seq<Seq<char>> {
    ids.map_values(|s: String| s@)
}

proof fn lemma_contains_push(s: Seq<Seq<char>>, x: Seq<char>, y: Seq<char>)
    ensures
        s.push(x).contains(y) == (s.contains(y) || x == y),
{
    if s.contains(y) {
        let i = choose|i: int| 0 <= i < s.len() && s[i] == y;
        assert(s.push(x)[i] == y);
    }
    if x == y {
        assert(s.push(x)[s.len() as int] == y);
    }
    if s.push(x).contains(y) {
        let i = choose|i: int| 0 <= i < s.push(x).len() && s.push(x)[i] == y;
        if i < s.len() {
            assert(s[i] == y);
        }
    }
}

/// The first position of a device with id `id`.
fn find_device(ds: &Vec<AudioDevice>, id: &str) -> (r: Option<usize>)
    ensures
        match r {
            Some(j) => j < ds@.len() && ds@[j as int].id@ == id@ && first_with_id(ds@, j as int),
            None => forall|j: int| 0 <= j < ds@.len() ==> (#[trigger] ds@[j]).id@ != id@,
        },
{
    let mut j: usize = 0;
    while j < ds.len()
        invariant
            j <= ds@.len(),
            forall|t: int| 0 <= t < j ==> (#[trigger] ds@[t]).id@ != id@,
        decreases ds@.len() - j,
    {
        if str_eq(ds[j].id.as_str(), id) {
            return Some(j);
        }
        j += 1;
    }
    None
}

/// Mark as `Virtual` each output that is the first device with one of
/// `ids` (see `upgraded`).
pub fn upgrade_virtual_outputs(devices: &mut Vec<AudioDevice>, ids: &[String])
    ensures
        final(devices)@.len() == old(devices)@.len(),
        forall|i: int|
            0 <= i < old(devices)@.len() ==> #[trigger] final(devices)@[i] == upgraded(
                old(devices)@,
                id_views(ids@),
                i,
            ),
{
    let ghost ds = devices@;
    let ghost all = id_views(ids@);
    let mut k: usize = 0;
    while k < ids.len()
        invariant
            k <= ids@.len(),
            all == id_views(ids@),
            devices@.len() == ds.len(),
            forall|i: int| 0 <= i < ds.len() ==> (#[trigger] devices@[i]).id@ == ds[i].id@,
            forall|i: int| 0 <= i < ds.len() ==> #[trigger] devices@[i] == upgraded(ds, all.take(k as int), i),
        decreases ids@.len() - k,
    {
        let found = find_device(devices, ids[k].as_str());
        let ghost before = devices@;
        proof {
            assert(all.take(k + 1) =~= all.take(k as int).push(ids@[k as int]@));
            assert forall|y: Seq<char>| #[trigger] all.take(k + 1).contains(y) == (all.take(k as int).contains(y)
                || y == ids@[k as int]@) by {
                lemma_contains_push(all.take(k as int), ids@[k as int]@, y);
            }
        }
        match found {
            Some(j) => {
                proof {
                    assert(first_with_id(ds, j as int)) by {
                        assert forall|t: int| 0 <= t < j implies (#[trigger] ds[t]).id@ != ds[j as int].id@ by {
                            assert(before[t].id@ == ds[t].id@);
                        }
                    }
                }
                if devices[j].device_type == DeviceType::Output {
                    let mut d = device_copy(&devices[j]);
                    d.device_type = DeviceType::Virtual;
                    devices.set(j, d);
                }
                proof {
                    assert forall|i: int| 0 <= i < ds.len() implies #[trigger] devices@[i] == upgraded(
                        ds,
                        all.take(k + 1),
                        i,
                    ) by {
                        if i != j {
                            assert(devices@[i] == before[i]);
                            if ds[i].id@ == ids@[k as int]@ && ds[i].device_type == DeviceType::Output {
                                if i < j {
                                    assert(before[i].id@ == ds[i].id@);
                                } else {
                                    assert(!first_with_id(ds, i)) by {
                                        assert(ds[j as int].id@ == ds[i].id@);
                                    }
                                }
                            }
                            assert(all.take(k + 1).contains(ds[i].id@) == (all.take(k as int).contains(ds[i].id@)
                                || ds[i].id@ == ids@[k as int]@));
                        } else {
                            assert(all.take(k + 1).contains(ds[i].id@));
                        }
                    }
                }
            },
            None => {
                proof {
                    assert forall|i: int| 0 <= i < ds.len() implies #[trigger] devices@[i] == upgraded(
                        ds,
                        all.take(k + 1),
                        i,
                    ) by {
                        assert(before[i].id@ != ids@[k as int]@);
                        assert(all.take(k + 1).contains(ds[i].id@) == all.take(k as int).contains(ds[i].id@));
                    }
                }
            },
        }
        k += 1;
    }
    proof {
        assert(all.take(ids@.len() as int) =~= all);
    }
}

/// The ids of the devices the virtual-device listing reports, in order.
pub open spec fn legacy_ids(ds: Seq<AudioDevice>) -> Seq<Seq<char>> {
    let src = legacy_sources(lowered_names(ds));
    Seq::new(src.len(), |k: int| ds[src[k]].id@)
}

/// `v` is the device list the UI shows for the enumerated devices `ds`:
/// device by device, virtual render endpoints typed `Virtual` (capture
/// endpoints stay inputs), then the Nodus label put on the VB-Audio cables,
/// with the system name kept in `original_name`.
pub open spec fn is_full_list(ds: Seq<AudioDevice>, v: Seq<AudioDevice>) -> bool {
    &&& v.len() == ds.len()
    &&& forall|i: int| 0 <= i < ds.len() ==> #[trigger] labelled(upgraded(ds, legacy_ids(ds), i), v[i])
}

/// Mark the virtual render endpoints among `devices` and give the VB-Audio
/// cables their Nodus names.
pub fn full_device_list(devices: Vec<AudioDevice>) -> (v: Vec<AudioDevice>)
    ensures
        is_full_list(devices@, v@),
{
    let status = query_virtual_status(devices.as_slice());
    let ghost ds = devices@;
    let ghost src = legacy_sources(lowered_names(ds));
    let mut ids: Vec<String> = Vec::new();
    let mut k: usize = 0;
    while k < status.devices.len()
        invariant
            k <= status.devices@.len(),
            status.devices@.len() == src.len(),
            ids@.len() == k,
            forall|t: int| 0 <= t < k ==> (#[trigger] ids@[t])@ == status.devices@[t].id@,
        decreases status.devices@.len() - k,
    {
        ids.push(status.devices[k].id.clone());
        k += 1;
    }
    proof {
        crate::virtual_device::lemma_legacy_sources_bound(lowered_names(ds));
        assert(id_views(ids@) =~= legacy_ids(ds)) by {
            assert forall|t: int| 0 <= t < src.len() implies id_views(ids@)[t] == legacy_ids(ds)[t] by {
                assert(crate::virtual_device::legacy_entry(ds[src[t]], lowered_names(ds)[src[t]], status.devices@[t]));
            }
        }
    }
    let mut out = devices;
    upgrade_virtual_outputs(&mut out, ids.as_slice());
    let ghost up = out@;
    apply_nodus_labels(&mut out);
    proof {
        assert forall|i: int| 0 <= i < ds.len() implies #[trigger] labelled(upgraded(ds, legacy_ids(ds), i), out@[i]) by {
            assert(up[i] == upgraded(ds, id_views(ids@), i));
            assert(labelled(up[i], out@[i]));
        }
    }
    out
}

/// Enumerate the audio devices, mark the virtual render endpoints and put
/// the Nodus names on the VB-Audio cables; an error is reported by its
/// message.
pub fn list_devices_full() -> (r: Result<Vec<AudioDevice>, String>)
    ensures
        r matches Ok(v) && exists|e: Seq<AudioDevice>|
            {
                &&& e.len() == 1
                &&& e[0].id@ == "stub-output"@
                &&& e[0].name@ == "Stub Output (non-Windows)"@
                &&& e[0].device_type == DeviceType::Output
                &&& e[0].is_default
                &&& e[0].original_name is None
                &&& !e[0].is_virtual
                &&& #[trigger] is_full_list(e, v@)
            },
{
    let _com = match ComGuard::init() {
        Ok(g) => g,
        Err(e) => {
            return Err(e.message());
        },
    };
    let devices = match enumerate_audio_devices() {
        Ok(d) => d,
        Err(e) => {
            return Err(e.message());
        },
    };
    let ghost e = devices@;
    let v = full_device_list(devices);
    assert(is_full_list(e, v@));
    let r: Result<Vec<AudioDevice>, String> = Ok(v);
    assert(r matches Ok(w) && is_full_list(e, w@));
    r
}

} // verus!
