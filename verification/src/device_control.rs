//! The driver control-channel contract: IOCTL codes, the fixed-layout
//! request and reply structures and their little-endian wire bytes, the
//! friendly-name field, and the validation of every reply.
//!
//! The driver and this library pin the same layout independently; every
//! structure starts with its own `size`, and the driver demands an exact
//! match.

use vstd::prelude::*;

use crate::wire::{
    le16_at, le16s, le32, le32_at, le64, le64_at, lemma_le16_digits, lemma_le32_at_bytes,
    lemma_le64_at_bytes, push_le16s, push_le32, push_le64, read_le32, read_le64,
};
use crate::text::{all_white_space, dec_digits, hex_digits, push_decimal, push_hex, trim_is_empty};
use crate::utf16::{
    decode_utf16_lossy, encode_utf16, lemma_utf16_nonzero, lemma_utf16_roundtrip, utf16_decode_lossy,
    utf16_encode,
};

verus! {

// ── Constants ───────────────────────────────────────────────────────────────

/// Control-protocol version; QUERY_VERSION must report exactly this.
pub const CTL_VERSION: u32 = 1;
/// Dynamic device ids run 1..=8 (0 is the static pair).
pub const MAX_DYNAMIC_DEVICES: u32 = 8;
/// WCHARs in a friendly-name field, the terminating NUL included.
pub const MAX_NAME_CCH: usize = 64;
/// Slots in a LIST_DEVICES snapshot: 2 static + 8 dynamic.
pub const TOTAL_DEVICE_SLOTS: usize = 10;

/// Wire value of a render (speaker-side) device.
pub const KIND_RENDER: u32 = 0;
/// Wire value of a capture (microphone-side) device.
pub const KIND_CAPTURE: u32 = 1;

/// Device flag: one of the boot-time pair; DESTROY is refused.
pub const DEVFLAG_STATIC: u32 = 0x1;
/// Device flag: the device's ring section exists.
pub const DEVFLAG_RING_ACTIVE: u32 = 0x2;

/// `FILE_DEVICE_UNKNOWN`.
pub const FILE_DEVICE_UNKNOWN: u32 = 0x22;
/// `METHOD_BUFFERED`.
pub const METHOD_BUFFERED: u32 = 0;
/// `FILE_ANY_ACCESS`.
pub const FILE_ANY_ACCESS: u32 = 0;

/// `CTL_CODE(DeviceType, Function, Method, Access)` arithmetic.
pub open spec fn ctl_code(function: u32) -> u32 {
    (FILE_DEVICE_UNKNOWN << 16) | (FILE_ANY_ACCESS << 14) | (function << 2) | METHOD_BUFFERED
}

/// The IOCTL code of a control function.
pub fn nodus_ctl_code(function: u32) -> (r: u32)
    ensures
        r == ctl_code(function),
{
    (FILE_DEVICE_UNKNOWN << 16) | (FILE_ANY_ACCESS << 14) | (function << 2) | METHOD_BUFFERED
}

/// QUERY_VERSION (function 0x800).
pub const IOCTL_NODUS_QUERY_VERSION: u32 = (FILE_DEVICE_UNKNOWN << 16) | (FILE_ANY_ACCESS << 14)
    | (0x800 << 2) | METHOD_BUFFERED;
/// CREATE_DEVICE (function 0x801).
pub const IOCTL_NODUS_CREATE_DEVICE: u32 = (FILE_DEVICE_UNKNOWN << 16) | (FILE_ANY_ACCESS << 14)
    | (0x801 << 2) | METHOD_BUFFERED;
/// DESTROY_DEVICE (function 0x802).
pub const IOCTL_NODUS_DESTROY_DEVICE: u32 = (FILE_DEVICE_UNKNOWN << 16) | (FILE_ANY_ACCESS << 14)
    | (0x802 << 2) | METHOD_BUFFERED;
/// LIST_DEVICES (function 0x803).
pub const IOCTL_NODUS_LIST_DEVICES: u32 = (FILE_DEVICE_UNKNOWN << 16) | (FILE_ANY_ACCESS << 14)
    | (0x803 << 2) | METHOD_BUFFERED;

/// The four IOCTL constants are the control-code formula applied to
/// functions 0x800..0x803.
pub proof fn lemma_ioctl_codes()
    ensures
        IOCTL_NODUS_QUERY_VERSION == ctl_code(0x800),
        IOCTL_NODUS_CREATE_DEVICE == ctl_code(0x801),
        IOCTL_NODUS_DESTROY_DEVICE == ctl_code(0x802),
        IOCTL_NODUS_LIST_DEVICES == ctl_code(0x803),
{
}

/// The control interface GUID in its string form (for diagnostics).
pub const GUID_DEVINTERFACE_NODUS_CONTROL_STR: &'static str = "{56AEE59C-38D8-47E1-8943-94F74A989A92}";

/// A GUID in its four-field form.
#[derive(Debug, Clone, Copy, PartialEq, Eq)]
pub struct Guid {
    pub data1: u32,
    pub data2: u16,
    pub data3: u16,
    pub data4: [u8; 8],
}

impl Guid {
    /// The GUID whose 128-bit big-endian value is `v`.
    pub fn from_u128(v: u128) -> (g: Guid)
        ensures
            g.data1 == v >> 96,
            g.data2 == (v >> 80) & 0xFFFF,
            g.data3 == (v >> 64) & 0xFFFF,
            forall|i: int| 0 <= i < 8 ==> g.data4[i] == (v >> (56 - 8 * i) as u128) & 0xFF,
    {
        let mut d4: [u8; 8] = [0u8; 8];
        let mut i: usize = 0;
        while i < 8
            invariant
                i <= 8,
                forall|j: int| 0 <= j < i ==> d4[j] == (v >> (56 - 8 * j) as u128) & 0xFF,
            decreases 8 - i,
        {
            let sh: u128 = (56 - 8 * i) as u128;
            assert((v >> sh) & 0xFF <= 0xFF) by (bit_vector);
            d4[i] = ((v >> sh) & 0xFF) as u8;
            i += 1;
        }
        assert((v >> 96) <= 0xFFFF_FFFF) by (bit_vector);
        assert((v >> 80) & 0xFFFF <= 0xFFFF) by (bit_vector);
        assert((v >> 64) & 0xFFFF <= 0xFFFF) by (bit_vector);
        Guid {
            data1: (v >> 96) as u32,
            data2: ((v >> 80) & 0xFFFF) as u16,
            data3: ((v >> 64) & 0xFFFF) as u16,
            data4: d4,
        }
    }
}

/// `GUID_DEVINTERFACE_NODUS_CONTROL` = {56AEE59C-38D8-47E1-8943-94F74A989A92}.
pub fn guid_devinterface_nodus_control() -> (g: Guid)
    ensures
        g.data1 == 0x56AE_E59C,
        g.data2 == 0x38D8,
        g.data3 == 0x47E1,
        g.data4@ == seq![0x89u8, 0x43, 0x94, 0xF7, 0x4A, 0x98, 0x9A, 0x92],
{
    let g = Guid::from_u128(0x56AEE59C_38D8_47E1_8943_94F74A989A92);
    assert({
        let v: u128 = 0x56AEE59C_38D8_47E1_8943_94F74A989A92u128;
        &&& (v >> 56u128) & 0xFF == 0x89
        &&& (v >> 48u128) & 0xFF == 0x43
        &&& (v >> 40u128) & 0xFF == 0x94
        &&& (v >> 32u128) & 0xFF == 0xF7
        &&& (v >> 24u128) & 0xFF == 0x4A
        &&& (v >> 16u128) & 0xFF == 0x98
        &&& (v >> 8u128) & 0xFF == 0x9A
        &&& (v >> 0u128) & 0xFF == 0x92
        &&& v >> 96 == 0x56AE_E59C
        &&& (v >> 80) & 0xFFFF == 0x38D8
        &&& (v >> 64) & 0xFFFF == 0x47E1
    }) by (bit_vector);
    assert(g.data4@ =~= seq![0x89u8, 0x43, 0x94, 0xF7, 0x4A, 0x98, 0x9A, 0x92]);
    g
}

// ── Wire structures ─────────────────────────────────────────────────────────

/// QUERY_VERSION reply size.
pub const QUERY_VERSION_OUTPUT_SIZE: u32 = 16;
/// CREATE_DEVICE request size.
pub const CREATE_DEVICE_INPUT_SIZE: u32 = 152;
/// CREATE_DEVICE reply size.
pub const CREATE_DEVICE_OUTPUT_SIZE: u32 = 16;
/// DESTROY_DEVICE request size.
pub const DESTROY_DEVICE_INPUT_SIZE: u32 = 16;
/// One device entry of a LIST_DEVICES reply.
pub const DEVICE_INFO_SIZE: u32 = 144;
/// LIST_DEVICES reply size: 16 + 10 × 144.
pub const LIST_DEVICES_OUTPUT_SIZE: u32 = 1456;

/// QUERY_VERSION reply (16 bytes).
#[derive(Debug, Clone, Copy, PartialEq, Eq, Structural)]
pub struct QueryVersionOutput {
    /// offset 0 — 16
    pub size: u32,
    /// offset 4 — the driver's protocol version
    pub protocol: u32,
    /// offset 8 — 8
    pub max_dynamic_devices: u32,
    /// offset 12
    pub reserved0: u32,
}

/// CREATE_DEVICE request (152 bytes).
#[derive(Debug, Clone, Copy, PartialEq, Eq)]
pub struct CreateDeviceInput {
    /// offset 0 — 152
    pub size: u32,
    /// offset 4 — render or capture
    pub kind: u32,
    /// offset 8 — 0 = auto, 1..8 = explicit
    pub requested_id: u32,
    /// offset 12 — 0, reserved
    pub flags: u32,
    /// offset 16 — UTF-16, NUL-terminated
    pub friendly_name: [u16; MAX_NAME_CCH],
    /// offset 144
    pub reserved0: u64,
}

/// CREATE_DEVICE reply (16 bytes).
#[derive(Debug, Clone, Copy, PartialEq, Eq, Structural)]
pub struct CreateDeviceOutput {
    /// offset 0 — 16
    pub size: u32,
    /// offset 4 — assigned id (1..8), which is also the ring id
    pub id: u32,
    /// offset 8
    pub reserved0: u64,
}

/// DESTROY_DEVICE request (16 bytes).
#[derive(Debug, Clone, Copy, PartialEq, Eq, Structural)]
pub struct DestroyDeviceInput {
    /// offset 0 — 16
    pub size: u32,
    /// offset 4
    pub id: u32,
    /// offset 8 — 0, reserved
    pub flags: u32,
    /// offset 12
    pub reserved0: u32,
}

/// One device of a LIST_DEVICES reply (144 bytes).
#[derive(Debug, Clone, Copy, PartialEq, Eq)]
pub struct DeviceInfoRaw {
    /// offset 0
    pub id: u32,
    /// offset 4
    pub kind: u32,
    /// offset 8 — static / ring-active flags
    pub flags: u32,
    /// offset 12
    pub reserved0: u32,
    /// offset 16
    pub friendly_name: [u16; MAX_NAME_CCH],
}

/// LIST_DEVICES reply (1456 bytes): a fixed-size snapshot of every slot.
#[derive(Debug, Clone, Copy, PartialEq, Eq)]
pub struct ListDevicesOutput {
    /// offset 0 — 1456
    pub size: u32,
    /// offset 4 — valid entries in `devices`
    pub count: u32,
    /// offset 8 — 8
    pub max_dynamic_devices: u32,
    /// offset 12
    pub reserved0: u32,
    /// offset 16
    pub devices: [DeviceInfoRaw; TOTAL_DEVICE_SLOTS],
}

impl QueryVersionOutput {
    /// The structure's wire bytes.
    pub open spec fn spec_bytes(&self) -> Seq<u8> {
        le32(self.size) + le32(self.protocol) + le32(self.max_dynamic_devices) + le32(self.reserved0)
    }

    /// All fields zero (the buffer handed to the driver).
    pub fn zeroed() -> (r: Self)
        ensures
            r.size == 0 && r.protocol == 0 && r.max_dynamic_devices == 0 && r.reserved0 == 0,
    {
        QueryVersionOutput { size: 0, protocol: 0, max_dynamic_devices: 0, reserved0: 0 }
    }

    /// Encode to wire bytes.
    pub fn to_bytes(&self) -> (b: Vec<u8>)
        ensures
            b@ == self.spec_bytes(),
    {
        let mut b: Vec<u8> = Vec::new();
        push_le32(&mut b, self.size);
        push_le32(&mut b, self.protocol);
        push_le32(&mut b, self.max_dynamic_devices);
        push_le32(&mut b, self.reserved0);
        assert(b@ =~= self.spec_bytes());
        b
    }

    /// Decode wire bytes; encoding the result gives the same bytes back.
    pub fn from_bytes(b: &[u8]) -> (r: Self)
        requires
            b@.len() == QUERY_VERSION_OUTPUT_SIZE,
        ensures
            r.spec_bytes() == b@,
    {
        let r = QueryVersionOutput {
            size: read_le32(b, 0),
            protocol: read_le32(b, 4),
            max_dynamic_devices: read_le32(b, 8),
            reserved0: read_le32(b, 12),
        };
        proof {
            lemma_le32_at_bytes(b@, 0);
            lemma_le32_at_bytes(b@, 4);
            lemma_le32_at_bytes(b@, 8);
            lemma_le32_at_bytes(b@, 12);
        }
        assert(r.spec_bytes() =~= b@);
        r
    }
}

impl CreateDeviceOutput {
    /// The structure's wire bytes.
    pub open spec fn spec_bytes(&self) -> Seq<u8> {
        le32(self.size) + le32(self.id) + le64(self.reserved0)
    }

    /// All fields zero (the buffer handed to the driver).
    pub fn zeroed() -> (r: Self)
        ensures
            r.size == 0 && r.id == 0 && r.reserved0 == 0,
    {
        CreateDeviceOutput { size: 0, id: 0, reserved0: 0 }
    }

    /// Encode to wire bytes.
    pub fn to_bytes(&self) -> (b: Vec<u8>)
        ensures
            b@ == self.spec_bytes(),
    {
        let mut b: Vec<u8> = Vec::new();
        push_le32(&mut b, self.size);
        push_le32(&mut b, self.id);
        push_le64(&mut b, self.reserved0);
        assert(b@ =~= self.spec_bytes());
        b
    }

    /// Decode wire bytes; encoding the result gives the same bytes back.
    pub fn from_bytes(b: &[u8]) -> (r: Self)
        requires
            b@.len() == CREATE_DEVICE_OUTPUT_SIZE,
        ensures
            r.spec_bytes() == b@,
    {
        let r = CreateDeviceOutput { size: read_le32(b, 0), id: read_le32(b, 4), reserved0: read_le64(b, 8) };
        proof {
            lemma_le32_at_bytes(b@, 0);
            lemma_le32_at_bytes(b@, 4);
            lemma_le64_at_bytes(b@, 8);
        }
        assert(r.spec_bytes() =~= b@);
        r
    }
}

impl DestroyDeviceInput {
    /// The structure's wire bytes.
    pub open spec fn spec_bytes(&self) -> Seq<u8> {
        le32(self.size) + le32(self.id) + le32(self.flags) + le32(self.reserved0)
    }

    /// Encode to wire bytes.
    pub fn to_bytes(&self) -> (b: Vec<u8>)
        ensures
            b@ == self.spec_bytes(),
    {
        let mut b: Vec<u8> = Vec::new();
        push_le32(&mut b, self.size);
        push_le32(&mut b, self.id);
        push_le32(&mut b, self.flags);
        push_le32(&mut b, self.reserved0);
        assert(b@ =~= self.spec_bytes());
        b
    }
}

impl CreateDeviceInput {
    /// The structure's wire bytes.
    pub open spec fn spec_bytes(&self) -> Seq<u8> {
        le32(self.size) + le32(self.kind) + le32(self.requested_id) + le32(self.flags) + le16s(
            self.friendly_name@,
        ) + le64(self.reserved0)
    }

    /// Encode to wire bytes.
    pub fn to_bytes(&self) -> (b: Vec<u8>)
        ensures
            b@ == self.spec_bytes(),
    {
        let mut b: Vec<u8> = Vec::new();
        push_le32(&mut b, self.size);
        push_le32(&mut b, self.kind);
        push_le32(&mut b, self.requested_id);
        push_le32(&mut b, self.flags);
        push_le16s(&mut b, self.friendly_name.as_slice());
        push_le64(&mut b, self.reserved0);
        assert(b@ =~= self.spec_bytes());
        b
    }
}

impl DeviceInfoRaw {
    /// The structure's wire bytes.
    pub open spec fn spec_bytes(&self) -> Seq<u8> {
        le32(self.id) + le32(self.kind) + le32(self.flags) + le32(self.reserved0) + le16s(
            self.friendly_name@,
        )
    }

    /// All fields zero.
    pub fn zeroed() -> (r: Self)
        ensures
            r.id == 0 && r.kind == 0 && r.flags == 0 && r.reserved0 == 0,
            forall|i: int| 0 <= i < MAX_NAME_CCH ==> r.friendly_name[i] == 0,
    {
        DeviceInfoRaw { id: 0, kind: 0, flags: 0, reserved0: 0, friendly_name: [0u16; MAX_NAME_CCH] }
    }

    /// Encode to wire bytes.
    pub fn to_bytes(&self) -> (b: Vec<u8>)
        ensures
            b@ == self.spec_bytes(),
    {
        let mut b: Vec<u8> = Vec::new();
        push_le32(&mut b, self.id);
        push_le32(&mut b, self.kind);
        push_le32(&mut b, self.flags);
        push_le32(&mut b, self.reserved0);
        push_le16s(&mut b, self.friendly_name.as_slice());
        assert(b@ =~= self.spec_bytes());
        b
    }
}

impl DeviceInfoRaw {
    /// Decode the 144 bytes at `off`; encoding the result gives them back.
    pub fn read_at(b: &[u8], off: usize) -> (r: Self)
        requires
            off + DEVICE_INFO_SIZE <= b.len(),
        ensures
            r.spec_bytes() == b@.subrange(off as int, off + DEVICE_INFO_SIZE),
    {
        let mut name: [u16; MAX_NAME_CCH] = [0u16; MAX_NAME_CCH];
        let base = off + 16;
        let mut i: usize = 0;
        while i < MAX_NAME_CCH
            invariant
                off + DEVICE_INFO_SIZE <= b.len(),
                base == off + 16,
                i <= MAX_NAME_CCH,
                forall|j: int| 0 <= j < i ==> name[j] as int == b@[base + 2 * j] + b@[base + 2 * j + 1] * 0x100,
            decreases MAX_NAME_CCH - i,
        {
            proof {
                lemma_le16_digits(b@[base + 2 * i], b@[base + 2 * i + 1]);
            }
            name[i] = (b[base + 2 * i] as u16) + (b[base + 2 * i + 1] as u16) * 0x100;
            i += 1;
        }
        let r = DeviceInfoRaw {
            id: read_le32(b, off),
            kind: read_le32(b, off + 4),
            flags: read_le32(b, off + 8),
            reserved0: read_le32(b, off + 12),
            friendly_name: name,
        };
        proof {
            lemma_le32_at_bytes(b@, off as int);
            lemma_le32_at_bytes(b@, off + 4);
            lemma_le32_at_bytes(b@, off + 8);
            lemma_le32_at_bytes(b@, off + 12);
            assert forall|k: int| 0 <= k < 2 * MAX_NAME_CCH implies #[trigger] le16s(name@)[k] == b@[base + k] by {
                let j = k / 2;
                lemma_le16_digits(b@[base + 2 * j], b@[base + 2 * j + 1]);
            }
            assert(le16s(name@) =~= b@.subrange(base as int, base + 2 * MAX_NAME_CCH));
        }
        assert(r.spec_bytes() =~= b@.subrange(off as int, off + DEVICE_INFO_SIZE));
        r
    }
}

/// The wire bytes of a run of device entries, in order.
pub open spec fn devices_bytes(ds: Seq<DeviceInfoRaw>) -> Seq<u8>
    decreases ds.len(),
{
    if ds.len() == 0 {
        Seq::empty()
    } else {
        devices_bytes(ds.drop_last()) + ds.last().spec_bytes()
    }
}

proof fn lemma_devices_bytes_len(ds: Seq<DeviceInfoRaw>)
    ensures
        devices_bytes(ds).len() == ds.len() * DEVICE_INFO_SIZE,
    decreases ds.len(),
{
    if ds.len() > 0 {
        lemma_devices_bytes_len(ds.drop_last());
        assert(ds.last().spec_bytes().len() == DEVICE_INFO_SIZE);
    }
}

impl ListDevicesOutput {
    /// The structure's wire bytes.
    pub open spec fn spec_bytes(&self) -> Seq<u8> {
        le32(self.size) + le32(self.count) + le32(self.max_dynamic_devices) + le32(self.reserved0)
            + devices_bytes(self.devices@)
    }

    /// All fields zero (the buffer handed to the driver).
    pub fn zeroed() -> (r: Self)
        ensures
            r.size == 0 && r.count == 0 && r.max_dynamic_devices == 0 && r.reserved0 == 0,
            forall|i: int|
                0 <= i < TOTAL_DEVICE_SLOTS ==> {
                    &&& (#[trigger] r.devices[i]).id == 0
                    &&& r.devices[i].kind == 0
                    &&& r.devices[i].flags == 0
                    &&& r.devices[i].reserved0 == 0
                },
    {
        let d = DeviceInfoRaw::zeroed();
        ListDevicesOutput {
            size: 0,
            count: 0,
            max_dynamic_devices: 0,
            reserved0: 0,
            devices: [d; TOTAL_DEVICE_SLOTS],
        }
    }

    /// Encode to wire bytes.
    pub fn to_bytes(&self) -> (b: Vec<u8>)
        ensures
            b@ == self.spec_bytes(),
    {
        let mut b: Vec<u8> = Vec::new();
        push_le32(&mut b, self.size);
        push_le32(&mut b, self.count);
        push_le32(&mut b, self.max_dynamic_devices);
        push_le32(&mut b, self.reserved0);
        let ghost head = b@;
        let mut i: usize = 0;
        while i < TOTAL_DEVICE_SLOTS
            invariant
                i <= TOTAL_DEVICE_SLOTS,
                b@ == head + devices_bytes(self.devices@.take(i as int)),
            decreases TOTAL_DEVICE_SLOTS - i,
        {
            let e = self.devices[i].to_bytes();
            push_all_bytes(&mut b, &e);
            assert(self.devices@.take(i + 1).drop_last() =~= self.devices@.take(i as int));
            i += 1;
        }
        assert(self.devices@.take(TOTAL_DEVICE_SLOTS as int) =~= self.devices@);
        assert(b@ =~= self.spec_bytes());
        b
    }

    /// Decode wire bytes; encoding the result gives the same bytes back.
    pub fn from_bytes(b: &[u8]) -> (r: Self)
        requires
            b@.len() == LIST_DEVICES_OUTPUT_SIZE,
        ensures
            r.spec_bytes() == b@,
    {
        let mut devices: [DeviceInfoRaw; TOTAL_DEVICE_SLOTS] = [DeviceInfoRaw::zeroed(); TOTAL_DEVICE_SLOTS];
        let mut i: usize = 0;
        while i < TOTAL_DEVICE_SLOTS
            invariant
                b@.len() == LIST_DEVICES_OUTPUT_SIZE,
                i <= TOTAL_DEVICE_SLOTS,
                devices_bytes(devices@.take(i as int)) == b@.subrange(16, 16 + i * DEVICE_INFO_SIZE),
            decreases TOTAL_DEVICE_SLOTS - i,
        {
            let off = 16 + i * 144;
            let d = DeviceInfoRaw::read_at(b, off);
            let ghost before = devices@;
            devices[i] = d;
            assert(devices@.take(i as int) =~= before.take(i as int));
            assert(devices@.take(i + 1).drop_last() =~= devices@.take(i as int));
            assert(b@.subrange(16, 16 + (i + 1) * DEVICE_INFO_SIZE) =~= b@.subrange(
                16,
                16 + i * DEVICE_INFO_SIZE,
            ) + b@.subrange(off as int, off + DEVICE_INFO_SIZE));
            i += 1;
        }
        assert(devices@.take(TOTAL_DEVICE_SLOTS as int) =~= devices@);
        let r = ListDevicesOutput {
            size: read_le32(b, 0),
            count: read_le32(b, 4),
            max_dynamic_devices: read_le32(b, 8),
            reserved0: read_le32(b, 12),
            devices,
        };
        proof {
            lemma_le32_at_bytes(b@, 0);
            lemma_le32_at_bytes(b@, 4);
            lemma_le32_at_bytes(b@, 8);
            lemma_le32_at_bytes(b@, 12);
        }
        assert(r.spec_bytes() =~= b@);
        r
    }
}

fn push_all_bytes(out: &mut Vec<u8>, data: &Vec<u8>)
    ensures
        final(out)@ == old(out)@ + data@,
{
    crate::icon::push_all(out, data.as_slice());
}

// ── Typed view ──────────────────────────────────────────────────────────────

/// Render (speaker-side) or capture (microphone-side).
#[derive(Debug, Clone, Copy, PartialEq, Eq, Structural)]
pub enum DeviceKind {
    Render,
    Capture,
}

impl DeviceKind {
    /// The kind's wire value.
    pub open spec fn spec_wire(self) -> u32 {
        match self {
            DeviceKind::Render => KIND_RENDER,
            DeviceKind::Capture => KIND_CAPTURE,
        }
    }

    /// The kind a wire value names, if any.
    pub open spec fn spec_from_wire(v: u32) -> Option<DeviceKind> {
        if v == KIND_RENDER {
            Some(DeviceKind::Render)
        } else if v == KIND_CAPTURE {
            Some(DeviceKind::Capture)
        } else {
            None
        }
    }

    /// The kind's wire value.
    pub fn to_wire(self) -> (v: u32)
        ensures
            v == self.spec_wire(),
    {
        match self {
            DeviceKind::Render => KIND_RENDER,
            DeviceKind::Capture => KIND_CAPTURE,
        }
    }

    /// The kind a wire value names; `None` for any other value.
    pub fn from_wire(v: u32) -> (k: Option<DeviceKind>)
        ensures
            k == Self::spec_from_wire(v),
    {
        if v == KIND_RENDER {
            Some(DeviceKind::Render)
        } else if v == KIND_CAPTURE {
            Some(DeviceKind::Capture)
        } else {
            None
        }
    }

    /// Lower-case name, as the UI and CLI print it.
    pub fn name(self) -> (s: &'static str)
        ensures
            s@ == (match self {
                DeviceKind::Render => "render"@,
                DeviceKind::Capture => "capture"@,
            }),
    {
        match self {
            DeviceKind::Render => "render",
            DeviceKind::Capture => "capture",
        }
    }
}

/// A kind survives the trip to its wire value and back, and only the two
/// wire values name a kind.
pub proof fn lemma_kind_wire_roundtrip(k: DeviceKind, v: u32)
    ensures
        DeviceKind::spec_from_wire(k.spec_wire()) == Some(k),
        DeviceKind::spec_from_wire(v) matches Some(k2) ==> k2.spec_wire() == v,
{
}

/// One LIST_DEVICES entry, decoded for the UI.
#[derive(Debug, Clone, PartialEq)]
pub struct VirtualDeviceInfo {
    pub id: u32,
    pub kind: DeviceKind,
    pub name: String,
    /// One of the boot-time pair; DESTROY is refused.
    pub is_static: bool,
    /// The ring section exists.
    pub ring_active: bool,
}

/// QUERY_VERSION reply, decoded.
#[derive(Debug, Clone, Copy, PartialEq, Eq, Structural)]
pub struct ProtocolInfo {
    pub protocol: u32,
    pub max_dynamic_devices: u32,
}

/// Everything that can go wrong on the control channel.
#[derive(Debug)]
pub enum ControlError {
    /// The control interface is not present: no driver, or an older build.
    InterfaceNotFound,
    /// A configuration-manager call failed.
    CfgMgr { call: String, cr: u32 },
    /// Opening the control device failed.
    Open(String),
    /// The IOCTL itself failed; `hint` explains the common status codes.
    Ioctl { code: u32, message: String, hint: String },
    /// The driver's reply is malformed.
    BadReply { code: u32, detail: String },
    /// A request was refused locally before any IOCTL.
    InvalidArgument(String),
    /// The driver side of this request does not exist yet.
    NotImplemented(String),
    /// Device control needs Windows.
    Unsupported,
}

impl ControlError {
    /// The error as a user reads it.
    pub open spec fn spec_message(&self) -> Seq<char> {
        match self {
            ControlError::InterfaceNotFound => "Nodus control interface "@ + GUID_DEVINTERFACE_NODUS_CONTROL_STR@
                + " not found — driver not installed, or an older driver build without the control channel"@,
            ControlError::CfgMgr { call, cr } => call@ + " failed with CONFIGRET 0x"@ + hex_digits(*cr as nat, 8),
            ControlError::Open(m) => "CreateFileW on the control interface failed: "@ + m@,
            ControlError::Ioctl { code, message, hint } => "DeviceIoControl(0x"@ + hex_digits(*code as nat, 8)
                + ") failed: "@ + message@ + hint@,
            ControlError::BadReply { code, detail } => "IOCTL 0x"@ + hex_digits(*code as nat, 8)
                + " returned a malformed reply: "@ + detail@,
            ControlError::InvalidArgument(m) => "invalid argument: "@ + m@,
            ControlError::NotImplemented(m) => m@
                + " is not implemented yet — the driver answers STATUS_NOT_IMPLEMENTED until ADR plan steps 3/5 land"@,
            ControlError::Unsupported => "device control is only supported on Windows"@,
        }
    }

    /// The error as a user reads it.
    pub fn message(&self) -> (s: String)
        ensures
            s@ == self.spec_message(),
    {
        match self {
            ControlError::InterfaceNotFound => {
                let mut s = String::from_str("Nodus control interface ");
                s.append(GUID_DEVINTERFACE_NODUS_CONTROL_STR);
                s.append(" not found — driver not installed, or an older driver build without the control channel");
                s
            },
            ControlError::CfgMgr { call, cr } => {
                let mut s = call.clone();
                s.append(" failed with CONFIGRET 0x");
                push_hex(&mut s, *cr as u64, 8);
                s
            },
            ControlError::Open(m) => {
                let mut s = String::from_str("CreateFileW on the control interface failed: ");
                s.append(m.as_str());
                s
            },
            ControlError::Ioctl { code, message, hint } => {
                let mut s = String::from_str("DeviceIoControl(0x");
                push_hex(&mut s, *code as u64, 8);
                s.append(") failed: ");
                s.append(message.as_str());
                s.append(hint.as_str());
                s
            },
            ControlError::BadReply { code, detail } => {
                let mut s = String::from_str("IOCTL 0x");
                push_hex(&mut s, *code as u64, 8);
                s.append(" returned a malformed reply: ");
                s.append(detail.as_str());
                s
            },
            ControlError::InvalidArgument(m) => {
                let mut s = String::from_str("invalid argument: ");
                s.append(m.as_str());
                s
            },
            ControlError::NotImplemented(m) => {
                let mut s = m.clone();
                s.append(" is not implemented yet — the driver answers STATUS_NOT_IMPLEMENTED until ADR plan steps 3/5 land");
                s
            },
            ControlError::Unsupported => String::from_str("device control is only supported on Windows"),
        }
    }
}

/// `r` is `Err(InvalidArgument(m))` with message `msg`.
pub open spec fn is_invalid_argument<T>(r: &Result<T, ControlError>, msg: Seq<char>) -> bool {
    match r {
        Err(ControlError::InvalidArgument(m)) => m@ == msg,
        _ => false,
    }
}

/// `r` is `Err(BadReply { code, detail })` with the given code and detail.
pub open spec fn is_bad_reply<T>(r: &Result<T, ControlError>, code: u32, detail: Seq<char>) -> bool {
    match r {
        Err(ControlError::BadReply { code: c, detail: d }) => c == code && d@ == detail,
        _ => false,
    }
}

// ── Friendly names ──────────────────────────────────────────────────────────

/// Longest name that fits the field: 63 units, the NUL takes the 64th.
pub open spec fn max_name_units() -> nat {
    (MAX_NAME_CCH - 1) as nat
}

/// Message for a name that is blank.
pub open spec fn msg_empty_name() -> Seq<char> {
    "device name must not be empty"@
}

/// Message for a name holding NUL.
pub open spec fn msg_nul_name() -> Seq<char> {
    "device name must not contain NUL characters"@
}

/// Message for a name of `len` UTF-16 units that does not fit.
pub open spec fn msg_long_name(len: nat) -> Seq<char> {
    "device name is too long: "@ + dec_digits(len) + " UTF-16 units, max "@ + dec_digits(
        max_name_units(),
    )
}

/// The field a name encodes to, or the message it is refused with:
/// blank → refused, holds NUL → refused, more than 63 units → refused,
/// else its UTF-16 units padded with zeros to 64.
pub open spec fn spec_friendly_name(name: Seq<char>) -> Result<Seq<u16>, Seq<char>> {
    let units = utf16_encode(name);
    if all_white_space(name) {
        Err(msg_empty_name())
    } else if units.contains(0u16) {
        Err(msg_nul_name())
    } else if units.len() > max_name_units() {
        Err(msg_long_name(units.len()))
    } else {
        Ok(units + Seq::new((MAX_NAME_CCH - units.len()) as nat, |i: int| 0u16))
    }
}

/// The outcome of a name check, as it leaves `encode_friendly_name`.
pub open spec fn name_result_matches(r: &Result<[u16; MAX_NAME_CCH], ControlError>, name: Seq<char>) -> bool {
    match spec_friendly_name(name) {
        Ok(field) => r matches Ok(f) && f@ == field,
        Err(msg) => is_invalid_argument(r, msg),
    }
}

/// Encode a user-facing name into the fixed 64-unit wire field: UTF-16,
/// NUL-terminated, non-blank, no embedded NUL (the driver checks the same).
pub fn encode_friendly_name(name: &str) -> (r: Result<[u16; MAX_NAME_CCH], ControlError>)
    ensures
        name_result_matches(&r, name@),
{
    if trim_is_empty(name) {
        return Err(ControlError::InvalidArgument(String::from_str("device name must not be empty")));
    }
    let units = encode_utf16(name);
    let mut i: usize = 0;
    while i < units.len()
        invariant
            i <= units@.len(),
            units@ == utf16_encode(name@),
            !all_white_space(name@),
            forall|j: int| 0 <= j < i ==> units@[j] != 0,
        decreases units@.len() - i,
    {
        if units[i] == 0 {
            assert(units@.contains(0u16));
            return Err(
                ControlError::InvalidArgument(
                    String::from_str("device name must not contain NUL characters"),
                ),
            );
        }
        i += 1;
    }
    assert(!units@.contains(0u16));
    if units.len() > MAX_NAME_CCH - 1 {
        let mut m = String::from_str("device name is too long: ");
        push_decimal(&mut m, units.len() as u64);
        m.append(" UTF-16 units, max ");
        push_decimal(&mut m, (MAX_NAME_CCH - 1) as u64);
        return Err(ControlError::InvalidArgument(m));
    }
    let mut field: [u16; MAX_NAME_CCH] = [0u16; MAX_NAME_CCH];
    let mut k: usize = 0;
    while k < units.len()
        invariant
            units@.len() <= MAX_NAME_CCH - 1,
            k <= units@.len(),
            forall|j: int| 0 <= j < k ==> field[j] == units@[j],
            forall|j: int| k <= j < MAX_NAME_CCH ==> field[j] == 0,
        decreases units@.len() - k,
    {
        field[k] = units[k];
        k += 1;
    }
    assert(field@ =~= units@ + Seq::new((MAX_NAME_CCH - units@.len()) as nat, |i: int| 0u16));
    Ok(field)
}

/// `k` is where the NUL-terminated text in `f` ends: no NUL before it, and
/// a NUL at it unless the field is full.
pub open spec fn text_end(f: Seq<u16>, k: int) -> bool {
    &&& 0 <= k <= f.len()
    &&& forall|j: int| 0 <= j < k ==> f[j] != 0
    &&& k < f.len() ==> f[k] == 0
}

/// Decode the fixed 64-unit field up to its first NUL (lossy UTF-16).
pub fn decode_friendly_name(field: &[u16; MAX_NAME_CCH]) -> (s: String)
    ensures
        exists|k: int| text_end(field@, k) && s@ == utf16_decode_lossy(field@.take(k)),
{
    let mut len: usize = 0;
    while len < MAX_NAME_CCH && field[len] != 0
        invariant
            len <= MAX_NAME_CCH,
            forall|j: int| 0 <= j < len ==> field@[j] != 0,
        decreases MAX_NAME_CCH - len,
    {
        len += 1;
    }
    let text = vstd::slice::slice_subrange(field.as_slice(), 0, len);
    let s = decode_utf16_lossy(text);
    assert(text@ =~= field@.take(len as int));
    assert(text_end(field@, len as int));
    s
}

/// A name that encodes decodes back to itself: nothing is lost between the
/// UI and the driver.
pub proof fn lemma_friendly_name_roundtrip(name: Seq<char>, field: Seq<u16>, k: int)
    requires
        spec_friendly_name(name) == Ok::<Seq<u16>, Seq<char>>(field),
        text_end(field, k),
    ensures
        utf16_decode_lossy(field.take(k)) == name,
{
    let units = utf16_encode(name);
    assert(field.take(units.len() as int) =~= units);
    if k < units.len() {
        assert(field[k] == units[k]);
        assert(units.contains(0u16));
    } else if k > units.len() {
        assert(field[units.len() as int] == 0);
    }
    lemma_utf16_roundtrip(name);
}

// ── Requests ────────────────────────────────────────────────────────────────

/// Message for an explicit id past the dynamic range.
pub open spec fn msg_id_out_of_range(id: u32) -> Seq<char> {
    "requested id "@ + dec_digits(id as nat) + " out of range 1.."@ + dec_digits(
        MAX_DYNAMIC_DEVICES as nat,
    )
}

/// A validated CREATE_DEVICE request. An explicit id past 8 is refused
/// first, then the name is checked; `None` asks the driver to pick (id 0).
pub fn build_create_input(kind: DeviceKind, requested_id: Option<u32>, name: &str) -> (r: Result<
    CreateDeviceInput,
    ControlError,
>)
    ensures
        ({
            let id: u32 = match requested_id {
                Some(i) => i,
                None => 0,
            };
            if id > MAX_DYNAMIC_DEVICES {
                is_invalid_argument(&r, msg_id_out_of_range(id))
            } else {
                match spec_friendly_name(name@) {
                    Err(msg) => is_invalid_argument(&r, msg),
                    Ok(field) => r matches Ok(input) && {
                        &&& input.size == CREATE_DEVICE_INPUT_SIZE
                        &&& input.kind == kind.spec_wire()
                        &&& input.requested_id == id
                        &&& input.flags == 0
                        &&& input.friendly_name@ == field
                        &&& input.reserved0 == 0
                    },
                }
            }
        }),
{
    let requested_id = match requested_id {
        Some(i) => i,
        None => 0,
    };
    if requested_id > MAX_DYNAMIC_DEVICES {
        let mut m = String::from_str("requested id ");
        push_decimal(&mut m, requested_id as u64);
        m.append(" out of range 1..");
        push_decimal(&mut m, MAX_DYNAMIC_DEVICES as u64);
        return Err(ControlError::InvalidArgument(m));
    }
    let friendly_name = match encode_friendly_name(name) {
        Ok(f) => f,
        Err(e) => return Err(e),
    };
    Ok(CreateDeviceInput {
        size: CREATE_DEVICE_INPUT_SIZE,
        kind: kind.to_wire(),
        requested_id,
        flags: 0,
        friendly_name,
        reserved0: 0,
    })
}

/// Message for an id DESTROY refuses.
pub open spec fn msg_destroy_id(id: u32) -> Seq<char> {
    "id "@ + dec_digits(id as nat) + " out of range 1.."@ + dec_digits(MAX_DYNAMIC_DEVICES as nat)
        + " (0 is the static pair, DESTROY is refused)"@
}

/// A validated DESTROY_DEVICE request: id 0 (the static pair) and ids past
/// 8 are refused before any IOCTL.
pub fn build_destroy_input(id: u32) -> (r: Result<DestroyDeviceInput, ControlError>)
    ensures
        (id == 0 || id > MAX_DYNAMIC_DEVICES) ==> is_invalid_argument(&r, msg_destroy_id(id)),
        !(id == 0 || id > MAX_DYNAMIC_DEVICES) ==> (r matches Ok(input) && input == (DestroyDeviceInput {
            size: DESTROY_DEVICE_INPUT_SIZE,
            id,
            flags: 0,
            reserved0: 0,
        })),
{
    if id == 0 || id > MAX_DYNAMIC_DEVICES {
        let mut m = String::from_str("id ");
        push_decimal(&mut m, id as u64);
        m.append(" out of range 1..");
        push_decimal(&mut m, MAX_DYNAMIC_DEVICES as u64);
        m.append(" (0 is the static pair, DESTROY is refused)");
        return Err(ControlError::InvalidArgument(m));
    }
    Ok(DestroyDeviceInput { size: DESTROY_DEVICE_INPUT_SIZE, id, flags: 0, reserved0: 0 })
}


// ── Replies ─────────────────────────────────────────────────────────────────

/// Detail for a reply whose `size` is not the expected one.
pub open spec fn msg_bad_size(size: u32, expected: u32) -> Seq<char> {
    "Size="@ + dec_digits(size as nat) + " (expected "@ + dec_digits(expected as nat) + ")"@
}

/// Detail for a device count past the slot table.
pub open spec fn msg_bad_count(count: u32) -> Seq<char> {
    "Count="@ + dec_digits(count as nat) + " exceeds "@ + dec_digits(TOTAL_DEVICE_SLOTS as nat)
        + " slots"@
}

/// Detail for an entry whose kind is neither render nor capture.
pub open spec fn msg_bad_kind(id: u32, kind: u32) -> Seq<char> {
    "device id "@ + dec_digits(id as nat) + ": unknown Kind="@ + dec_digits(kind as nat)
}

/// Detail for a reply of the wrong length.
pub open spec fn msg_bad_len(returned: u32, expected: usize) -> Seq<char> {
    "driver returned "@ + dec_digits(returned as nat) + " bytes, expected "@ + dec_digits(
        expected as nat,
    )
}

/// Append the `Size=.. (expected ..)` detail.
fn bad_size_detail(size: u32, expected: u32) -> (m: String)
    ensures
        m@ == msg_bad_size(size, expected),
{
    let mut m = String::from_str("Size=");
    push_decimal(&mut m, size as u64);
    m.append(" (expected ");
    push_decimal(&mut m, expected as u64);
    m.append(")");
    m
}

/// The entry `raw` decoded: its id, its kind, its name up to the first NUL,
/// and its two flags.
pub open spec fn decoded_entry(raw: DeviceInfoRaw, info: VirtualDeviceInfo) -> bool {
    &&& info.id == raw.id
    &&& DeviceKind::spec_from_wire(raw.kind) == Some(info.kind)
    &&& exists|k: int|
        text_end(raw.friendly_name@, k) && info.name@ == utf16_decode_lossy(
            raw.friendly_name@.take(k),
        )
    &&& info.is_static == (raw.flags & DEVFLAG_STATIC != 0)
    &&& info.ring_active == (raw.flags & DEVFLAG_RING_ACTIVE != 0)
}

/// Entry `i` of the reply carries a kind that names no device kind.
pub open spec fn unknown_kind_at(out: ListDevicesOutput, i: int) -> bool {
    DeviceKind::spec_from_wire(out.devices@[i].kind) is None
}

/// Decode a LIST_DEVICES reply. The snapshot is refused, in this order, for
/// a wrong `size`, for a count past the ten slots, and for the first entry
/// of an unknown kind; otherwise each of the first `count` entries is
/// decoded, in slot order.
pub fn decode_list_output(out: &ListDevicesOutput) -> (r: Result<Vec<VirtualDeviceInfo>, ControlError>)
    ensures
        out.size != LIST_DEVICES_OUTPUT_SIZE ==> is_bad_reply(
            &r,
            IOCTL_NODUS_LIST_DEVICES,
            msg_bad_size(out.size, LIST_DEVICES_OUTPUT_SIZE),
        ),
        out.size == LIST_DEVICES_OUTPUT_SIZE && out.count > TOTAL_DEVICE_SLOTS ==> is_bad_reply(
            &r,
            IOCTL_NODUS_LIST_DEVICES,
            msg_bad_count(out.count),
        ),
        out.size == LIST_DEVICES_OUTPUT_SIZE && out.count <= TOTAL_DEVICE_SLOTS && (exists|i: int|
            0 <= i < out.count && unknown_kind_at(*out, i)) ==> (exists|i: int|
            0 <= i < out.count && unknown_kind_at(*out, i) && (forall|j: int|
                0 <= j < i ==> !unknown_kind_at(*out, j)) && is_bad_reply(
                &r,
                IOCTL_NODUS_LIST_DEVICES,
                msg_bad_kind(out.devices@[i].id, out.devices@[i].kind),
            )),
        out.size == LIST_DEVICES_OUTPUT_SIZE && out.count <= TOTAL_DEVICE_SLOTS && !(exists|i: int|
            0 <= i < out.count && unknown_kind_at(*out, i)) ==> (r matches Ok(v) && v@.len()
            == out.count && forall|i: int|
            0 <= i < out.count ==> #[trigger] decoded_entry(out.devices@[i], v@[i])),
{
    if out.size != LIST_DEVICES_OUTPUT_SIZE {
        return Err(
            ControlError::BadReply {
                code: IOCTL_NODUS_LIST_DEVICES,
                detail: bad_size_detail(out.size, LIST_DEVICES_OUTPUT_SIZE),
            },
        );
    }
    if out.count as usize > TOTAL_DEVICE_SLOTS {
        let mut m = String::from_str("Count=");
        push_decimal(&mut m, out.count as u64);
        m.append(" exceeds ");
        push_decimal(&mut m, TOTAL_DEVICE_SLOTS as u64);
        m.append(" slots");
        return Err(ControlError::BadReply { code: IOCTL_NODUS_LIST_DEVICES, detail: m });
    }
    let count = out.count as usize;
    let mut devices: Vec<VirtualDeviceInfo> = Vec::new();
    let mut i: usize = 0;
    while i < count
        invariant
            count == out.count,
            count <= TOTAL_DEVICE_SLOTS,
            out.size == LIST_DEVICES_OUTPUT_SIZE,
            i <= count,
            devices@.len() == i,
            forall|j: int| 0 <= j < i ==> !unknown_kind_at(*out, j),
            forall|j: int| 0 <= j < i ==> #[trigger] decoded_entry(out.devices@[j], devices@[j]),
        decreases count - i,
    {
        let raw = out.devices[i];
        let kind = match DeviceKind::from_wire(raw.kind) {
            Some(k) => k,
            None => {
                let mut m = String::from_str("device id ");
                push_decimal(&mut m, raw.id as u64);
                m.append(": unknown Kind=");
                push_decimal(&mut m, raw.kind as u64);
                let r: Result<Vec<VirtualDeviceInfo>, ControlError> = Err(
                    ControlError::BadReply { code: IOCTL_NODUS_LIST_DEVICES, detail: m },
                );
                assert(unknown_kind_at(*out, i as int));
                return r;
            },
        };
        let info = VirtualDeviceInfo {
            id: raw.id,
            kind,
            name: decode_friendly_name(&raw.friendly_name),
            is_static: raw.flags & DEVFLAG_STATIC != 0,
            ring_active: raw.flags & DEVFLAG_RING_ACTIVE != 0,
        };
        assert(decoded_entry(out.devices@[i as int], info));
        devices.push(info);
        i += 1;
    }
    Ok(devices)
}

/// Decode a QUERY_VERSION reply: refused for a wrong `size`, else the
/// protocol and device limit as the driver states them (the caller compares
/// the protocol with CTL_VERSION itself).
pub fn decode_version_output(out: &QueryVersionOutput) -> (r: Result<ProtocolInfo, ControlError>)
    ensures
        out.size != QUERY_VERSION_OUTPUT_SIZE ==> is_bad_reply(
            &r,
            IOCTL_NODUS_QUERY_VERSION,
            msg_bad_size(out.size, QUERY_VERSION_OUTPUT_SIZE),
        ),
        out.size == QUERY_VERSION_OUTPUT_SIZE ==> r == Ok::<ProtocolInfo, ControlError>(
            ProtocolInfo { protocol: out.protocol, max_dynamic_devices: out.max_dynamic_devices },
        ),
{
    if out.size != QUERY_VERSION_OUTPUT_SIZE {
        return Err(
            ControlError::BadReply {
                code: IOCTL_NODUS_QUERY_VERSION,
                detail: bad_size_detail(out.size, QUERY_VERSION_OUTPUT_SIZE),
            },
        );
    }
    Ok(ProtocolInfo { protocol: out.protocol, max_dynamic_devices: out.max_dynamic_devices })
}

/// Decode a CREATE_DEVICE reply: refused for a wrong `size`, else the id
/// the driver assigned.
pub fn decode_create_output(out: &CreateDeviceOutput) -> (r: Result<u32, ControlError>)
    ensures
        out.size != CREATE_DEVICE_OUTPUT_SIZE ==> is_bad_reply(
            &r,
            IOCTL_NODUS_CREATE_DEVICE,
            msg_bad_size(out.size, CREATE_DEVICE_OUTPUT_SIZE),
        ),
        out.size == CREATE_DEVICE_OUTPUT_SIZE ==> r == Ok::<u32, ControlError>(out.id),
{
    if out.size != CREATE_DEVICE_OUTPUT_SIZE {
        return Err(
            ControlError::BadReply {
                code: IOCTL_NODUS_CREATE_DEVICE,
                detail: bad_size_detail(out.size, CREATE_DEVICE_OUTPUT_SIZE),
            },
        );
    }
    Ok(out.id)
}

/// A round-trip must fill the whole reply buffer: anything else is a
/// malformed reply to `code`.
pub fn check_reply_len(code: u32, returned: u32, expected: usize) -> (r: Result<(), ControlError>)
    ensures
        returned == expected ==> r is Ok,
        returned != expected ==> is_bad_reply(&r, code, msg_bad_len(returned, expected)),
{
    if returned as usize != expected {
        let mut m = String::from_str("driver returned ");
        push_decimal(&mut m, returned as u64);
        m.append(" bytes, expected ");
        push_decimal(&mut m, expected as u64);
        return Err(ControlError::BadReply { code, detail: m });
    }
    Ok(())
}

/// The hint for a failed IOCTL, by the Win32 code its NTSTATUS maps to.
pub open spec fn spec_ioctl_hint(win32: u32) -> Seq<char> {
    if win32 == 1 {
        " — the driver does not handle this IOCTL (older driver build without the control channel handler?)"@
    } else if win32 == 87 {
        " — the driver rejected the request (Size/Kind/RequestedId/name validation)"@
    } else if win32 == 21 {
        " — the device is going through PnP removal, retry later"@
    } else if win32 == 183 {
        " — the requested id is already in use"@
    } else if win32 == 1168 {
        " — no device with this id"@
    } else if win32 == 1816 {
        " — dynamic device limit (8) exhausted"@
    } else {
        ""@
    }
}

/// Turn the Win32 code of a failed IOCTL into an actionable hint; an
/// unknown code gets none.
pub fn ioctl_hint(win32: u32) -> (s: &'static str)
    ensures
        s@ == spec_ioctl_hint(win32),
{
    if win32 == 1 {
        " — the driver does not handle this IOCTL (older driver build without the control channel handler?)"
    } else if win32 == 87 {
        " — the driver rejected the request (Size/Kind/RequestedId/name validation)"
    } else if win32 == 21 {
        " — the device is going through PnP removal, retry later"
    } else if win32 == 183 {
        " — the requested id is already in use"
    } else if win32 == 1168 {
        " — no device with this id"
    } else if win32 == 1816 {
        " — dynamic device limit (8) exhausted"
    } else {
        ""
    }
}

/// The error for a failed IOCTL `code`: the system's message, and the hint
/// for the low 16 bits of its HRESULT.
pub fn ioctl_error(code: u32, hresult: u32, message: String) -> (e: ControlError)
    ensures
        e matches ControlError::Ioctl { code: c, message: m, hint: h } && c == code && m == message
            && h@ == spec_ioctl_hint(hresult & 0xFFFF),
{
    let hint = String::from_str(ioctl_hint(hresult & 0xFFFF));
    ControlError::Ioctl { code, message, hint }
}

/// HRESULT of ERROR_FILE_NOT_FOUND.
pub const HR_FILE_NOT_FOUND: u32 = 0x8007_0002;

/// HRESULT of ERROR_PATH_NOT_FOUND.
pub const HR_PATH_NOT_FOUND: u32 = 0x8007_0003;

/// The error for a failed open of the control device: a missing device
/// (no driver, or an older build) is `InterfaceNotFound`, anything else is
/// an open failure carrying the system's message and the path.
pub fn open_error(hresult: u32, message: &str) -> (e: ControlError)
    ensures
        (hresult == HR_FILE_NOT_FOUND || hresult == HR_PATH_NOT_FOUND) ==> e
            is InterfaceNotFound,
        !(hresult == HR_FILE_NOT_FOUND || hresult == HR_PATH_NOT_FOUND) ==> (e matches ControlError::Open(m)
            && m@ == message@ + " (path \\\\.\\NodusControl)"@),
{
    if hresult == HR_FILE_NOT_FOUND || hresult == HR_PATH_NOT_FOUND {
        return ControlError::InterfaceNotFound;
    }
    let mut m = String::from_str(message);
    m.append(" (path \\\\.\\NodusControl)");
    ControlError::Open(m)
}

} // verus!
