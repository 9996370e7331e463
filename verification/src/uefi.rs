//! The firmware's tables as plain values, and what is read out of them.

use vstd::prelude::*;
use crate::bytes;
use crate::halt;
use crate::halt::Halt;

verus! {

/// A firmware status; the top bit marks an error.
pub const EFI_SUCCESS: u64 = 0;
pub const EFI_BUFFER_TOO_SMALL: u64 = 0x8000_0000_0000_0005;
/// The memory map changed since its key was handed out.
pub const EFI_INVALID_PARAMETER: u64 = 0x8000_0000_0000_0002;

/// The header of every firmware table.
#[derive(Clone, Copy, Debug, PartialEq, Eq, Structural)]
pub struct TableHeader {
    pub signature: u64,
    pub revision: u32,
    pub header_size: u32,
    pub crc32: u32,
    pub reserved: u32,
}

/// The system table. Addresses are numbers, 0 for none.
#[derive(Clone, Copy, Debug, PartialEq, Eq, Structural)]
pub struct SystemTable {
    pub hdr: TableHeader,
    pub firmware_vendor: u64,
    pub firmware_revision: u32,
    pub runtime_services: u64,
    pub boot_services: u64,
    pub number_of_table_entries: u64,
    pub configuration_table: u64,
}

/// What is used of the runtime services.
#[derive(Clone, Copy, Debug, PartialEq, Eq, Structural)]
pub struct RuntimeServices {
    pub hdr: TableHeader,
    pub reset_system: u64,
}

/// What is used of the boot services.
#[derive(Clone, Copy, Debug, PartialEq, Eq, Structural)]
pub struct BootServices {
    pub hdr: TableHeader,
    pub get_memory_map: u64,
    pub handle_protocol: u64,
    pub exit_boot_services: u64,
    pub set_watchdog_timer: u64,
}

impl BootServices {
    /// The revision that the table claims.
    pub fn spec_revision(&self) -> (r: u32)
        ensures
            r == self.hdr.revision,
    {
        self.hdr.revision
    }
}

/// One region of the firmware's memory map.
#[derive(Clone, Copy, Debug, PartialEq, Eq, Structural)]
pub struct MemoryDescriptor {
    pub memory_type: u32,
    pub pad: u32,
    pub physical_start: u64,
    pub virtual_start: u64,
    pub number_of_pages: u64,
    pub attribute: u64,
}

/// The size of a descriptor; the firmware may space them further apart.
pub const DESCRIPTOR_BYTES: usize = 40;

/// The descriptor that stands at `at` of `b`.
pub open spec fn descriptor_at(b: Seq<u8>, at: int) -> MemoryDescriptor {
    MemoryDescriptor {
        memory_type: bytes::le32_at(b, at) as u32,
        pad: bytes::le32_at(b, at + 4) as u32,
        physical_start: bytes::le64_at(b, at + 8) as u64,
        virtual_start: bytes::le64_at(b, at + 16) as u64,
        number_of_pages: bytes::le64_at(b, at + 24) as u64,
        attribute: bytes::le64_at(b, at + 32) as u64,
    }
}

/// Read the descriptor at `at`.
pub fn read_descriptor(b: &[u8], at: usize) -> (r: MemoryDescriptor)
    requires
        at + 40 <= b@.len(),
    ensures
        r == descriptor_at(b@, at as int),
{
    let n: usize = b.len();
    MemoryDescriptor {
        memory_type: bytes::le32(b, at),
        pad: bytes::le32(b, at + 4),
        physical_start: bytes::le64(b, at + 8),
        virtual_start: bytes::le64(b, at + 16),
        number_of_pages: bytes::le64(b, at + 24),
        attribute: bytes::le64(b, at + 32),
    }
}

/// How much of a firmware string is read at most.
pub const MAX_UCS2_SCAN: usize = 128;

/// A firmware string: 16-bit units, or none at all.
pub struct Ucs2Str {
    pub units: Option<Vec<u16>>,
}

/// How a unit is shown.
pub open spec fn shown_unit(c: u16) -> u8 {
    if 0x20 <= c < 0x7f {
        c as u8
    } else {
        0x3F
    }
}

/// How many units are shown: up to the first zero, and no more than the
/// bound.
pub open spec fn shown_len(units: Seq<u16>, i: int) -> int
    decreases MAX_UCS2_SCAN - i,
{
    if i >= MAX_UCS2_SCAN || i >= units.len() || units[i] == 0 {
        i
    } else {
        shown_len(units, i + 1)
    }
}

/// A string as it is shown.
pub open spec fn shown(s: &Ucs2Str) -> Seq<u8> {
    match s.units {
        None => seq![0x3Cu8, 0x6E, 0x75, 0x6C, 0x6C, 0x3E],
        Some(u) => Seq::new(shown_len(u@, 0) as nat, |i: int| shown_unit(u@[i])),
    }
}

impl Ucs2Str {
    pub fn new(units: Option<Vec<u16>>) -> (s: Ucs2Str)
        ensures
            s.units == units,
    {
        Ucs2Str { units }
    }

    /// The string as ASCII bytes: a question mark for what is not printable,
    /// and `<null>` for no string.
    pub fn text(&self) -> (r: Vec<u8>)
        ensures
            r@ == shown(self),
    {
        let u: &Vec<u16> = match &self.units {
            None => {
                let mut v: Vec<u8> = Vec::new();
                v.push(0x3C);
                v.push(0x6E);
                v.push(0x75);
                v.push(0x6C);
                v.push(0x6C);
                v.push(0x3E);
                assert(v@ =~= seq![0x3Cu8, 0x6E, 0x75, 0x6C, 0x6C, 0x3E]);
                return v;
            },
            Some(u) => u,
        };
        let n: usize = u.len();
        let mut out: Vec<u8> = Vec::new();
        let mut i: usize = 0;
        while i < MAX_UCS2_SCAN && i < n && u[i] != 0
            invariant
                i <= MAX_UCS2_SCAN,
                i <= n,
                n == u@.len(),
                out@.len() == i,
                shown_len(u@, 0) == shown_len(u@, i as int),
                forall|j: int| 0 <= j < i ==> #[trigger] out@[j] == shown_unit(u@[j]),
            decreases MAX_UCS2_SCAN - i,
        {
            let c: u16 = u[i];
            out.push(if 0x20 <= c && c < 0x7f {
                c as u8
            } else {
                0x3F
            });
            i = i + 1;
        }
        assert(out@ =~= Seq::new(shown_len(u@, 0) as nat, |i: int| shown_unit(u@[i])));
        out
    }
}

/// Every byte of a shown string is printable, and there are at most
/// [`MAX_UCS2_SCAN`] of them, however the firmware's string ends.
pub proof fn law_shown_is_printable(s: Ucs2Str)
    ensures
        shown(&s).len() <= MAX_UCS2_SCAN,
        forall|i: int| 0 <= i < shown(&s).len() ==> 0x20 <= #[trigger] shown(&s)[i] < 0x7f,
{
    if let Some(u) = s.units {
        lemma_shown_len(u@, 0);
    }
}

proof fn lemma_shown_len(units: Seq<u16>, i: int)
    requires
        0 <= i <= MAX_UCS2_SCAN,
    ensures
        i <= shown_len(units, i) <= MAX_UCS2_SCAN,
    decreases MAX_UCS2_SCAN - i,
{
    if i < MAX_UCS2_SCAN && i < units.len() && units[i] != 0 {
        lemma_shown_len(units, i + 1);
    }
}

/// The system table, once it was captured.
pub struct Firmware {
    pub table: Option<SystemTable>,
}

/// Capture the system table, and note the reset entry point that the runtime
/// services hold. Without a table nothing is noted.
pub fn init(f: &mut Firmware, h: &mut Halt, table: Option<SystemTable>, runtime: RuntimeServices)
    ensures
        final(f).table == table,
        final(h).reset == (if table is Some {
            runtime.reset_system
        } else {
            old(h).reset
        }),
{
    f.table = table;
    if table.is_some() {
        halt::set_reset_system(h, runtime.reset_system);
    }
}

/// Where the vendor string lies, and the firmware's revision.
pub fn firmware_info(f: &Firmware) -> (r: Option<(u64, u32)>)
    ensures
        r == (match f.table {
            Some(t) => Some((t.firmware_vendor, t.firmware_revision)),
            None => None,
        }),
{
    match f.table {
        Some(t) => Some((t.firmware_vendor, t.firmware_revision)),
        None => None,
    }
}

/// Where the boot services table lies.
pub fn boot_services(f: &Firmware) -> (r: Option<u64>)
    ensures
        r == (match f.table {
            Some(t) => Some(t.boot_services),
            None => None,
        }),
{
    match f.table {
        Some(t) => Some(t.boot_services),
        None => None,
    }
}

/// A firmware identifier.
#[derive(Clone, Copy)]
pub struct Guid(pub u32, pub u16, pub u16, pub [u8; 8]);

/// The identifier of the protocol that tells where an image was loaded.
pub fn loaded_image_protocol_guid() -> (r: Guid)
    ensures
        r.0 == 0x5B1B_31A1,
        r.1 == 0x9562,
        r.2 == 0x11D2,
        r.3@ == seq![0x8Eu8, 0x3F, 0x00, 0xA0, 0xC9, 0x69, 0x72, 0x3B],
{
    let tail: [u8; 8] = [0x8E, 0x3F, 0x00, 0xA0, 0xC9, 0x69, 0x72, 0x3B];
    assert(tail@ =~= seq![0x8Eu8, 0x3F, 0x00, 0xA0, 0xC9, 0x69, 0x72, 0x3B]);
    Guid(0x5B1B_31A1, 0x9562, 0x11D2, tail)
}

/// What is used of the loaded-image protocol.
#[derive(Clone, Copy, Debug, PartialEq, Eq, Structural)]
pub struct LoadedImageProtocol {
    pub revision: u32,
    pub image_base: u64,
    pub image_size: u64,
}

/// Where the image was loaded, and how large it is. `status` and `interface`
/// are the firmware's answer, `image` what stands at `interface`. An answer
/// that cannot be right is none.
pub fn loaded_image_info(status: u64, interface: u64, image: LoadedImageProtocol) -> (r: Option<
    (u64, u64),
>)
    ensures
        r == (if status == EFI_SUCCESS && interface != 0 && image.image_base != 0
            && image.image_size != 0 && image.image_base % 4096 == 0 {
            Some((image.image_base, image.image_size))
        } else {
            None
        }),
{
    if status != EFI_SUCCESS || interface == 0 {
        return None;
    }
    let base: u64 = image.image_base;
    let size: u64 = image.image_size;
    if base == 0 || size == 0 || base % 4096 != 0 {
        return None;
    }
    Some((base, size))
}

} // verus!
