//! The firmware's kinds of memory.

use vstd::prelude::*;

verus! {

pub const RESERVED: u32 = 0;
pub const LOADER_CODE: u32 = 1;
pub const LOADER_DATA: u32 = 2;
pub const BOOT_SERVICES_CODE: u32 = 3;
pub const BOOT_SERVICES_DATA: u32 = 4;
pub const RUNTIME_SERVICES_CODE: u32 = 5;
pub const RUNTIME_SERVICES_DATA: u32 = 6;
pub const CONVENTIONAL: u32 = 7;
pub const UNUSABLE: u32 = 8;
pub const ACPI_RECLAIM: u32 = 9;
pub const ACPI_NVS: u32 = 10;
pub const MMIO: u32 = 11;
pub const MMIO_PORT_SPACE: u32 = 12;
pub const PAL_CODE: u32 = 13;
pub const PERSISTENT: u32 = 14;

/// The name of a kind of memory.
#[verifier::allow_in_spec]
pub fn name(t: u32) -> &'static str
    returns
        (if t == RESERVED {
            "Reserved"
        } else if t == LOADER_CODE {
            "LoaderCode"
        } else if t == LOADER_DATA {
            "LoaderData"
        } else if t == BOOT_SERVICES_CODE {
            "BootServicesCode"
        } else if t == BOOT_SERVICES_DATA {
            "BootServicesData"
        } else if t == RUNTIME_SERVICES_CODE {
            "RuntimeServicesCode"
        } else if t == RUNTIME_SERVICES_DATA {
            "RuntimeServicesData"
        } else if t == CONVENTIONAL {
            "ConventionalMemory"
        } else if t == UNUSABLE {
            "UnusableMemory"
        } else if t == ACPI_RECLAIM {
            "ACPIReclaim"
        } else if t == ACPI_NVS {
            "ACPIMemoryNVS"
        } else if t == MMIO {
            "MemoryMappedIO"
        } else if t == MMIO_PORT_SPACE {
            "MMIOPortSpace"
        } else if t == PAL_CODE {
            "PalCode"
        } else if t == PERSISTENT {
            "PersistentMemory"
        } else {
            "Unknown"
        }),
{
    match t {
        0 => "Reserved",
        1 => "LoaderCode",
        2 => "LoaderData",
        3 => "BootServicesCode",
        4 => "BootServicesData",
        5 => "RuntimeServicesCode",
        6 => "RuntimeServicesData",
        7 => "ConventionalMemory",
        8 => "UnusableMemory",
        9 => "ACPIReclaim",
        10 => "ACPIMemoryNVS",
        11 => "MemoryMappedIO",
        12 => "MMIOPortSpace",
        13 => "PalCode",
        14 => "PersistentMemory",
        _ => "Unknown",
    }
}

/// What becomes of a kind of memory.
#[derive(Clone, Copy, Debug, PartialEq, Eq, Structural)]
pub enum Fate {
    /// Free from the start.
    Free,
    /// Free once the firmware's boot services are gone.
    Reclaimable,
    /// The firmware's for good.
    Runtime,
    /// Not for use.
    Kept,
}

pub open spec fn fate_of(t: u32) -> Fate {
    if t == CONVENTIONAL {
        Fate::Free
    } else if t == BOOT_SERVICES_CODE || t == BOOT_SERVICES_DATA || t == ACPI_RECLAIM {
        Fate::Reclaimable
    } else if t == RUNTIME_SERVICES_CODE || t == RUNTIME_SERVICES_DATA || t == ACPI_NVS {
        Fate::Runtime
    } else {
        Fate::Kept
    }
}

/// What becomes of memory of kind `t`.
pub fn fate(t: u32) -> (r: Fate)
    ensures
        r == fate_of(t),
{
    if t == CONVENTIONAL {
        Fate::Free
    } else if t == BOOT_SERVICES_CODE || t == BOOT_SERVICES_DATA || t == ACPI_RECLAIM {
        Fate::Reclaimable
    } else if t == RUNTIME_SERVICES_CODE || t == RUNTIME_SERVICES_DATA || t == ACPI_NVS {
        Fate::Runtime
    } else {
        Fate::Kept
    }
}

} // verus!
