//! The segment descriptor table.

use vstd::prelude::*;

verus! {

pub const GDT_NULL: u64 = 0;
pub const GDT_KERNEL_CODE: u64 = 0x00AF_9A00_0000_FFFF;
pub const GDT_KERNEL_DATA: u64 = 0x00CF_9200_0000_FFFF;
pub const GDT_USER_DATA: u64 = 0x00CF_F200_0000_FFFF;
pub const GDT_USER_CODE: u64 = 0x00AF_FA00_0000_FFFF;

pub const KERNEL_CODE_SELECTOR: u16 = 0x08;
pub const KERNEL_DATA_SELECTOR: u16 = 0x10;
pub const TSS_SELECTOR: u16 = 0x18;
pub const USER_DATA_SELECTOR: u16 = 0x28;
pub const USER_CODE_SELECTOR: u16 = 0x30;
pub const USER_DATA_SELECTOR_RPL3: u16 = 0x2B;
pub const USER_CODE_SELECTOR_RPL3: u16 = 0x33;

/// How many entries the table has.
pub const GDT_ENTRIES: usize = 7;

/// The limit that the processor is told: the table's last byte. The table is
/// aligned to 16 bytes, so its seven entries take up 64.
pub const GDT_LIMIT: u16 = 63;

/// The table: nothing, kernel code and data, two entries for the task state,
/// user data and code.
#[derive(Clone, Copy)]
pub struct Gdt {
    pub entries: [u64; GDT_ENTRIES],
}

/// The table as it is built, before the task state is known.
pub open spec fn fresh_entries() -> Seq<u64> {
    seq![GDT_NULL, GDT_KERNEL_CODE, GDT_KERNEL_DATA, 0, 0, GDT_USER_DATA, GDT_USER_CODE]
}

impl Gdt {
    pub fn new() -> (g: Gdt)
        ensures
            g.entries@ == fresh_entries(),
    {
        let g = Gdt {
            entries: [
                GDT_NULL,
                GDT_KERNEL_CODE,
                GDT_KERNEL_DATA,
                0,
                0,
                GDT_USER_DATA,
                GDT_USER_CODE,
            ],
        };
        assert(g.entries@ =~= fresh_entries());
        g
    }
}

/// The entries for user data and user code.
pub fn user_entries_readback(g: &Gdt) -> (r: (u64, u64))
    ensures
        r == (g.entries@[5], g.entries@[6]),
{
    (g.entries[5], g.entries[6])
}

/// What the entries for user data and user code have to be.
pub fn expected_user_entries() -> (r: (u64, u64))
    ensures
        r == (GDT_USER_DATA, GDT_USER_CODE),
{
    (GDT_USER_DATA, GDT_USER_CODE)
}

/// Enter the task state's descriptor.
pub fn set_tss_descriptor(g: &mut Gdt, lo: u64, hi: u64)
    ensures
        final(g).entries@ == old(g).entries@.update(3, lo).update(4, hi),
{
    g.entries[3] = lo;
    g.entries[4] = hi;
}

/// What the processor has to report of a table at `base`.
pub fn expected_gdt(base: u64) -> (r: (u64, u16))
    ensures
        r == (base, GDT_LIMIT),
{
    (base, GDT_LIMIT)
}

/// The privilege level that an entry asks for.
pub open spec fn level(e: u64) -> u64 {
    e >> 45 & 3
}

/// The entry is present.
pub open spec fn present(e: u64) -> bool {
    e >> 47 & 1 == 1
}

/// The entry is for code.
pub open spec fn is_code(e: u64) -> bool {
    e >> 43 & 3 == 3
}

/// The entry is for data that may be written.
pub open spec fn is_data(e: u64) -> bool {
    e >> 43 & 3 == 2 && e >> 41 & 1 == 1
}

/// The code is 64-bit code.
pub open spec fn is_long(e: u64) -> bool {
    e >> 53 & 3 == 1
}

/// The kernel's segments are for ring 0 and the user's for ring 3; the code
/// segments are 64-bit code.
pub proof fn law_segment_levels()
    ensures
        present(GDT_KERNEL_CODE) && is_code(GDT_KERNEL_CODE) && is_long(GDT_KERNEL_CODE),
        present(GDT_KERNEL_DATA) && is_data(GDT_KERNEL_DATA),
        present(GDT_USER_CODE) && is_code(GDT_USER_CODE) && is_long(GDT_USER_CODE),
        present(GDT_USER_DATA) && is_data(GDT_USER_DATA),
        level(GDT_KERNEL_CODE) == 0 && level(GDT_KERNEL_DATA) == 0,
        level(GDT_USER_CODE) == 3 && level(GDT_USER_DATA) == 3,
{
    assert({
        let kc = 0x00AF_9A00_0000_FFFFu64;
        let kd = 0x00CF_9200_0000_FFFFu64;
        let uc = 0x00AF_FA00_0000_FFFFu64;
        let ud = 0x00CF_F200_0000_FFFFu64;
        &&& kc >> 47 & 1 == 1 && kc >> 43 & 3 == 3 && kc >> 53 & 3 == 1
        &&& uc >> 47 & 1 == 1 && uc >> 43 & 3 == 3 && uc >> 53 & 3 == 1
        &&& kd >> 47 & 1 == 1 && kd >> 43 & 3 == 2 && kd >> 41 & 1 == 1
        &&& ud >> 47 & 1 == 1 && ud >> 43 & 3 == 2 && ud >> 41 & 1 == 1
        &&& kc >> 45 & 3 == 0 && kd >> 45 & 3 == 0 && uc >> 45 & 3 == 3 && ud >> 45 & 3 == 3
    }) by (bit_vector);
}

} // verus!
