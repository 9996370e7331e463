//! The task state: the stacks that the processor switches to by itself.

use vstd::prelude::*;
use crate::gdt;
use crate::gdt::Gdt;

verus! {

/// The task state's size in bytes.
pub const TSS_BYTES: u16 = 104;

/// The stack for faults that must not run on a broken one.
pub const FAULT_STACK_BYTES: u64 = 0x4000;

/// The fields of the task state that are used.
#[derive(Clone, Copy)]
pub struct Tss {
    pub rsp0: u64,
    pub ist: [u64; 7],
    pub iomap_base: u16,
}

impl Tss {
    pub fn new() -> (t: Tss)
        ensures
            t.rsp0 == 0,
            t.iomap_base == 0,
            forall|i: int| 0 <= i < 7 ==> #[trigger] t.ist@[i] == 0,
    {
        Tss { rsp0: 0, ist: [0, 0, 0, 0, 0, 0, 0], iomap_base: 0 }
    }
}

/// One past the last byte of the fault stack at `stack`.
pub fn ist1_stack_top(stack: u64) -> (r: u64)
    requires
        stack + FAULT_STACK_BYTES <= u64::MAX,
    ensures
        r == stack + FAULT_STACK_BYTES,
{
    stack + FAULT_STACK_BYTES
}

/// Set the stack for entries from user code.
pub fn set_rsp0(t: &mut Tss, top: u64)
    ensures
        *final(t) == (Tss { rsp0: top, ..*old(t) }),
{
    t.rsp0 = top;
}

/// The stack for entries from user code.
pub fn read_back_rsp0(t: &Tss) -> (r: u64)
    ensures
        r == t.rsp0,
{
    t.rsp0
}

/// The stack for faults.
pub fn read_back_ist1(t: &Tss) -> (r: u64)
    ensures
        r == t.ist@[0],
{
    t.ist[0]
}

/// The two words that describe a task state at `base`: present, available, and
/// as large as it is.
pub open spec fn descriptor(base: u64) -> (u64, u64) {
    (
        103u64 | (base & 0xFF_FFFF) << 16 | 0x9u64 << 40 | 1u64 << 47 | (base >> 24 & 0xFF) << 56,
        base >> 32,
    )
}

fn describe(base: u64) -> (r: (u64, u64))
    ensures
        r == descriptor(base),
{
    let limit: u64 = 103;
    let lo: u64 = (limit & 0xFFFF) | ((base & 0xFF_FFFF) << 16) | (0x9u64 << 40) | (1u64 << 47) | (((
    limit >> 16) & 0xF) << 48) | (((base >> 24) & 0xFF) << 56);
    assert((103u64 & 0xFFFF) | ((base & 0xFF_FFFF) << 16) | (0x9u64 << 40) | (1u64 << 47) | (((
    103u64 >> 16) & 0xF) << 48) | (((base >> 24) & 0xFF) << 56) == 103u64 | (base & 0xFF_FFFF) << 16
        | 0x9u64 << 40 | 1u64 << 47 | (base >> 24 & 0xFF) << 56) by (bit_vector);
    (lo, base >> 32)
}

/// What [`init`] answers and does.
pub open spec fn tss_built(
    t0: &Tss,
    t1: &Tss,
    g0: &Gdt,
    g1: &Gdt,
    base: u64,
    stack: u64,
) -> bool {
    &&& t1.rsp0 == t0.rsp0
    &&& t1.ist@ == t0.ist@.update(0, (stack + FAULT_STACK_BYTES) as u64)
    &&& t1.iomap_base == TSS_BYTES
    &&& g1.entries@ == g0.entries@.update(3, descriptor(base).0).update(
        4,
        descriptor(base).1,
    )
}

/// Set the task state up: the fault stack, no port bitmap, and its descriptor
/// in the table. `base` is where the task state lies, `stack` the fault stack.
pub fn init(t: &mut Tss, g: &mut Gdt, base: u64, stack: u64)
    requires
        stack + FAULT_STACK_BYTES <= u64::MAX,
    ensures
        tss_built(old(t), final(t), old(g), final(g), base, stack),
{
    t.ist[0] = ist1_stack_top(stack);
    t.iomap_base = TSS_BYTES;
    let (lo, hi): (u64, u64) = describe(base);
    gdt::set_tss_descriptor(g, lo, hi);
}

/// Move the fault stack and the descriptor to where the kernel sees them. The
/// descriptor is written anew as available. The answer is where the table,
/// which lies at `table`, is seen then.
pub fn relocate_for_kernel(t: &mut Tss, g: &mut Gdt, base: u64, table: u64, offset: u64) -> (r: u64)
    requires
        old(t).ist@[0] + offset <= u64::MAX,
        base + offset <= u64::MAX,
        table + offset <= u64::MAX,
    ensures
        final(t).rsp0 == old(t).rsp0,
        final(t).iomap_base == old(t).iomap_base,
        final(t).ist@ == old(t).ist@.update(0, (old(t).ist@[0] + offset) as u64),
        final(g).entries@ == old(g).entries@.update(3, descriptor((base + offset) as u64).0).update(
            4,
            descriptor((base + offset) as u64).1,
        ),
        r == table + offset,
{
    t.ist[0] = t.ist[0] + offset;
    let (lo, hi): (u64, u64) = describe(base + offset);
    gdt::set_tss_descriptor(g, lo, hi);
    table + offset
}

/// The address in a descriptor.
pub open spec fn base_in(lo: u64, hi: u64) -> u64 {
    (lo >> 16 & 0xFF_FFFF) | (lo >> 56 & 0xFF) << 24 | hi << 32
}

/// A descriptor gives back the address it was made for; it is present, of the
/// type of an available task state, and its limit is the task state's last
/// byte.
pub proof fn law_descriptor(base: u64)
    ensures
        base_in(descriptor(base).0, descriptor(base).1) == base,
        descriptor(base).0 & 0xFFFF == TSS_BYTES - 1,
        descriptor(base).0 >> 40 & 0xF == 0x9,
        gdt::present(descriptor(base).0),
        gdt::level(descriptor(base).0) == 0,
{
    assert({
        let lo = 103u64 | (base & 0xFF_FFFF) << 16 | 0x9u64 << 40 | 1u64 << 47 | (base >> 24 & 0xFF)
            << 56;
        let hi = base >> 32;
        &&& (lo >> 16 & 0xFF_FFFF) | (lo >> 56 & 0xFF) << 24 | hi << 32 == base
        &&& lo & 0xFFFF == 103
        &&& lo >> 40 & 0xF == 0x9
        &&& lo >> 47 & 1 == 1
        &&& lo >> 45 & 3 == 0
    }) by (bit_vector);
}

} // verus!
