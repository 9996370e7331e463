//! The interrupt controllers' registers and what is written to them.

use vstd::prelude::*;

verus! {

pub const IOAPIC_PHYS: u64 = 0xFEC0_0000;
pub const HPET_PHYS: u64 = 0xFED0_0000;
pub const HPET_GEN_CONF: u64 = 0x10;

/// The timer block's bit for taking over the old timer's interrupt.
pub const HPET_LEGACY_ENABLE: u32 = 2;

/// The vector and the pin of the timer.
pub const PIT_VECTOR: u8 = 32;
pub const PIT_IOAPIC_PIN: u8 = 2;

pub const REGSEL: u64 = 0x00;
pub const REGWIN: u64 = 0x10;
pub const LAPIC_SVR: u64 = 0xF0;
pub const LAPIC_SVR_ENABLE: u32 = 0x100;
pub const LAPIC_TPR: u64 = 0x80;
pub const LAPIC_PPR: u64 = 0xA0;
pub const LAPIC_EOI_REG: u64 = 0xB0;
pub const LAPIC_ID: u64 = 0x20;
pub const LAPIC_VERSION: u64 = 0x30;
pub const LAPIC_LVT_LINT0: u64 = 0x350;
pub const LAPIC_LVT_LINT1: u64 = 0x360;
pub const LAPIC_LVT_TIMER: u64 = 0x320;
pub const LAPIC_ICR_LO: u64 = 0x300;
pub const LAPIC_ICR_HI: u64 = 0x310;
pub const LAPIC_ISR1: u64 = 0x110;
pub const LAPIC_IRR1: u64 = 0x210;

/// The register that holds the low half of a pin's entry.
pub fn rte_lo_index(pin: u8) -> (r: u32)
    ensures
        r == 0x10 + 2 * pin,
{
    0x10 + pin as u32 * 2
}

/// The register that holds the high half of a pin's entry.
pub fn rte_hi_index(pin: u8) -> (r: u32)
    ensures
        r == 0x10 + 2 * pin + 1,
{
    0x10 + pin as u32 * 2 + 1
}

/// A write to a controller register.
#[derive(Clone, Copy, Debug, PartialEq, Eq, Structural)]
pub struct RegWrite {
    pub index: u32,
    pub value: u32,
}

/// What [`route_pin_to_vector`] answers and does.
pub open spec fn pin_routed(
    pin: u8,
    vector: u8,
    r: (RegWrite, RegWrite),
) -> bool {
    &&& r.0 == (RegWrite { index: (0x10 + 2 * pin + 1) as u32, value: 0 })
    &&& r.1 == (RegWrite { index: (0x10 + 2 * pin) as u32, value: vector as u32 })
}

/// The writes that bring a pin's interrupt to the first processor as
/// `vector`, at once and by edge. The half with the mask bit comes last.
pub fn route_pin_to_vector(pin: u8, vector: u8) -> (r: (RegWrite, RegWrite))
    requires
        vector >= 32,
    ensures
        pin_routed(pin, vector, r),
{
    (
        RegWrite { index: rte_hi_index(pin), value: 0 },
        RegWrite { index: rte_lo_index(pin), value: vector as u32 },
    )
}

/// What is to be written to the local controller's register, which reads
/// `svr`, so that the controller is on. Nothing, if it is.
pub fn lapic_enable(svr: u32) -> (r: Option<u32>)
    ensures
        r == (if svr & LAPIC_SVR_ENABLE == 0 {
            Some(svr | LAPIC_SVR_ENABLE)
        } else {
            None
        }),
{
    if svr & LAPIC_SVR_ENABLE == 0 {
        Some(svr | LAPIC_SVR_ENABLE)
    } else {
        None
    }
}

/// No two pins share a register.
pub proof fn law_pins_apart(a: u8, b: u8)
    requires
        a != b,
    ensures
        0x10 + 2 * a != 0x10 + 2 * b,
        0x10 + 2 * a + 1 != 0x10 + 2 * b + 1,
        0x10 + 2 * a != 0x10 + 2 * b + 1,
{
}

/// Turning the local controller on keeps its spurious vector.
pub proof fn law_enable_keeps_vector(svr: u32)
    ensures
        (svr | LAPIC_SVR_ENABLE) & 0xFF == svr & 0xFF,
        (svr | LAPIC_SVR_ENABLE) & LAPIC_SVR_ENABLE != 0,
{
    assert((svr | 0x100) & 0xFF == svr & 0xFF && (svr | 0x100) & 0x100 != 0) by (bit_vector);
}

} // verus!
