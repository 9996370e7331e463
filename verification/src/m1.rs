//! The first suite of self-tests: the processor, the tables, the firmware's
//! memory map, the serial port, the first interrupts.

use vstd::prelude::*;
use crate::bootinfo::MemoryMapSummary;
use crate::cpu::CpuInfo;
use crate::suite;
use crate::suite::{Outcome, Report};
use crate::uefi::DESCRIPTOR_BYTES;

verus! {

pub const CR0_PE: u64 = 0x1;
pub const CR0_PG: u64 = 0x8000_0000;
pub const CR4_PAE: u64 = 0x20;
pub const EFER_LME: u64 = 0x100;
pub const EFER_LMA: u64 = 0x400;
/// How many interrupts must be taken: a second one comes only if the first was
/// acknowledged.
pub const REQUIRED_TICKS: u64 = 2;
/// How often the count is read at most while waiting for them.
pub const SPIN_BOUND: u64 = 400_000_000;

/// The control registers say that the processor is in long mode with paging.
pub fn test_cpu_long_mode(cr0: u64, cr4: u64, efer: u64) -> (r: Result<(), &'static str>)
    ensures
        r == (if cr0 & CR0_PG == 0 || cr0 & CR0_PE == 0 {
            Err::<(), &'static str>("CR0: paging or protection not enabled")
        } else if cr4 & CR4_PAE == 0 {
            Err("CR4.PAE not set (required in long mode)")
        } else if efer & EFER_LME == 0 || efer & EFER_LMA == 0 {
            Err("EFER: long mode not enabled/active")
        } else {
            Ok(())
        }),
{
    if cr0 & CR0_PG == 0 || cr0 & CR0_PE == 0 {
        return Err("CR0: paging or protection not enabled");
    }
    if cr4 & CR4_PAE == 0 {
        return Err("CR4.PAE not set (required in long mode)");
    }
    if efer & EFER_LME == 0 || efer & EFER_LMA == 0 {
        return Err("EFER: long mode not enabled/active");
    }
    Ok(())
}

/// A byte of the vendor can be shown.
pub open spec fn some_printable(vendor: Seq<u8>) -> bool {
    exists|i: int| 0 <= i < vendor.len() && 0x20 <= #[trigger] vendor[i] < 0x7f
}

/// The processor's identity makes sense.
pub fn test_cpuid_sane(cpu: &CpuInfo) -> (r: Result<(), &'static str>)
    ensures
        r == (if !some_printable(cpu.vendor@) {
            Err::<(), &'static str>("CPUID vendor string is empty/non-printable")
        } else if !cpu.has_long_mode {
            Err("CPUID reports no long-mode support (yet we are in long mode?)")
        } else {
            Ok(())
        }),
{
    let mut any: bool = false;
    let mut i: usize = 0;
    while i < 12
        invariant
            i <= 12,
            any <==> exists|j: int| 0 <= j < i && 0x20 <= #[trigger] cpu.vendor@[j] < 0x7f,
        decreases 12 - i,
    {
        let b: u8 = cpu.vendor[i];
        if 0x20 <= b && b < 0x7f {
            assert(0x20 <= cpu.vendor@[i as int] < 0x7f);
            any = true;
        }
        i = i + 1;
    }
    if !any {
        return Err("CPUID vendor string is empty/non-printable");
    }
    if !cpu.has_long_mode {
        return Err("CPUID reports no long-mode support (yet we are in long mode?)");
    }
    Ok(())
}

/// The processor reports the segment table that was loaded.
pub fn test_gdt_installed(read: (u64, u16), want: (u64, u16)) -> (r: Result<(), &'static str>)
    ensures
        r == (if read == want {
            Ok::<(), &'static str>(())
        } else {
            Err("sgdt does not report our GDT (base/limit mismatch)")
        }),
{
    if read.0 != want.0 || read.1 != want.1 {
        return Err("sgdt does not report our GDT (base/limit mismatch)");
    }
    Ok(())
}

/// The processor reports the interrupt table that was loaded, and no gate of it is
/// bad. `bad` is what the audit counted.
pub fn test_idt_installed(read: (u64, u16), want: (u64, u16), bad: (usize, usize, usize)) -> (r:
    Result<(), &'static str>)
    ensures
        r == (if read != want {
            Err::<(), &'static str>("sidt does not report our IDT (base/limit mismatch)")
        } else if bad != (0usize, 0usize, 0usize) {
            Err("IDT gate encoding audit failed")
        } else {
            Ok(())
        }),
{
    if read.0 != want.0 || read.1 != want.1 {
        return Err("sidt does not report our IDT (base/limit mismatch)");
    }
    if bad.0 != 0 || bad.1 != 0 || bad.2 != 0 {
        return Err("IDT gate encoding audit failed");
    }
    Ok(())
}

/// The firmware's memory map makes sense: `None` if it could not be had.
pub fn test_memory_map(captured: Option<&MemoryMapSummary>) -> (r: Result<(), &'static str>)
    requires
        captured matches Some(s) ==> s.conventional_pages * 4096 <= u64::MAX,
    ensures
        r == (match captured {
            None => Err::<(), &'static str>("UEFI GetMemoryMap did not succeed"),
            Some(s) => if s.region_count == 0 {
                Err("firmware reported zero memory-map regions")
            } else if s.descriptor_size < DESCRIPTOR_BYTES {
                Err("descriptor size below UEFI v1 struct size")
            } else if s.conventional_pages * 4096 / 1048576 < 64 {
                Err(
                    "less than 64MiB conventional memory in a 512MiB VM \u{2014} parsing is wrong",
                )
            } else {
                Ok(())
            },
        }),
{
    let summary: &MemoryMapSummary = match captured {
        None => {
            return Err("UEFI GetMemoryMap did not succeed");
        },
        Some(s) => s,
    };
    if summary.region_count == 0 {
        return Err("firmware reported zero memory-map regions");
    }
    if summary.descriptor_size < DESCRIPTOR_BYTES {
        return Err("descriptor size below UEFI v1 struct size");
    }
    if summary.conventional_mib() < 64 {
        return Err("less than 64MiB conventional memory in a 512MiB VM \u{2014} parsing is wrong");
    }
    Ok(())
}

/// The product and quotient that wide arithmetic must give.
pub const WIDE_A: u128 = 0xDEAD_BEEF_CAFE_BABE;
pub const WIDE_B: u128 = 0x1234_5678_9ABC_DEF1;

/// Wide arithmetic: `a` times `b` over seven.
pub fn wide(a: u64, b: u64) -> (r: u128)
    ensures
        r == a * b / 7,
{
    assert(0 <= a * b <= 0xFFFF_FFFF_FFFF_FFFF * 0xFFFF_FFFF_FFFF_FFFF) by (nonlinear_arith);
    a as u128 * b as u128 / 7
}

/// Wide arithmetic gives what it must. `got` is what the machine made of
/// [`WIDE_A`] times [`WIDE_B`] over seven.
pub fn test_wide_math(got: u128) -> (r: Result<(), &'static str>)
    ensures
        r == (if got == WIDE_A * WIDE_B / 7 {
            Ok::<(), &'static str>(())
        } else {
            Err("u128 arithmetic disagrees with compile-time evaluation")
        }),
{
    let want: u128 = wide(0xDEAD_BEEF_CAFE_BABE, 0x1234_5678_9ABC_DEF1);
    if got != want {
        return Err("u128 arithmetic disagrees with compile-time evaluation");
    }
    Ok(())
}

/// Whether to go on waiting for interrupts: too few were taken, and the count
/// was not read too often.
pub fn ticks_awaited(absorbed: u64, spins: u64) -> (r: bool)
    ensures
        r == (absorbed < REQUIRED_TICKS && spins + 1 < SPIN_BOUND),
{
    absorbed < REQUIRED_TICKS && spins < SPIN_BOUND - 1
}

/// Enough interrupts were taken.
pub fn test_timer_irq_absorbed(absorbed: u64) -> (r: Result<(), &'static str>)
    ensures
        r == (if absorbed < REQUIRED_TICKS {
            Err::<(), &'static str>(
                "fewer external interrupts absorbed than required within spin bound",
            )
        } else {
            Ok(())
        }),
{
    if absorbed < REQUIRED_TICKS {
        return Err("fewer external interrupts absorbed than required within spin bound");
    }
    Ok(())
}

/// The name of test `i`.
#[verifier::allow_in_spec]
pub fn test_name(i: u64) -> &'static str
    returns
        (match i {
            0 => "serial_loopback",
            1 => "cpu_long_mode",
            2 => "cpuid_sane",
            3 => "gdt_installed",
            4 => "idt_installed",
            5 => "memory_map",
            6 => "wide_math",
            _ => "timer_irq_absorbed",
        }),
{
    match i {
        0 => "serial_loopback",
        1 => "cpu_long_mode",
        2 => "cpuid_sane",
        3 => "gdt_installed",
        4 => "idt_installed",
        5 => "memory_map",
        6 => "wide_math",
        _ => "timer_irq_absorbed",
    }
}

/// The tests with what came of them.
pub open spec fn outcomes(results: Seq<Result<(), &'static str>>) -> Seq<Outcome> {
    Seq::new(
        results.len(),
        |i: int| Outcome { name: test_name(i as u64), result: results[i] },
    )
}

/// Report on the suite: its lines, how many tests passed, and how many there
/// are.
pub fn run_all(results: &[Result<(), &'static str>; 8]) -> (r: (Report, usize, usize))
    ensures
        r.1 == suite::passed_below(outcomes(results@), 8),
        r.2 == 8,
        r.0.lines@.len() == 9,
        forall|i: int|
            0 <= i < 8 ==> (#[trigger] r.0.lines@[i])@ == suite::marker_of(
                "m1"@,
                outcomes(results@)[i],
            ),
        r.0.lines@[8]@ == suite::result_line("m1"@, r.1 as int, 8),
        r.0.passed == (r.1 == 8),
{
    let all: [Outcome; 8] = [
        Outcome { name: test_name(0), result: results[0] },
        Outcome { name: test_name(1), result: results[1] },
        Outcome { name: test_name(2), result: results[2] },
        Outcome { name: test_name(3), result: results[3] },
        Outcome { name: test_name(4), result: results[4] },
        Outcome { name: test_name(5), result: results[5] },
        Outcome { name: test_name(6), result: results[6] },
        Outcome { name: test_name(7), result: results[7] },
    ];
    assert(all@ =~= outcomes(results@));
    let passed: usize = suite::count_passed(&all);
    (suite::run_suite("m1", &all), passed, 8)
}

} // verus!
