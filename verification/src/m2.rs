//! The second suite of self-tests: the task state, and faults that are
//! provoked and recovered from.

use vstd::prelude::*;
use crate::faults::ObservedFault;
use crate::gdt::TSS_SELECTOR;
use crate::suite;
use crate::suite::{Outcome, Report};

verus! {

/// An address that no address space maps.
pub const UNMAPPED_CANONICAL_ADDR: u64 = 0x0000_6000_0000_0000;

/// The task register holds the task state, and that the fault stack.
pub fn test_tss_installed(tr: u16, ist1: u64, want: u64) -> (r: Result<(), &'static str>)
    ensures
        r == (if tr != TSS_SELECTOR {
            Err::<(), &'static str>("task register does not hold our TSS selector")
        } else if ist1 != want || want == 0 {
            Err("TSS IST1 does not point at the fault-stack top")
        } else {
            Ok(())
        }),
{
    if tr != TSS_SELECTOR {
        return Err("task register does not hold our TSS selector");
    }
    if ist1 != want || want == 0 {
        return Err("TSS IST1 does not point at the fault-stack top");
    }
    Ok(())
}

/// A division by zero was seen as one.
pub fn test_exc_de_recovered(obs: ObservedFault) -> (r: Result<(), &'static str>)
    ensures
        r == (if !obs.valid || obs.vector != 0 {
            Err::<(), &'static str>("#DE was not delivered/recorded through our exception path")
        } else {
            Ok(())
        }),
{
    if !obs.valid || obs.vector != 0 {
        return Err("#DE was not delivered/recorded through our exception path");
    }
    Ok(())
}

/// A write to an address that is not mapped was seen as one.
pub fn test_exc_pf_recovered(obs: ObservedFault) -> (r: Result<(), &'static str>)
    ensures
        r == (if !obs.valid || obs.vector != 14 {
            Err::<(), &'static str>("#PF was not delivered/recorded through our exception path")
        } else if obs.cr2 != UNMAPPED_CANONICAL_ADDR {
            Err("CR2 did not report the faulting linear address")
        } else if obs.error_code % 4 != 2 {
            Err("error code is not not-present+write for an unmapped write")
        } else {
            Ok(())
        }),
{
    if !obs.valid || obs.vector != 14 {
        return Err("#PF was not delivered/recorded through our exception path");
    }
    if obs.cr2 != UNMAPPED_CANONICAL_ADDR {
        return Err("CR2 did not report the faulting linear address");
    }
    if obs.error_code % 4 != 2 {
        return Err("error code is not not-present+write for an unmapped write");
    }
    Ok(())
}

/// The name of test `i`.
#[verifier::allow_in_spec]
pub fn test_name(i: u64) -> &'static str
    returns
        (match i {
            0 => "tss_installed",
            1 => "exc_de_recovered",
            _ => "exc_pf_recovered",
        }),
{
    match i {
        0 => "tss_installed",
        1 => "exc_de_recovered",
        _ => "exc_pf_recovered",
    }
}

/// The tests with what came of them.
pub open spec fn outcomes(results: Seq<Result<(), &'static str>>) -> Seq<Outcome> {
    Seq::new(
        results.len(),
        |i: int| Outcome { name: test_name(i as u64), result: results[i] },
    )
}

/// Report on the suite: its lines, how many tests passed, and how many there
/// are.
pub fn run_all(results: &[Result<(), &'static str>; 3]) -> (r: (Report, usize, usize))
    ensures
        r.1 == suite::passed_below(outcomes(results@), 3),
        r.2 == 3,
        r.0.lines@.len() == 4,
        forall|i: int|
            0 <= i < 3 ==> (#[trigger] r.0.lines@[i])@ == suite::marker_of(
                "m2"@,
                outcomes(results@)[i],
            ),
        r.0.lines@[3]@ == suite::result_line("m2"@, r.1 as int, 3),
        r.0.passed == (r.1 == 3),
{
    let all: [Outcome; 3] = [
        Outcome { name: test_name(0), result: results[0] },
        Outcome { name: test_name(1), result: results[1] },
        Outcome { name: test_name(2), result: results[2] },
    ];
    assert(all@ =~= outcomes(results@));
    let passed: usize = suite::count_passed(&all);
    (suite::run_suite("m2", &all), passed, 3)
}

} // verus!
