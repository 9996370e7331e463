//! Faults that are expected: a test names the vector, provokes the fault, and
//! execution goes on where the test says.

use vstd::prelude::*;

verus! {

/// What was seen of the last expected fault.
#[derive(Clone, Copy, Debug, PartialEq, Eq, Structural)]
pub struct ObservedFault {
    pub valid: bool,
    pub vector: u64,
    pub error_code: u64,
    pub cr2: u64,
}

/// The expectation, where to go on, and what was seen. `armed` is the vector
/// plus one, or zero without an expectation.
#[derive(Clone, Copy, Debug, PartialEq, Eq, Structural)]
pub struct Faults {
    pub armed: u16,
    pub resume: u64,
    pub seen: ObservedFault,
}

/// Nothing was seen.
pub open spec fn unseen() -> ObservedFault {
    ObservedFault { valid: false, vector: 0, error_code: 0, cr2: 0 }
}

impl Faults {
    pub fn new() -> (f: Faults)
        ensures
            f == (Faults { armed: 0, resume: 0, seen: unseen() }),
    {
        Faults {
            armed: 0,
            resume: 0,
            seen: ObservedFault { valid: false, vector: 0, error_code: 0, cr2: 0 },
        }
    }
}

/// Expect a fault with this vector, and forget what was seen before.
pub fn arm(f: &mut Faults, vector: u8)
    ensures
        *final(f) == (Faults { armed: (vector + 1) as u16, resume: 0, seen: unseen() }),
{
    f.seen = ObservedFault { valid: false, vector: 0, error_code: 0, cr2: 0 };
    f.resume = 0;
    f.armed = vector as u16 + 1;
}

/// What [`arm_with_resume`] answers and does.
pub open spec fn fault_armed(
    f0: &Faults,
    f1: &Faults,
    vector: u8,
    resume: u64,
) -> bool {
    &&& *f1 == (Faults { armed: (vector + 1) as u16, resume, seen: unseen() })
}

/// Expect a fault with this vector, and go on at `resume` after it.
pub fn arm_with_resume(f: &mut Faults, vector: u8, resume: u64)
    ensures
        fault_armed(old(f), final(f), vector, resume),
{
    arm(f, vector);
    f.resume = resume;
}

/// Expect no fault.
pub fn disarm(f: &mut Faults)
    ensures
        *final(f) == (Faults { armed: 0, ..*old(f) }),
{
    f.armed = 0;
}

/// The fault is the one that is expected.
pub open spec fn expected(f: &Faults, vector: u64) -> bool {
    vector < 32 && f.armed == vector + 1
}

/// A fault came. If it is the expected one, expect no more, and the answer is
/// where to go on. An expected fault without such a place is as bad as an
/// unexpected one.
pub fn take_expected(f: &mut Faults, vector: u64) -> (r: Option<u64>)
    ensures
        r == (if expected(old(f), vector) && old(f).resume != 0 {
            Some(old(f).resume)
        } else {
            None
        }),
        *final(f) == (if expected(old(f), vector) {
            Faults { armed: 0, ..*old(f) }
        } else {
            *old(f)
        }),
{
    if vector < 32 && f.armed as u64 == vector + 1 {
        f.armed = 0;
        if f.resume != 0 {
            return Some(f.resume);
        }
    }
    None
}

/// Note what was seen.
pub fn record(f: &mut Faults, vector: u64, error_code: u64, cr2: u64)
    ensures
        *final(f) == (Faults {
            seen: ObservedFault { valid: true, vector, error_code, cr2 },
            ..*old(f)
        }),
{
    f.seen = ObservedFault { valid: true, vector, error_code, cr2 };
}

/// What was seen.
pub fn observed(f: &Faults) -> (r: ObservedFault)
    ensures
        r == f.seen,
{
    f.seen
}

/// An expectation is good for one fault: a second one of the same kind is not
/// expected.
pub proof fn law_expected_once(f0: Faults, vector: u64)
    requires
        expected(&f0, vector),
    ensures
        !expected(&(Faults { armed: 0, ..f0 }), vector),
{
}

} // verus!
