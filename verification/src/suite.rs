//! Running a list of self-tests: one marker line each, and a result line.

use vstd::prelude::*;
use vstd::string::*;
use crate::log;

verus! {

/// One self-test and what came of it.
#[derive(Clone, Copy)]
pub struct Outcome {
    pub name: &'static str,
    pub result: Result<(), &'static str>,
}

/// The marker of one test.
pub open spec fn marker_of(suite: Seq<char>, o: Outcome) -> Seq<char> {
    match o.result {
        Ok(_) => suite + ":test:"@ + o.name@ + ": PASS"@,
        Err(why) => suite + ":test:"@ + o.name@ + ": FAIL ("@ + why@ + ")"@,
    }
}

/// How many of the first `n` tests passed.
pub open spec fn passed_below(outcomes: Seq<Outcome>, n: int) -> int
    decreases n,
{
    if n <= 0 {
        0
    } else {
        passed_below(outcomes, n - 1) + (if outcomes[n - 1].result is Ok {
            1int
        } else {
            0int
        })
    }
}

/// The result line.
pub open spec fn result_line(suite: Seq<char>, passed: int, total: int) -> Seq<char> {
    suite + (if passed == total {
        ": RESULT PASS ("@
    } else {
        ": RESULT FAIL ("@
    }) + log::decimal(passed as nat) + "/"@ + log::decimal(total as nat) + ")"@
}

/// The line of one test, to write as it ends.
pub fn marker(suite: &str, o: Outcome) -> (r: String)
    ensures
        r@ == marker_of(suite@, o),
{
    let mut s: String = String::from_str(suite);
    s.append(":test:");
    s.append(o.name);
    match o.result {
        Ok(_) => {
            s.append(": PASS");
        },
        Err(why) => {
            s.append(": FAIL (");
            s.append(why);
            s.append(")");
        },
    }
    s
}

/// What a suite writes, and whether all of it passed.
pub struct Report {
    pub lines: Vec<String>,
    pub passed: bool,
}

/// Report on a suite whose earlier part had `before` passes out of
/// `before_total`.
pub fn run_rest(suite: &str, before: u32, before_total: u32, outcomes: &[Outcome]) -> (r: Report)
    requires
        outcomes@.len() < 0x1_0000_0000,
    ensures
        r.lines@.len() == outcomes@.len() + 1,
        forall|i: int|
            0 <= i < outcomes@.len() ==> (#[trigger] r.lines@[i])@ == marker_of(
                suite@,
                outcomes@[i],
            ),
        r.lines@.last()@ == result_line(
            suite@,
            before + passed_below(outcomes@, outcomes@.len() as int),
            before_total + outcomes@.len() as int,
        ),
        r.passed == (before + passed_below(outcomes@, outcomes@.len() as int) == before_total
            + outcomes@.len()),
{
    let mut lines: Vec<String> = Vec::new();
    let n: usize = outcomes.len();
    let mut passed: u64 = before as u64;
    let mut i: usize = 0;
    while i < n
        invariant
            i <= n,
            n == outcomes@.len(),
            n < 0x1_0000_0000,
            before <= passed <= before + i,
            passed == before + passed_below(outcomes@, i as int),
            lines@.len() == i,
            forall|j: int|
                0 <= j < i ==> (#[trigger] lines@[j])@ == marker_of(suite@, outcomes@[j]),
        decreases n - i,
    {
        let o: Outcome = outcomes[i];
        lines.push(marker(suite, o));
        if o.result.is_ok() {
            passed = passed + 1;
        }
        i = i + 1;
    }
    let total: u64 = before_total as u64 + n as u64;
    let ok: bool = passed == total;
    let mut s: String = String::from_str(suite);
    if ok {
        s.append(": RESULT PASS (");
    } else {
        s.append(": RESULT FAIL (");
    }
    log::append_decimal(&mut s, passed);
    s.append("/");
    log::append_decimal(&mut s, total);
    s.append(")");
    lines.push(s);
    Report { lines, passed: ok }
}

/// Report on a whole suite.
pub fn run_suite(suite: &str, outcomes: &[Outcome]) -> (r: Report)
    requires
        outcomes@.len() < 0x1_0000_0000,
    ensures
        r.lines@.len() == outcomes@.len() + 1,
        forall|i: int|
            0 <= i < outcomes@.len() ==> (#[trigger] r.lines@[i])@ == marker_of(
                suite@,
                outcomes@[i],
            ),
        r.lines@.last()@ == result_line(
            suite@,
            passed_below(outcomes@, outcomes@.len() as int),
            outcomes@.len() as int,
        ),
        r.passed == (passed_below(outcomes@, outcomes@.len() as int) == outcomes@.len()),
{
    run_rest(suite, 0, 0, outcomes)
}

/// A suite passes if and only if each of its tests does.
pub proof fn law_suite_passes(outcomes: Seq<Outcome>, n: int)
    requires
        0 <= n <= outcomes.len(),
    ensures
        0 <= passed_below(outcomes, n) <= n,
        passed_below(outcomes, n) == n <==> forall|i: int|
            0 <= i < n ==> (#[trigger] outcomes[i]).result is Ok,
    decreases n,
{
    if n > 0 {
        law_suite_passes(outcomes, n - 1);
    }
}

/// How many tests passed.
pub fn count_passed(outcomes: &[Outcome]) -> (r: usize)
    ensures
        r == passed_below(outcomes@, outcomes@.len() as int),
{
    let n: usize = outcomes.len();
    let mut passed: usize = 0;
    let mut i: usize = 0;
    while i < n
        invariant
            i <= n,
            n == outcomes@.len(),
            passed <= i,
            passed == passed_below(outcomes@, i as int),
        decreases n - i,
    {
        if outcomes[i].result.is_ok() {
            passed = passed + 1;
        }
        i = i + 1;
    }
    passed
}

} // verus!
