//! The clock: a fast counter whose rate is measured once.

use vstd::prelude::*;
use crate::pit::OSCILLATOR_HZ;

verus! {

/// How often the kernel ticks, in hertz.
pub const KERNEL_TICK_HZ: u32 = 100;
/// How long a measurement is, in ticks of the oscillator.
pub const CAL_WINDOW_COUNTS: u32 = 23_863;
/// How far two measurements may be apart, in percent.
pub const CAL_AGREE_PERCENT: u64 = 5;
/// What a rate can be, in hertz.
pub const TSC_HZ_MIN: u64 = 100_000_000;
pub const TSC_HZ_MAX: u64 = 8_000_000_000;
/// A wait is given up after so many times what was asked for.
pub const WAIT_FACTOR: u64 = 4;

/// The rate of the fast counter, 0 while it is not known.
#[derive(Clone, Copy, Debug, PartialEq, Eq, Structural)]
pub struct Clock {
    pub tsc_hz: u64,
}

impl Clock {
    pub open spec fn wf(self) -> bool {
        self.tsc_hz == 0 || TSC_HZ_MIN <= self.tsc_hz <= TSC_HZ_MAX
    }

    /// A clock that was not measured.
    pub fn new() -> (c: Clock)
        ensures
            c.wf(),
            c.tsc_hz == 0,
    {
        Clock { tsc_hz: 0 }
    }
}

/// The rate that one measurement gives.
pub open spec fn rate(counts: int, tsc: int) -> int {
    tsc * OSCILLATOR_HZ / counts
}

/// What two measurements come to: a rate, or why there is none.
pub open spec fn calibration(counts1: int, tsc1: int, counts2: int, tsc2: int) -> Result<
    int,
    &'static str,
> {
    let a = rate(counts1, tsc1);
    let b = rate(counts2, tsc2);
    let lo = if a <= b {
        a
    } else {
        b
    };
    let hi = if a <= b {
        b
    } else {
        a
    };
    let hz = (a + b) / 2;
    if counts1 == 0 || counts2 == 0 || tsc1 == 0 || tsc2 == 0 {
        Err("calibration window measured zero (PIT or TSC not advancing?)")
    } else if hi - lo > lo * CAL_AGREE_PERCENT / 100 {
        Err("calibration windows disagree beyond tolerance")
    } else if !(TSC_HZ_MIN <= hz <= TSC_HZ_MAX) {
        Err("calibrated TSC frequency outside plausible bounds")
    } else {
        Ok(hz)
    }
}

fn measured(counts: u64, tsc: u64) -> (r: u128)
    requires
        counts > 0,
    ensures
        r == rate(counts as int, tsc as int),
        r <= 0x20_0000_0000_0000_0000_0000,
{
    assert(0 <= tsc * OSCILLATOR_HZ <= 0x20_0000_0000_0000_0000_0000) by (nonlinear_arith)
        requires
            OSCILLATOR_HZ == 1_193_182,
    ;
    let p: u128 = tsc as u128 * OSCILLATOR_HZ as u128;
    assert(p as int / counts as int <= p as int) by (nonlinear_arith)
        requires
            counts > 0,
            p >= 0,
    ;
    p / counts as u128
}

/// What [`init`] answers and does.
pub open spec fn rate_found(
    c0: &Clock,
    c1: &Clock,
    counts1: u64,
    tsc1: u64,
    counts2: u64,
    tsc2: u64,
    r: Result<(), &'static str>,
) -> bool {
    &&& c1.wf()
    &&& match calibration(counts1 as int, tsc1 as int, counts2 as int, tsc2 as int) {
        Err(e) => r == Err::<(), &'static str>(e) && *c1 == *c0,
        Ok(hz) => r == Ok::<(), &'static str>(()) && c1.tsc_hz == hz,
    }
}

/// Take the rate from two measurements, each the ticks of the oscillator and
/// of the fast counter in one window.
pub fn init(c: &mut Clock, counts1: u64, tsc1: u64, counts2: u64, tsc2: u64) -> (r: Result<
    (),
    &'static str,
>)
    requires
        old(c).wf(),
    ensures
        rate_found(old(c), final(c), counts1, tsc1, counts2, tsc2, r),
{
    if counts1 == 0 || counts2 == 0 || tsc1 == 0 || tsc2 == 0 {
        return Err("calibration window measured zero (PIT or TSC not advancing?)");
    }
    let hz1: u128 = measured(counts1, tsc1);
    let hz2: u128 = measured(counts2, tsc2);
    let lo: u128 = if hz1 <= hz2 {
        hz1
    } else {
        hz2
    };
    let hi: u128 = if hz1 <= hz2 {
        hz2
    } else {
        hz1
    };
    assert(lo * CAL_AGREE_PERCENT <= 0x200_0000_0000_0000_0000_0000) by (nonlinear_arith)
        requires
            lo <= 0x20_0000_0000_0000_0000_0000,
            CAL_AGREE_PERCENT == 5,
    ;
    if hi - lo > lo * CAL_AGREE_PERCENT as u128 / 100 {
        return Err("calibration windows disagree beyond tolerance");
    }
    let hz: u128 = (hz1 + hz2) / 2;
    if hz < TSC_HZ_MIN as u128 || hz > TSC_HZ_MAX as u128 {
        return Err("calibrated TSC frequency outside plausible bounds");
    }
    c.tsc_hz = hz as u64;
    Ok(())
}

/// The rate, 0 while it is not known.
pub fn tsc_hz(c: &Clock) -> (r: u64)
    ensures
        r == c.tsc_hz,
{
    c.tsc_hz
}

/// The reading of the fast counter out of its halves.
pub fn now_ticks(lo: u32, hi: u32) -> (r: u64)
    ensures
        r == lo + 0x1_0000_0000 * hi,
{
    lo as u64 + 0x1_0000_0000 * (hi as u64)
}

/// Ticks in microseconds, rounded down; 0 while the rate is not known.
pub open spec fn micros(hz: int, ticks: int) -> int {
    if hz == 0 {
        0
    } else {
        ticks * 1_000_000 / hz
    }
}

/// What [`ticks_to_us`] answers and does.
pub open spec fn ticks_are(
    c: &Clock,
    ticks: u64,
    r: u64,
) -> bool {
    &&& r == micros(c.tsc_hz as int, ticks as int)
}

/// Ticks in microseconds.
pub fn ticks_to_us(c: &Clock, ticks: u64) -> (r: u64)
    requires
        c.wf(),
    ensures
        ticks_are(c, ticks, r),
{
    let hz: u64 = c.tsc_hz;
    if hz == 0 {
        return 0;
    }
    let p: u128 = ticks as u128 * 1_000_000;
    assert(p as int / hz as int <= ticks) by (nonlinear_arith)
        requires
            p == ticks * 1_000_000,
            hz >= 100_000_000,
    ;
    assert(p as int / hz as int >= 0) by (nonlinear_arith)
        requires
            p >= 0,
            hz > 0,
    ;
    (p / hz as u128) as u64
}

/// The time of a reading, in microseconds.
pub fn now_us(c: &Clock, lo: u32, hi: u32) -> (r: u64)
    requires
        c.wf(),
    ensures
        r == micros(c.tsc_hz as int, lo + 0x1_0000_0000 * hi),
{
    ticks_to_us(c, now_ticks(lo, hi))
}

/// The clock does not run backwards: a later reading is no earlier time.
pub proof fn law_clock_is_monotonic(hz: int, a: int, b: int)
    requires
        0 <= hz,
        0 <= a <= b,
    ensures
        micros(hz, a) <= micros(hz, b),
{
    if hz > 0 {
        assert(a * 1_000_000 / hz <= b * 1_000_000 / hz) by (nonlinear_arith)
            requires
                0 < hz,
                0 <= a <= b,
        ;
    }
}

/// What a wait does next.
#[derive(Clone, Copy, Debug, PartialEq, Eq, Structural)]
pub enum Wait {
    /// The time is up.
    Done,
    /// Read the clock again.
    Spin,
    /// The clock does not move; give up.
    Stuck,
}

/// How often a wait of `us` microseconds reads the clock at most: once for
/// every tick of four times the time that was asked for.
pub open spec fn wait_bound(hz: int, us: int) -> int {
    WAIT_FACTOR * us * hz / 1_000_000
}

/// What [`busy_wait_us`] answers and does.
pub open spec fn wait_answer(
    c: &Clock,
    start: u64,
    now: u64,
    us: u64,
    spins: u64,
    r: Wait,
) -> bool {
    &&& r == (if now - start >= us {
        Wait::Done
    } else if spins + 1 >= wait_bound(c.tsc_hz as int, us as int) {
        Wait::Stuck
    } else {
        Wait::Spin
    })
}

/// A wait of `us` microseconds from `start` on; it is `now`, and the clock
/// was read `spins` times before.
pub fn busy_wait_us(c: &Clock, start: u64, now: u64, us: u64, spins: u64) -> (r: Wait)
    requires
        c.wf(),
        start <= now,
    ensures
        wait_answer(c, start, now, us, spins, r),
{
    assert(WAIT_FACTOR * us * c.tsc_hz <= 4 * 0xFFFF_FFFF_FFFF_FFFF * 8_000_000_000)
        by (nonlinear_arith)
        requires
            us <= 0xFFFF_FFFF_FFFF_FFFF,
            c.tsc_hz <= 8_000_000_000,
            WAIT_FACTOR == 4,
    ;
    let bound: u128 = WAIT_FACTOR as u128 * us as u128 * c.tsc_hz as u128 / 1_000_000;
    if now - start >= us {
        Wait::Done
    } else if spins as u128 + 1 >= bound {
        Wait::Stuck
    } else {
        Wait::Spin
    }
}

/// A clock that moves is not given up on: where every reading finds it at least
/// one tick further, the time is up before the readings are.
pub proof fn law_moving_clock_ends(hz: int, us: int, spins: int, t0: int, t: int)
    requires
        TSC_HZ_MIN <= hz,
        us >= 1,
        t0 >= 0,
        spins >= 0,
        t >= t0 + spins,
        spins + 1 >= wait_bound(hz, us),
    ensures
        micros(hz, t) - micros(hz, t0) >= us,
{
    let n = WAIT_FACTOR * us * hz;
    assert(n == 4 * (us * hz)) by (nonlinear_arith)
        requires
            n == WAIT_FACTOR * us * hz,
            WAIT_FACTOR == 4,
    ;
    assert(us * hz >= hz) by (nonlinear_arith)
        requires
            us >= 1,
            hz >= 0,
    ;
    assert((spins + 2) * 1_000_000 >= 4 * (us * hz));
    assert(t * 1_000_000 >= t0 * 1_000_000 + (us + 1) * hz) by (nonlinear_arith)
        requires
            t >= t0 + spins,
            (spins + 2) * 1_000_000 >= 4 * (us * hz),
            us * hz >= hz,
            hz >= 100_000_000,
    ;
    let a = t0 * 1_000_000;
    let b = t * 1_000_000;
    assert(b / hz >= a / hz + us) by (nonlinear_arith)
        requires
            b >= a + (us + 1) * hz,
            hz > 0,
            a >= 0,
    ;
}

} // verus!
