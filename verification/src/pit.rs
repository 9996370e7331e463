//! The interval timer: how it is programmed, and how it measures.

use vstd::prelude::*;
use crate::ports;
use crate::ports::PortWrite;

verus! {

pub const PORT_CH0: u16 = 0x40;
pub const PORT_MODE: u16 = 0x43;
/// The timer's clock, in hertz.
pub const OSCILLATOR_HZ: u64 = 1_193_182;
/// Latch the count of channel 0.
pub const CMD_CH0_LATCH: u8 = 0x00;
/// Load channel 0, low byte first.
pub const CMD_CH0_LOHI: u8 = 0x30;
/// Latch status and count of channel 0.
pub const CMD_READBACK_CH0: u8 = 0xC2;
/// The output pin in a status byte.
pub const STATUS_OUT: u8 = 0x80;
/// One-shot, countdown, and square wave, in a command for channel 0.
pub const CMD_ONESHOT: u8 = 0x32;
pub const CMD_COUNTDOWN: u8 = 0x34;
pub const CMD_SQUARE: u8 = 0x36;
/// A full period of the counter.
pub const PERIOD: u32 = 65536;
/// How often the counter is read at most in one window.
pub const WINDOW_SPINS: u64 = 400_000_000;

/// The divisor for a rate: what the oscillator makes of it, within the range
/// of the counter.
pub open spec fn divisor(hz: u32) -> int {
    let d = OSCILLATOR_HZ as int / (if hz == 0 {
        1
    } else {
        hz as int
    });
    if d < 2 {
        2
    } else if d > 65535 {
        65535
    } else {
        d
    }
}

/// The divisor for a rate.
pub fn pit_divisor_for_hz(hz: u32) -> (r: u16)
    ensures
        r == divisor(hz),
{
    let h: u64 = if hz == 0 {
        1
    } else {
        hz as u64
    };
    let d: u64 = OSCILLATOR_HZ / h;
    if d < 2 {
        2
    } else if d > 65535 {
        65535
    } else {
        d as u16
    }
}

/// The writes that give channel 0 a command and a divisor: the command, the
/// low byte, the high byte.
pub open spec fn ch0_writes(cmd: u8, d: u16) -> Seq<PortWrite> {
    seq![
        ports::write(PORT_MODE, cmd),
        ports::write(PORT_CH0, (d % 256) as u8),
        ports::write(PORT_CH0, (d / 256) as u8),
    ]
}

fn set_ch0(cmd: u8, d: u16) -> (r: [PortWrite; 3])
    ensures
        r@ == ch0_writes(cmd, d),
{
    let r: [PortWrite; 3] = [
        ports::write(PORT_MODE, cmd),
        ports::write(PORT_CH0, (d % 256) as u8),
        ports::write(PORT_CH0, (d / 256) as u8),
    ];
    assert(r@ =~= ch0_writes(cmd, d));
    r
}

/// What [`set_periodic_hz`] answers and does.
pub open spec fn periodic_writes(
    hz: u32,
    r: [PortWrite; 3],
) -> bool {
    &&& r@ == ch0_writes(CMD_SQUARE, divisor(hz) as u16)
}

/// Tick at about `hz`.
pub fn set_periodic_hz(hz: u32) -> (r: [PortWrite; 3])
    ensures
        periodic_writes(hz, r),
{
    set_ch0(CMD_SQUARE, pit_divisor_for_hz(hz))
}

/// Raise the output after `counts` ticks of the oscillator.
pub fn set_oneshot(counts: u16) -> (r: [PortWrite; 3])
    ensures
        r@ == ch0_writes(CMD_ONESHOT, counts),
{
    set_ch0(CMD_ONESHOT, counts)
}

/// Count down over the full period.
pub fn set_calibration_mode() -> (r: [PortWrite; 3])
    ensures
        r@ == ch0_writes(CMD_COUNTDOWN, 0),
{
    set_ch0(CMD_COUNTDOWN, 0)
}

/// The count out of its two bytes.
pub fn latched_count(lo: u8, hi: u8) -> (r: u16)
    ensures
        r == lo + 256 * hi,
{
    lo as u16 + 256 * (hi as u16)
}

/// A measurement that is under way: the first count, the last one, and how
/// often the counter started over in between.
#[derive(Clone, Copy, Debug, PartialEq, Eq, Structural)]
pub struct Window {
    pub start: u16,
    pub prev: u16,
    pub wraps: u32,
}

impl Window {
    /// How many ticks of the oscillator have gone by.
    pub open spec fn elapsed(self) -> int {
        self.wraps * 65536 + self.start - self.prev
    }

    /// Time did not run backwards.
    pub open spec fn wf(self) -> bool {
        self.wraps == 0 ==> self.prev <= self.start
    }
}

/// Start a measurement at count `c`.
pub fn window_start(c: u16) -> (w: Window)
    ensures
        w.wf(),
        w.elapsed() == 0,
        w == (Window { start: c, prev: c, wraps: 0 }),
{
    Window { start: c, prev: c, wraps: 0 }
}

/// How far a counter that runs down went from `a` to `c` in less than a
/// period.
pub open spec fn counted(a: u16, c: u16) -> int {
    if c > a {
        a - c + 65536
    } else {
        a - c
    }
}

/// The counter reads `c`.
pub fn window_sample(w: &mut Window, c: u16)
    requires
        old(w).wf(),
        old(w).wraps < u32::MAX,
    ensures
        final(w).wf(),
        final(w).start == old(w).start,
        final(w).prev == c,
        final(w).wraps <= old(w).wraps + 1,
        final(w).elapsed() == old(w).elapsed() + counted(old(w).prev, c),
{
    if c > w.prev {
        w.wraps = w.wraps + 1;
    }
    w.prev = c;
}

/// Whether to read the counter again: not enough ticks have gone by, and it
/// was not read too often.
pub fn window_open(w: &Window, min_counts: u32, spins: u64) -> (r: bool)
    requires
        w.wf(),
    ensures
        r == (w.elapsed() < min_counts && spins < WINDOW_SPINS),
{
    let up: u64 = w.wraps as u64 * 65536 + w.start as u64;
    up - (w.prev as u64) < min_counts as u64 && spins < WINDOW_SPINS
}

/// The ticks of the oscillator and of the fast counter that a window measured.
/// The last count and the second stamp belong together, as the first ones do.
pub fn window_end(w: &Window, t0: u64, t1: u64) -> (r: (u64, u64))
    requires
        w.wf(),
        t0 <= t1,
    ensures
        r.0 == w.elapsed(),
        r.1 == t1 - t0,
{
    let up: u64 = w.wraps as u64 * 65536 + w.start as u64;
    (up - w.prev as u64, t1 - t0)
}

/// Ticks never count backwards from one sample to the next, and fewer than a
/// period pass.
pub proof fn law_samples_advance(w: Window, c: u16)
    requires
        w.wf(),
    ensures
        0 <= counted(w.prev, c) < 65536,
        (w.prev - counted(w.prev, c)) % 65536 == c,
        0 <= w.elapsed(),
{
}

/// A rate that the counter can make comes out within one part in the divisor:
/// the divisor is the largest that does not make the timer too slow.
pub proof fn law_divisor(hz: u32)
    requires
        19 <= hz <= 596_591,
    ensures
        divisor(hz) * hz <= OSCILLATOR_HZ,
        (divisor(hz) + 1) * hz > OSCILLATOR_HZ,
{
    let h = hz as int;
    let d = 1_193_182int / h;
    assert(2 <= d <= 65535 && d * h <= 1_193_182 && (d + 1) * h > 1_193_182) by (nonlinear_arith)
        requires
            d == 1_193_182int / h,
            19 <= h <= 596_591,
    ;
}

} // verus!
