//! The serial port: how it is set up, sent through, and tried out.

use vstd::prelude::*;
use crate::ports;
use crate::ports::PortWrite;

verus! {

/// The first port of the serial device; its registers follow.
pub const COM1_BASE: u16 = 0x03F8;
pub const PORT_DATA: u16 = 0x03F8;
pub const PORT_IER: u16 = 0x03F9;
pub const PORT_FCR: u16 = 0x03FA;
pub const PORT_LCR: u16 = 0x03FB;
pub const PORT_MCR: u16 = 0x03FC;
pub const PORT_LSR: u16 = 0x03FD;
pub const PORT_SCRATCH: u16 = 0x03FF;
/// Give access to the divisor.
pub const LCR_DLAB: u8 = 0x80;
/// Eight bits, no parity, one stop bit.
pub const LCR_8N1: u8 = 0x03;
/// The transmitter can take a byte.
pub const LSR_THR_EMPTY: u8 = 0x20;
/// A byte has come in.
pub const LSR_DATA_READY: u8 = 0x01;
pub const MCR_NORMAL: u8 = 0x0B;
/// Send back to the receiver what goes out.
pub const MCR_LOOPBACK: u8 = 0x10;
/// 38400 baud.
pub const BAUD_DIVISOR_38400: u16 = 3;
/// Buffers on and cleared.
pub const FCR_INIT: u8 = 0xC7;
/// How often a status is read at most.
pub const TX_WAIT_BOUND: u32 = 10_000_000;

/// The writes that set the device up.
pub open spec fn init_writes() -> Seq<PortWrite> {
    seq![
        ports::write(PORT_IER, 0x00),
        ports::write(PORT_LCR, LCR_DLAB),
        ports::write(PORT_DATA, 0x03),
        ports::write(PORT_IER, 0x00),
        ports::write(PORT_LCR, LCR_8N1),
        ports::write(PORT_FCR, FCR_INIT),
        ports::write(PORT_MCR, MCR_NORMAL),
    ]
}

/// Set the device up: its interrupts off, the baud rate, the frame, the
/// buffers, the lines.
pub fn init() -> (r: [PortWrite; 7])
    ensures
        r@ == init_writes(),
{
    let r: [PortWrite; 7] = [
        ports::write(PORT_IER, 0x00),
        ports::write(PORT_LCR, LCR_DLAB),
        ports::write(PORT_DATA, (BAUD_DIVISOR_38400 % 256) as u8),
        ports::write(PORT_IER, (BAUD_DIVISOR_38400 / 256) as u8),
        ports::write(PORT_LCR, LCR_8N1),
        ports::write(PORT_FCR, FCR_INIT),
        ports::write(PORT_MCR, MCR_NORMAL),
    ];
    assert(r@ =~= init_writes());
    r
}

/// What to do with a byte that is to be sent.
#[derive(Clone, Copy, Debug, PartialEq, Eq, Structural)]
pub enum Putc {
    /// Send it.
    Send,
    /// Read the status again.
    Wait,
    /// Drop it: the device does not move.
    Drop,
}

/// What [`putc`] answers and does.
pub open spec fn putc_answer(
    lsr: u8,
    spins: u32,
    r: Putc,
) -> bool {
    &&& r == (if lsr & LSR_THR_EMPTY != 0 {
        Putc::Send
    } else if spins + 1 >= TX_WAIT_BOUND {
        Putc::Drop
    } else {
        Putc::Wait
    })
}

/// The status is `lsr`, after `spins` that were not ready.
pub fn putc(lsr: u8, spins: u32) -> (r: Putc)
    ensures
        putc_answer(lsr, spins, r),
{
    if lsr & LSR_THR_EMPTY != 0 {
        Putc::Send
    } else if spins >= TX_WAIT_BOUND - 1 {
        Putc::Drop
    } else {
        Putc::Wait
    }
}

/// The byte that scratch trial `i` writes.
#[verifier::allow_in_spec]
pub fn scratch_pattern(i: usize) -> u8
    returns
        (if i == 0 {
            0x5Au8
        } else {
            0xA5u8
        }),
{
    if i == 0 {
        0x5A
    } else {
        0xA5
    }
}

/// The byte that loopback trial `i` sends.
#[verifier::allow_in_spec]
pub fn loopback_probe(i: usize) -> u8
    returns
        (if i == 0 {
            0x41u8
        } else if i == 1 {
            0xFFu8
        } else {
            0x00u8
        }),
{
    if i == 0 {
        0x41
    } else if i == 1 {
        0xFF
    } else {
        0x00
    }
}

/// Where the self-test stands.
#[derive(Clone, Copy, Debug, PartialEq, Eq, Structural)]
pub enum Trial {
    /// Before the first step.
    Begin,
    /// Scratch trial `i` was written and is read back.
    Scratch(usize),
    /// Loopback trial `i` was sent; the status was not ready `spins` times.
    Sent(usize, u32),
    /// Loopback trial `i` has come in and is read.
    Arrived(usize),
    /// Over.
    Over,
}

/// What the self-test does next.
#[derive(Clone, Copy, Debug, PartialEq, Eq)]
pub enum Step {
    /// Keep what the scratch register holds, then write this to it and read
    /// it.
    FirstScratch(u8),
    /// Write this to the scratch register and read it.
    Scratch(u8),
    /// Put the scratch register back, switch loopback on, send this, and read
    /// the status.
    FirstProbe(u8),
    /// Send this and read the status.
    Probe(u8),
    /// Read the status again.
    Poll,
    /// Read the byte that came in.
    Receive,
    /// Loopback off; the test has passed.
    Pass,
    /// Loopback off if it was on; the test has failed.
    Fail(&'static str),
}

/// The self-test: the scratch register gives back what is written to it, and
/// in loopback the receiver gets what is sent. `read` is what the last step
/// read.
pub open spec fn loopback_next(t: Trial, read: u8) -> (Trial, Step) {
    match t {
        Trial::Begin => (Trial::Scratch(0), Step::FirstScratch(0x5A)),
        Trial::Scratch(i) => if read != scratch_pattern(i) {
            (
                Trial::Over,
                Step::Fail("scratch register round-trip mismatch (no 16550 at COM1?)"),
            )
        } else if i == 0 {
            (Trial::Scratch(1), Step::Scratch(0xA5))
        } else {
            (Trial::Sent(0, 0), Step::FirstProbe(0x41))
        },
        Trial::Sent(i, spins) => if read & LSR_DATA_READY != 0 {
            (Trial::Arrived(i), Step::Receive)
        } else if spins + 1 >= TX_WAIT_BOUND {
            (Trial::Over, Step::Fail("loopback: transmitter never delivered to receiver"))
        } else {
            (Trial::Sent(i, (spins + 1) as u32), Step::Poll)
        },
        Trial::Arrived(i) => if read != loopback_probe(i) {
            (Trial::Over, Step::Fail("loopback: byte came back corrupted"))
        } else if i == 0 {
            (Trial::Sent(1, 0), Step::Probe(0xFF))
        } else if i == 1 {
            (Trial::Sent(2, 0), Step::Probe(0x00))
        } else {
            (Trial::Over, Step::Pass)
        },
        Trial::Over => (Trial::Over, Step::Pass),
    }
}

/// One step of the self-test.
pub fn loopback_selftest(t: Trial, read: u8) -> (r: (Trial, Step))
    ensures
        r == loopback_next(t, read),
{
    match t {
        Trial::Begin => (Trial::Scratch(0), Step::FirstScratch(0x5A)),
        Trial::Scratch(i) => if read != scratch_pattern(i) {
            (
                Trial::Over,
                Step::Fail("scratch register round-trip mismatch (no 16550 at COM1?)"),
            )
        } else if i == 0 {
            (Trial::Scratch(1), Step::Scratch(0xA5))
        } else {
            (Trial::Sent(0, 0), Step::FirstProbe(0x41))
        },
        Trial::Sent(i, spins) => if read & LSR_DATA_READY != 0 {
            (Trial::Arrived(i), Step::Receive)
        } else if spins >= TX_WAIT_BOUND - 1 {
            (Trial::Over, Step::Fail("loopback: transmitter never delivered to receiver"))
        } else {
            (Trial::Sent(i, spins + 1), Step::Poll)
        },
        Trial::Arrived(i) => if read != loopback_probe(i) {
            (Trial::Over, Step::Fail("loopback: byte came back corrupted"))
        } else if i == 0 {
            (Trial::Sent(1, 0), Step::Probe(0xFF))
        } else if i == 1 {
            (Trial::Sent(2, 0), Step::Probe(0x00))
        } else {
            (Trial::Over, Step::Pass)
        },
        Trial::Over => (Trial::Over, Step::Pass),
    }
}

/// How far the self-test still has to go: each step brings it closer to its
/// end.
pub open spec fn steps_left(t: Trial) -> int {
    match t {
        Trial::Begin => 80_000_000,
        Trial::Scratch(i) => if i == 0 {
            70_000_001
        } else {
            70_000_000
        },
        Trial::Sent(i, spins) => 60_000_000 - 20_000_000 * (if i > 2 {
            2
        } else {
            i as int
        }) - spins,
        Trial::Arrived(i) => 49_000_000 - 20_000_000 * (if i > 2 {
            2
        } else {
            i as int
        }),
        Trial::Over => 0,
    }
}

/// The self-test ends.
pub proof fn law_loopback_ends(t: Trial, read: u8)
    requires
        t != Trial::Over,
        t matches Trial::Sent(i, spins) ==> i <= 2 && spins < TX_WAIT_BOUND,
        t matches Trial::Arrived(i) ==> i <= 2,
    ensures
        steps_left(loopback_next(t, read).0) < steps_left(t),
        loopback_next(t, read).0 matches Trial::Sent(i, spins) ==> i <= 2 && spins < TX_WAIT_BOUND,
        loopback_next(t, read).0 matches Trial::Arrived(i) ==> i <= 2,
{
}

/// The console that writes to the serial port.
#[derive(Clone, Copy, Debug, PartialEq, Eq, Structural)]
pub struct SerialConsole;

/// The bytes for a text: a carriage return before every line feed.
pub open spec fn sent(s: Seq<u8>) -> Seq<u8>
    decreases s.len(),
{
    if s.len() == 0 {
        Seq::empty()
    } else if s.last() == 0x0A {
        sent(s.drop_last()) + seq![0x0Du8, 0x0A]
    } else {
        sent(s.drop_last()).push(s.last())
    }
}

impl SerialConsole {
    /// The bytes to send for the text `s`.
    pub fn write_str(&self, s: &[u8]) -> (r: Vec<u8>)
        ensures
            r@ == sent(s@),
    {
        let mut out: Vec<u8> = Vec::new();
        let n: usize = s.len();
        let mut i: usize = 0;
        assert(s@.take(0) =~= Seq::<u8>::empty());
        while i < n
            invariant
                i <= n,
                n == s@.len(),
                out@ == sent(s@.take(i as int)),
            decreases n - i,
        {
            let ghost before = s@.take(i as int);
            let ghost now = s@.take(i + 1);
            assert(now.drop_last() =~= before);
            assert(now.last() == s@[i as int]);
            let b: u8 = s[i];
            if b == 0x0A {
                out.push(0x0D);
            }
            out.push(b);
            i = i + 1;
            assert(out@ =~= sent(now));
        }
        assert(s@.take(n as int) =~= s@);
        out
    }
}

} // verus!
