//! The end of the machine.

use vstd::prelude::*;
use vstd::string::*;
use crate::log;
use crate::log::Level;

verus! {

/// The firmware's number for a shutdown.
pub const RESET_SHUTDOWN: u32 = 2;

pub const EFI_SUCCESS: usize = 0;

/// The firmware's reset entry point, 0 until it is known.
pub struct Halt {
    pub reset: u64,
}

/// How to stop.
#[derive(Clone, Copy, Debug, PartialEq, Eq, Structural)]
pub enum Stop {
    /// Call the firmware's reset entry with this kind and status; park the
    /// processor if it comes back.
    Firmware { entry: u64, kind: u32, status: usize },
    /// Park the processor with interrupts off.
    Park,
}

/// Note the firmware's reset entry point.
pub fn set_reset_system(h: &mut Halt, ptr: u64)
    ensures
        final(h).reset == ptr,
{
    h.reset = ptr;
}

/// How to shut down.
pub fn reset_shutdown(h: &Halt) -> (r: Stop)
    ensures
        r == (if h.reset != 0 {
            Stop::Firmware { entry: h.reset, kind: RESET_SHUTDOWN, status: EFI_SUCCESS }
        } else {
            Stop::Park
        }),
{
    if h.reset != 0 {
        Stop::Firmware { entry: h.reset, kind: RESET_SHUTDOWN, status: EFI_SUCCESS }
    } else {
        Stop::Park
    }
}

/// The line to write before the machine stops for `reason`, and how to stop.
pub fn halt_machine(h: &Halt, reason: &str) -> (r: (String, Stop))
    ensures
        r.0@ == log::line_of(Level::Error, "halt"@, "halting machine: "@ + reason@),
        r.1 == (if h.reset != 0 {
            Stop::Firmware { entry: h.reset, kind: RESET_SHUTDOWN, status: EFI_SUCCESS }
        } else {
            Stop::Park
        }),
{
    let mut text: String = String::from_str("halting machine: ");
    text.append(reason);
    (log::write(Level::Error, "halt", text.as_str()), reset_shutdown(h))
}

/// The line that a panic leaves.
pub open spec fn panic_line(place: Option<(Seq<char>, u32)>, message: Seq<char>) -> Seq<char> {
    (match place {
        Some((file, line)) => "\n[arena PANIC "@ + file + ":"@ + log::decimal(line as nat),
        None => "\n[arena PANIC unknown-location"@,
    }) + "] "@ + message + "\n"@
}

/// The line to write when the kernel panics at `line` of `file`, and how to
/// stop.
pub fn panic(h: &Halt, place: Option<(&str, u32)>, message: &str) -> (r: (String, Stop))
    ensures
        r.0@ == panic_line(
            match place {
                Some((f, l)) => Some((f@, l)),
                None => None,
            },
            message@,
        ),
        r.1 == (if h.reset != 0 {
            Stop::Firmware { entry: h.reset, kind: RESET_SHUTDOWN, status: EFI_SUCCESS }
        } else {
            Stop::Park
        }),
{
    let mut s: String = match place {
        Some((file, line)) => {
            let mut s: String = String::from_str("\n[arena PANIC ");
            s.append(file);
            s.append(":");
            log::append_decimal(&mut s, line as u64);
            s
        },
        None => String::from_str("\n[arena PANIC unknown-location"),
    };
    s.append("] ");
    s.append(message);
    s.append("\n");
    (s, reset_shutdown(h))
}

} // verus!
