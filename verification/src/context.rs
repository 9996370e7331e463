//! The stack a new thread starts on.

use vstd::prelude::*;
use crate::paging::{PhysMem, KERNEL_OFFSET};

verus! {

/// What the processor keeps of a thread that does not run.
#[derive(Clone, Copy, Debug, Default, PartialEq, Eq, Structural)]
pub struct Context {
    pub rsp: u64,
}

/// The bytes that a switch pops: the flags, eight registers and the return
/// address.
pub const FRAME_BYTES: u64 = 80;

/// The flags that a thread starts with: interrupts off.
pub const INITIAL_RFLAGS: u64 = 0x2;

/// The words of a thread's first frame: the flags, eight zero registers, and
/// the address that the switch returns to.
pub open spec fn first_frame(trampoline: u64) -> Seq<u64> {
    seq![INITIAL_RFLAGS, 0, 0, 0, 0, 0, 0, 0, 0, trampoline]
}

/// Lay out the first frame of a thread below the physical address
/// `stack_top`. The answer is the stack pointer to start from.
pub fn new_thread_stack(mem: &mut PhysMem, stack_top: u64, trampoline: u64) -> (r: u64)
    requires
        FRAME_BYTES <= stack_top,
        stack_top % 8 == 0,
        stack_top / 8 <= old(mem).words@.len(),
    ensures
        r == vstd::wrapping::u64_specs::wrapping_add((stack_top - FRAME_BYTES) as u64, KERNEL_OFFSET),
        final(mem).seats == old(mem).seats,
        final(mem).words@.len() == old(mem).words@.len(),
        forall|k: int|
            0 <= k < 10 ==> #[trigger] final(mem).words@[stack_top / 8 - 10 + k] == first_frame(
                trampoline,
            )[k],
        forall|k: int|
            0 <= k < old(mem).words@.len() && !(stack_top / 8 - 10 <= k < stack_top / 8)
                ==> #[trigger] final(mem).words@[k] == old(mem).words@[k],
{
    let n: usize = mem.words.len();
    let rsp: u64 = stack_top - FRAME_BYTES;
    let base: usize = (stack_top / 8) as usize - 10;
    mem.words.set(base, INITIAL_RFLAGS);
    let mut i: usize = 1;
    while i < 9
        invariant
            1 <= i <= 9,
            n == old(mem).words@.len(),
            stack_top / 8 <= n,
            base == stack_top / 8 - 10,
            mem.seats == old(mem).seats,
            mem.words@.len() == n,
            mem.words@[base as int] == INITIAL_RFLAGS,
            forall|k: int| base < k < base + i ==> #[trigger] mem.words@[k] == 0,
            forall|k: int|
                0 <= k < n && !(base <= k < base + i) ==> #[trigger] mem.words@[k] == old(
                    mem,
                ).words@[k],
        decreases 9 - i,
    {
        mem.words.set(base + i, 0);
        i = i + 1;
    }
    mem.words.set(base + 9, trampoline);
    rsp.wrapping_add(KERNEL_OFFSET)
}

} // verus!
