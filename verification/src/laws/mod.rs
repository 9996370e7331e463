//! What the operations of the kernel are for, said of what goes into them and
//! what comes out: of the bytes of a file, the bits of an entry, the words of a
//! message.

use vstd::prelude::*;

pub mod answers;
pub mod calls;
pub mod devices;
pub mod editing;
pub mod images;
pub mod machine;
pub mod memory;
pub mod messages;
pub mod passes;
pub mod pool;
pub mod processes;
pub mod relocation;
pub mod reports;
pub mod rights;
pub mod spaces;
pub mod startup;
pub mod threads;

verus! {

/// The number that the `n` bytes from `at` on spell, the lowest first.
pub open spec fn le(b: Seq<u8>, at: int, n: nat) -> int
    decreases n,
{
    if n == 0 {
        0
    } else {
        b[at] + 256 * le(b, at + 1, (n - 1) as nat)
    }
}

/// Byte `k` of `x`, the lowest first.
pub open spec fn nth_byte(x: int, k: int) -> int
    decreases k,
{
    if k <= 0 {
        x % 256
    } else {
        nth_byte(x / 256, k - 1)
    }
}

pub proof fn lemma_le(b: Seq<u8>, at: int)
    ensures
        le(b, at, 2) == crate::bytes::le16_at(b, at),
        le(b, at, 4) == crate::bytes::le32_at(b, at),
        le(b, at, 8) == crate::bytes::le64_at(b, at),
        0 <= le(b, at, 2) < 0x1_0000,
        0 <= le(b, at, 4) < 0x1_0000_0000,
        0 <= le(b, at, 8) < 0x1_0000_0000_0000_0000,
{
    reveal_with_fuel(le, 9);
}

pub proof fn lemma_nth_byte(x: int, k: int)
    requires
        0 <= x < 0x1_0000_0000_0000_0000,
        0 <= k < 8,
    ensures
        nth_byte(x, k) == crate::bytes::le_byte(x, k),
{
    reveal_with_fuel(nth_byte, 9);
}

} // verus!
