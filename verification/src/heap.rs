//! Where the heap's memory comes from.

use vstd::prelude::*;
use crate::bits;
use crate::frames;
use crate::frames::FrameAllocator;

verus! {

/// The source of the heap's chunks: runs of frames that lie side by side.
#[derive(Clone, Copy, Debug, PartialEq, Eq, Structural)]
pub struct FrameChunkProvider;

impl FrameChunkProvider {
    /// A run of frames with room for `bytes` bytes.
    pub fn provide_chunk(&self, fa: &mut FrameAllocator, bytes: usize) -> (r: Option<u64>)
        requires
            old(fa).wf(),
        ensures
            final(fa).wf(),
            final(fa).same_pool(old(fa)),
            ({
                let n = bits::ceil_div(bytes as int, 4096);
                if !old(fa).ready || n == 0 || forall|k: int|
                    0 <= k <= frames::FRAME_COUNT - n ==> !#[trigger] frames::run_free(
                        old(fa).map@,
                        k,
                        n,
                    ) {
                    r is None && *final(fa) == *old(fa)
                } else {
                    exists|i: int|
                        {
                            &&& #[trigger] frames::run_taken(
                                old(fa).map@,
                                frames::run_start(old(fa).hint as int, n),
                                n,
                                i,
                            )
                            &&& r == Some((i * 4096) as u64)
                            &&& i >= 256
                            &&& final(fa).free == old(fa).free - n
                            &&& final(fa).available() == old(fa).available() - n
                            &&& final(fa).hint == i / 64
                            &&& forall|j: int|
                                0 <= j < frames::FRAME_COUNT ==> #[trigger] frames::used(
                                    final(fa).map@,
                                    j,
                                ) == (frames::used(old(fa).map@, j) || i <= j < i + n)
                        }
                }
            }),
    {
        proof {
            bits::lemma_ceil_div(bytes as int, 4096);
        }
        let needed: usize = bits::div_ceil(bytes as u64, 4096) as usize;
        match frames::alloc_contiguous(fa, needed) {
            None => None,
            Some(phys) => {
                proof {
                    let i = phys as int / 4096;
                    assert(i * 4096 == phys);
                    frames::lemma_pool(old(fa));
                    assert(!frames::used(old(fa).map@, i));
                    assert(frames::run_taken(
                        old(fa).map@,
                        frames::run_start(old(fa).hint as int, needed as int),
                        needed as int,
                        i,
                    ));
                }
                Some(phys)
            },
        }
    }
}

/// A chunk has room for what was asked for, and for less than a page more.
pub proof fn law_chunk_fits(bytes: int)
    requires
        0 <= bytes,
    ensures
        bytes <= bits::ceil_div(bytes, 4096) * 4096 < bytes + 4096,
{
    bits::lemma_ceil_div(bytes, 4096);
}

} // verus!
