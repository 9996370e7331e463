//! Which frames can be had, told bit by bit.

use crate::frames;
use crate::frames::FrameAllocator;
use crate::handoff::{Handoff, Region};
use vstd::prelude::*;

verus! {

/// Frame `j` is free: its bit in the map is clear.
pub open spec fn free(a: &FrameAllocator, j: int) -> bool {
    (a.map@[j / 64] >> ((j % 64) as u64)) & 1 == 0
}

/// Frame `j` came from the memory map: its bit was clear at the start.
pub open spec fn ours(a: &FrameAllocator, j: int) -> bool {
    (a.origin@[j / 64] >> ((j % 64) as u64)) & 1 == 0
}

/// There are frames for 4 GiB.
pub open spec fn frame(j: int) -> bool {
    0 <= j < 0x10_0000
}

/// The two maps say the same of every frame beside `n` of them from `i` on.
pub open spec fn same_beside(a: &FrameAllocator, b: &FrameAllocator, i: int, n: int) -> bool {
    forall|j: int|
        #![trigger free(a, j)]
        #![trigger free(b, j)]
        frame(j) && !(i <= j < i + n) ==> free(a, j) == free(b, j)
}

/// All of `n` frames from `i` on are free, or none is.
pub open spec fn all_free(a: &FrameAllocator, i: int, n: int) -> bool {
    forall|j: int| i <= j < i + n ==> #[trigger] free(a, j)
}

pub open spec fn none_free(a: &FrameAllocator, i: int, n: int) -> bool {
    forall|j: int| i <= j < i + n ==> !#[trigger] free(a, j)
}

/// The region is memory that is free to use (its type is 7), and all of frame
/// `j` lies in it.
pub open spec fn gives(r: Region, j: int) -> bool {
    r.kind == 7 && r.base <= 4096 * j && 4096 * j + 4096 <= r.base + r.pages * 4096
}

proof fn lemma_bit(w: u64, b: u64)
    by (bit_vector)
    ensures
        ((w >> b) & 1 == 1) == !((w >> b) & 1 == 0),
{
}

pub proof fn lemma_free(a: &FrameAllocator)
    ensures
        forall|j: int| frame(j) ==> #[trigger] free(a, j) == !frames::used(a.map@, j),
        forall|j: int| frame(j) ==> free(a, j) == !#[trigger] frames::used(a.map@, j),
        forall|j: int| frame(j) ==> #[trigger] ours(a, j) == !frames::used(a.origin@, j),
        forall|j: int| frame(j) ==> ours(a, j) == !#[trigger] frames::used(a.origin@, j),
{
    assert forall|j: int| frame(j) implies #[trigger] free(a, j) == !frames::used(a.map@, j) by {
        lemma_bit(a.map@[j / 64], (j % 64) as u64);
    }
    assert forall|j: int| frame(j) implies #[trigger] ours(a, j) == !frames::used(
        a.origin@,
        j,
    ) by {
        lemma_bit(a.origin@[j / 64], (j % 64) as u64);
    }
}

/// At the start just the frames are free that lie whole in free memory and not
/// in the first megabyte.
#[verifier::rlimit(40)]
pub proof fn law_pool_is_free_memory(
    a: &FrameAllocator,
    b: &FrameAllocator,
    h: &Handoff,
    out: Result<(), &'static str>,
)
    requires
        !a.ready,
        frames::pool_built(a, b, h, out),
    ensures
        b.ready == out is Ok,
        b.free == b.total,
        forall|j: int|
            frame(j) ==> (#[trigger] free(b, j) <==> j >= 256 && exists|i: int|
                0 <= i < h.regions@.len() && gives(#[trigger] h.regions@[i], j)),
        forall|j: int| frame(j) ==> #[trigger] ours(b, j) == free(b, j),
{
    lemma_free(b);
    let s = h.regions@;
    assert forall|j: int| frame(j) implies (#[trigger] free(b, j) <==> j >= 256 && exists|i: int|
        0 <= i < s.len() && gives(#[trigger] s[i], j)) by {
        assert(forall|i: int|
            0 <= i < s.len() ==> frames::contributes(#[trigger] s[i], j) == (j >= 256 && gives(
                s[i],
                j,
            )));
        if frames::pooled(s, s.len() as int, j) {
            let i = choose|i: int| 0 <= i < s.len() && frames::contributes(#[trigger] s[i], j);
            assert(gives(s[i], j));
        }
        if j >= 256 && exists|i: int| 0 <= i < s.len() && gives(#[trigger] s[i], j) {
            let i = choose|i: int| 0 <= i < s.len() && gives(#[trigger] s[i], j);
            assert(frames::contributes(s[i], j));
        }
        assert(frames::used(b.map@, j) == !frames::pooled(s, s.len() as int, j));
    }
}

/// The order in which frames are looked at: in groups of 64, from the group
/// that was used last on and around.
pub open spec fn turn(a: &FrameAllocator, j: int) -> int {
    (j / 64 + 0x4000 - a.hint) % 0x4000 * 64 + j % 64
}

/// A frame that is handed out was free, is not any more, and lies above the
/// first megabyte; every other frame is as it was. It is the next one in turn.
/// None is handed out just where none is free.
#[verifier::rlimit(40)]
pub proof fn law_frame_was_free(a: &FrameAllocator, b: &FrameAllocator, out: Option<u64>)
    requires
        a.wf(),
        frames::frame_taken(a, b, out),
    ensures
        out matches Some(f) ==> {
            let j = f as int / 4096;
            &&& f % 4096 == 0
            &&& 256 <= j < 0x10_0000
            &&& free(a, j)
            &&& ours(a, j)
            &&& !free(b, j)
            &&& same_beside(a, b, j, 1)
            &&& b.free == a.free - 1
            &&& forall|k: int| frame(k) && #[trigger] free(a, k) ==> turn(a, j) <= turn(a, k)
            &&& b.hint == j / 64
        },
        out is None ==> *b == *a,
        a.ready ==> (out is None <==> forall|j: int| frame(j) ==> !#[trigger] free(a, j)),
        b.origin@ == a.origin@,
{
    reveal(frames::from_pool);
    lemma_free(a);
    lemma_free(b);
    if out is Some {
        let f = out->0;
        let j = f as int / 4096;
        assert(frames::used(a.origin@, j) == !ours(a, j));
        assert(free(a, j) == !frames::used(a.map@, j));
        assert(free(b, j) == !frames::used(b.map@, j));
        assert forall|k: int|
            #![trigger free(a, k)]
            #![trigger free(b, k)]
            frame(k) && !(j <= k < j + 1) implies free(a, k) == free(b, k) by {
            assert(frames::used(a.map@, k) == frames::used(b.map@, k));
        }
        assert forall|k: int| frame(k) && #[trigger] free(a, k) implies turn(a, j) <= turn(
            a,
            k,
        ) by {
            assert(!frames::used(a.map@, k));
            assert(frames::rank(a.hint as int, k) == turn(a, k));
            assert(frames::rank(a.hint as int, j) == turn(a, j));
        }
    } else if a.ready {
        assert forall|j: int| frame(j) implies !#[trigger] free(a, j) by {
            if free(a, j) {
                frames::lemma_some_free(a.map@, j, 0x10_0000);
            }
        }
    }
}

/// A frame is taken back just where it is a whole frame from the memory map
/// and not free. Then it is free, and every other frame is as it was.
#[verifier::rlimit(40)]
pub proof fn law_frame_comes_back(
    a: &FrameAllocator,
    b: &FrameAllocator,
    f: u64,
    out: Result<(), &'static str>,
)
    requires
        a.wf(),
        a.ready,
        frames::freed(a, b, f, out),
    ensures
        out is Ok <==> f % 4096 == 0 && f < 0x1_0000_0000 && ours(a, f as int / 4096) && !free(
            a,
            f as int / 4096,
        ),
        out is Ok ==> {
            let j = f as int / 4096;
            &&& free(b, j)
            &&& same_beside(a, b, j, 1)
            &&& b.free == a.free + 1
            &&& b.hint <= a.hint && b.hint <= j / 64
            &&& b.hint == a.hint || b.hint == j / 64
        },
        out is Err ==> *b == *a,
{
    lemma_free(a);
    lemma_free(b);
    let j = f as int / 4096;
    if f < 0x1_0000_0000 {
        assert(frame(j));
        assert(frames::used(a.origin@, j) == !ours(a, j));
        assert(free(a, j) == !frames::used(a.map@, j));
        assert(free(b, j) == !frames::used(b.map@, j));
    }
    if out is Ok {
        assert forall|k: int|
            #![trigger free(a, k)]
            #![trigger free(b, k)]
            frame(k) && !(j <= k < j + 1) implies free(a, k) == free(b, k) by {
            assert(frames::used(a.map@, k) == frames::used(b.map@, k));
        }
    }
}

/// Where the search for a run starts: at the group that was used last, or at
/// the last place where a run fits.
pub open spec fn search_start(a: &FrameAllocator, n: int) -> int {
    if a.hint * 64 + n <= 0x10_0000 {
        a.hint * 64
    } else {
        0x10_0000 - n
    }
}

/// A run of frames that is handed out was free, all of it, and is not any
/// more; every other frame is as it was. It is the first from where the search
/// starts, going around. Where there is such a run, one is handed out.
#[verifier::rlimit(40)]
pub proof fn law_run_was_free(a: &FrameAllocator, b: &FrameAllocator, n: usize, out: Option<u64>)
    requires
        a.wf(),
        frames::run_allocated(a, b, n, out),
    ensures
        out matches Some(f) ==> {
            let i = f as int / 4096;
            &&& f % 4096 == 0
            &&& 0 <= i && i + n <= 0x10_0000
            &&& all_free(a, i, n as int)
            &&& none_free(b, i, n as int)
            &&& same_beside(a, b, i, n as int)
            &&& b.free == a.free - n
            &&& forall|k: int|
                0 <= k && k + n <= 0x10_0000 && #[trigger] all_free(a, k, n as int) ==> {
                    let s = search_start(a, n as int);
                    if k >= s {
                        s <= i <= k
                    } else {
                        i >= s || i <= k
                    }
                }
        },
        out is None ==> *b == *a,
        a.ready && n > 0 ==> (out is Some <==> exists|k: int|
            0 <= k && k + n <= 0x10_0000 && #[trigger] all_free(a, k, n as int)),
{
    lemma_free(a);
    lemma_free(b);
    assert forall|k: int|
        0 <= k && k + n <= 0x10_0000 implies #[trigger] all_free(a, k, n as int)
        == frames::run_free(a.map@, k, n as int) by {
        if all_free(a, k, n as int) {
            assert forall|j: int| k <= j < k + n implies !#[trigger] frames::used(a.map@, j) by {
                assert(free(a, j));
            }
        }
        if frames::run_free(a.map@, k, n as int) {
            assert forall|j: int| k <= j < k + n implies #[trigger] free(a, j) by {
                assert(!frames::used(a.map@, j));
            }
        }
    }
    if out is Some {
        let f = out->0;
        let i = f as int / 4096;
        assert(frames::run_free(a.map@, i, n as int));
        assert(all_free(a, i, n as int));
        assert forall|j: int| i <= j < i + n implies !#[trigger] free(b, j) by {
            assert(frames::used(b.map@, j));
        }
        assert forall|k: int|
            #![trigger free(a, k)]
            #![trigger free(b, k)]
            frame(k) && !(i <= k < i + n) implies free(a, k) == free(b, k) by {
            assert(frames::used(b.map@, k) == (frames::used(a.map@, k) || i <= k < i + n));
        }
    } else if a.ready && n > 0 {
        assert forall|k: int| 0 <= k && k + n <= 0x10_0000 implies !#[trigger] all_free(
            a,
            k,
            n as int,
        ) by {
            assert(!frames::run_free(a.map@, k, n as int));
        }
    }
}

/// A run of frames that was taken back is free, and every other frame is as it
/// was.
#[verifier::rlimit(40)]
pub proof fn law_run_comes_back(a: &FrameAllocator, b: &FrameAllocator, f: u64, n: usize)
    requires
        a.wf(),
        a.ready,
        n > 0,
        frames::run_freed(a, b, f, n, Ok(())),
    ensures
        ({
            let i = f as int / 4096;
            &&& f % 4096 == 0
            &&& i + n <= 0x10_0000
            &&& none_free(a, i, n as int)
            &&& all_free(b, i, n as int)
            &&& same_beside(a, b, i, n as int)
            &&& b.free == a.free + n
        }),
{
    lemma_free(a);
    lemma_free(b);
    let i = f as int / 4096;
    assert(frames::free_answer(a, f + 0 * 4096) is Ok);
    assert(frames::free_answer(a, f + (n - 1) * 4096) is Ok);
    assert forall|j: int| i <= j < i + n implies !#[trigger] free(a, j) && free(b, j) by {
        assert(frames::free_answer(a, f + (j - i) * 4096) is Ok);
        assert((f + (j - i) * 4096) / 4096 == j);
        assert(frames::used(b.map@, j) == (frames::used(a.map@, j) && !(i <= j < i + n)));
    }
    assert forall|k: int|
        #![trigger free(a, k)]
        #![trigger free(b, k)]
        frame(k) && !(i <= k < i + n) implies free(a, k) == free(b, k) by {
        assert(frames::used(b.map@, k) == (frames::used(a.map@, k) && !(i <= k < i + n)));
    }
}

/// The address lies in free memory.
pub open spec fn in_free_memory(s: Seq<Region>, at: int) -> bool {
    exists|i: int|
        0 <= i < s.len() && (#[trigger] s[i]).kind == 7 && s[i].base <= at < s[i].base + s[i].pages
            * 4096
}

/// After the last memory map was seen, a frame is free where it was free and
/// that map still has it for free memory.
#[verifier::rlimit(40)]
pub proof fn law_pool_follows_the_last_map(
    a: &FrameAllocator,
    b: &FrameAllocator,
    h: &Handoff,
    n: u64,
)
    requires
        a.wf(),
        frames::reconciled(a, b, h, Ok(n)),
    ensures
        forall|j: int|
            frame(j) ==> (#[trigger] free(b, j) <==> free(a, j) && in_free_memory(
                h.regions@,
                4096 * j,
            )),
        b.free == a.free - n,
        forall|j: int| frame(j) && #[trigger] free(b, j) ==> ours(b, j),
{
    lemma_free(a);
    lemma_free(b);
    let s = h.regions@;
    reveal(frames::from_pool);
    assert forall|j: int| frame(j) implies (#[trigger] free(b, j) <==> free(a, j)
        && in_free_memory(s, 4096 * j)) && (free(b, j) ==> ours(b, j)) by {
        assert(frames::used(b.map@, j) == (frames::used(a.map@, j) || !frames::conventional_at(
            s,
            j * 4096,
        )));
        if frames::conventional_at(s, j * 4096) {
            let i = choose|i: int|
                0 <= i < s.len() && frames::covers_conventional(#[trigger] s[i], j * 4096);
            assert(s[i].kind == 7);
        }
        if in_free_memory(s, 4096 * j) {
            let i = choose|i: int|
                0 <= i < s.len() && (#[trigger] s[i]).kind == 7 && s[i].base <= 4096 * j
                    < s[i].base + s[i].pages * 4096;
            assert(frames::covers_conventional(s[i], j * 4096));
        }
    }
}

} // verus!
