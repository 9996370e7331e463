//! The physical frame allocator: one bit per 4 KiB frame below 4 GiB, set
//! while the frame is in use or was never handed to the kernel.

use vstd::prelude::*;
use crate::bits;
use crate::handoff;
use crate::handoff::{Handoff, Region};

verus! {

pub const FRAME_BYTES: u64 = 4096;
pub const PHYS_LIMIT: u64 = 0x1_0000_0000;
pub const FRAME_COUNT: usize = 0x10_0000;
pub const WORDS: usize = 0x4000;

/// The first megabyte is never handed out.
pub const RESERVE_BELOW: u64 = 0x10_0000;

/// Frame `i` is marked in use.
pub open spec fn used(map: Seq<u64>, i: int) -> bool {
    bits::bit(map[i / 64], i % 64)
}

/// How many of the first `n` frames are free.
pub open spec fn free_below(map: Seq<u64>, n: int) -> int
    decreases n,
{
    if n <= 0 {
        0
    } else {
        free_below(map, n - 1) + (if used(map, n - 1) { 0int } else { 1int })
    }
}

/// Two bitmaps agree on every frame but `k`.
pub open spec fn same_but(a: Seq<u64>, b: Seq<u64>, k: int) -> bool {
    forall|j: int| #![trigger used(a, j)] #![trigger used(b, j)]
        0 <= j < FRAME_COUNT && j != k ==> used(a, j) == used(b, j)
}

/// The `n` frames from `i` on are all free.
pub open spec fn run_free(map: Seq<u64>, i: int, n: int) -> bool {
    forall|j: int| i <= j < i + n ==> !#[trigger] used(map, j)
}

/// Where a frame stands in the order in which single frames are handed out:
/// by word, cyclically from the hint, and by bit inside a word.
pub open spec fn rank(hint: int, j: int) -> int {
    (if j / 64 >= hint { j / 64 - hint } else { j / 64 - hint + WORDS }) * 64 + j % 64
}

/// The frames that a conventional region adds to the pool.
pub open spec fn contributes(r: Region, j: int) -> bool {
    &&& r.kind == handoff::KIND_CONVENTIONAL
    &&& r.base <= j * 4096
    &&& RESERVE_BELOW <= j * 4096
    &&& (j + 1) * 4096 <= r.end()
    &&& 0 <= j < FRAME_COUNT
}

/// One of the first `n` regions adds frame `j` to the pool.
pub open spec fn pooled(regions: Seq<Region>, n: int, j: int) -> bool {
    exists|i: int| 0 <= i < n && contributes(#[trigger] regions[i], j)
}

/// No frame is added to the pool by two regions.
pub open spec fn pools_disjoint(regions: Seq<Region>) -> bool {
    forall|a: int, b: int, j: int|
        0 <= a < b < regions.len() && #[trigger] contributes(regions[a], j)
            ==> !#[trigger] contributes(regions[b], j)
}

/// The first frame number that a region may add.
pub open spec fn region_first(r: Region) -> int {
    bits::ceil_div(if r.base >= RESERVE_BELOW { r.base as int } else { RESERVE_BELOW as int }, 4096)
}

/// One past the last frame number that a region may add.
pub open spec fn region_last(r: Region) -> int {
    (if r.end() <= PHYS_LIMIT { r.end() } else { PHYS_LIMIT as int }) / 4096
}

/// How many frames a region adds.
pub open spec fn region_yield(r: Region) -> int {
    if r.kind == handoff::KIND_CONVENTIONAL && region_last(r) > region_first(r) {
        region_last(r) - region_first(r)
    } else {
        0
    }
}

/// How many frames the first `n` regions add, each counted for itself.
pub open spec fn yield_below(regions: Seq<Region>, n: int) -> int
    decreases n,
{
    if n <= 0 {
        0
    } else {
        yield_below(regions, n - 1) + region_yield(regions[n - 1])
    }
}

/// One of the regions is conventional memory that covers address `frame`.
pub open spec fn conventional_at(regions: Seq<Region>, frame: int) -> bool {
    exists|i: int| 0 <= i < regions.len() && covers_conventional(#[trigger] regions[i], frame)
}

pub open spec fn covers_conventional(r: Region, frame: int) -> bool {
    r.kind == handoff::KIND_CONVENTIONAL && r.base <= frame < r.end()
}

/// How many of the first `n` frames are free and no longer conventional.
pub open spec fn stale_below(map: Seq<u64>, regions: Seq<Region>, n: int) -> int
    decreases n,
{
    if n <= 0 {
        0
    } else {
        stale_below(map, regions, n - 1) + (if !used(map, n - 1) && !conventional_at(
            regions,
            (n - 1) * 4096,
        ) { 1int } else { 0int })
    }
}

/// The allocator's state.
pub struct FrameAllocator {
    pub map: Vec<u64>,
    /// The bitmap as `init` left it: what is set here was never pooled.
    pub origin: Vec<u64>,
    pub hint: usize,
    pub total: u64,
    pub free: u64,
    pub ready: bool,
}

/// Every frame that is free in `map` was pooled, and the first megabyte never
/// was. What is set in `origin` was never pooled.
#[verifier::opaque]
pub open spec fn from_pool(map: Seq<u64>, origin: Seq<u64>) -> bool {
    &&& forall|j: int|
        0 <= j < FRAME_COUNT && !#[trigger] used(map, j) ==> !used(origin, j)
    &&& forall|j: int| 0 <= j < 256 ==> #[trigger] used(origin, j)
}

impl FrameAllocator {
    /// The bitmap is whole, the hint lies in it, every free frame is a pooled
    /// one, no more frames were pooled than were counted, and the free counter
    /// is not below the number of free frames.
    pub open spec fn wf(&self) -> bool {
        &&& self.map@.len() == WORDS
        &&& self.origin@.len() == WORDS
        &&& self.hint < WORDS
        &&& self.total <= 0x1000_0000
        &&& self.available() <= self.free <= self.available() + 0x1000_0000
        &&& from_pool(self.map@, self.origin@)
        &&& free_below(self.origin@, FRAME_COUNT as int) <= self.total
    }

    /// The free counter is the number of free frames.
    pub open spec fn balanced(&self) -> bool {
        self.free == self.available()
    }

    /// How many frames are free.
    pub open spec fn available(&self) -> int {
        free_below(self.map@, FRAME_COUNT as int)
    }

    /// The frame at address `base` is in use.
    pub open spec fn in_use(&self, base: int) -> bool {
        used(self.map@, base / 4096)
    }

    /// The frame at address `base` came from the memory map.
    pub open spec fn managed(&self, base: int) -> bool {
        0 <= base < PHYS_LIMIT && !used(self.origin@, base / 4096)
    }

    /// Everything but the bitmap, the hint and the free counter is as before.
    pub open spec fn same_pool(&self, other: &FrameAllocator) -> bool {
        &&& self.total == other.total
        &&& self.ready == other.ready
        &&& self.origin@ == other.origin@
    }

    /// An allocator that has not been handed any memory.
    pub fn new() -> (fa: FrameAllocator)
        ensures
            fa.wf(),
            fa.balanced(),
            !fa.ready,
            fa.total == 0,
            fa.free == 0,
            fa.hint == 0,
            forall|j: int| 0 <= j < FRAME_COUNT ==> #[trigger] used(fa.map@, j),
            forall|j: int| 0 <= j < FRAME_COUNT ==> #[trigger] used(fa.origin@, j),
    {
        let mut map: Vec<u64> = Vec::new();
        fill_used(&mut map);
        let mut origin: Vec<u64> = Vec::new();
        fill_used(&mut origin);
        proof {
            lemma_all_used(map@, FRAME_COUNT as int);
            lemma_all_used(origin@, FRAME_COUNT as int);
            reveal(from_pool);
        }
        FrameAllocator { map, origin, hint: 0, total: 0, free: 0, ready: false }
    }
}

/// A bitmap with every frame in use.
fn fill_used(map: &mut Vec<u64>)
    ensures
        final(map)@.len() == WORDS,
        forall|j: int| 0 <= j < FRAME_COUNT ==> #[trigger] used(final(map)@, j),
{
    map.clear();
    let mut w: usize = 0;
    while w < WORDS
        invariant
            w <= WORDS,
            map@.len() == w,
            forall|k: int| 0 <= k < w ==> map@[k] == 0xFFFF_FFFF_FFFF_FFFFu64,
        decreases WORDS - w,
    {
        map.push(0xFFFF_FFFF_FFFF_FFFF);
        w = w + 1;
    }
    assert forall|j: int| 0 <= j < FRAME_COUNT implies #[trigger] used(map@, j) by {
        bits::lemma_full_word((j % 64) as u64);
    }
}

/// With every frame in use, none is free.
pub proof fn lemma_all_used(map: Seq<u64>, n: int)
    requires
        n <= FRAME_COUNT,
        forall|j: int| 0 <= j < FRAME_COUNT ==> #[trigger] used(map, j),
    ensures
        free_below(map, n) == 0,
    decreases n,
{
    if n > 0 {
        lemma_all_used(map, n - 1);
    }
}

/// The number of free frames lies between zero and the number of frames.
pub proof fn lemma_free_bounds(map: Seq<u64>, n: int)
    requires
        n >= 0,
    ensures
        0 <= free_below(map, n) <= n,
    decreases n,
{
    if n > 0 {
        lemma_free_bounds(map, n - 1);
    }
}

/// Changing one frame changes the number of free frames by that frame.
pub proof fn lemma_change_one(a: Seq<u64>, b: Seq<u64>, k: int, n: int)
    requires
        0 <= k < FRAME_COUNT,
        n <= FRAME_COUNT,
        same_but(a, b, k),
    ensures
        k >= n ==> free_below(b, n) == free_below(a, n),
        k < n ==> free_below(b, n) - free_below(a, n) == (if used(a, k) { 1int } else { 0int }) - (
        if used(b, k) { 1int } else { 0int }),
    decreases n,
{
    if n > 0 {
        lemma_change_one(a, b, k, n - 1);
    }
}

/// A free frame counts.
pub proof fn lemma_some_free(map: Seq<u64>, k: int, n: int)
    requires
        0 <= k < n,
        !used(map, k),
    ensures
        free_below(map, n) >= 1,
    decreases n,
{
    lemma_free_bounds(map, n - 1);
    if k < n - 1 {
        lemma_some_free(map, k, n - 1);
    }
}

/// A bitmap with fewer free frames counts fewer.
pub proof fn lemma_free_le(a: Seq<u64>, b: Seq<u64>, n: int)
    requires
        n <= FRAME_COUNT,
        forall|j: int| 0 <= j < n && !#[trigger] used(a, j) ==> !used(b, j),
    ensures
        free_below(a, n) <= free_below(b, n),
    decreases n,
{
    if n > 0 {
        lemma_free_le(a, b, n - 1);
    }
}

/// A free run counts in full.
proof fn lemma_run_counts(map: Seq<u64>, k: int, n: int, m: int)
    requires
        0 <= k,
        0 <= n,
        k + n <= m,
        run_free(map, k, n),
    ensures
        free_below(map, m) >= n,
    decreases m,
{
    lemma_free_bounds(map, m);
    if n > 0 {
        if k + n < m {
            lemma_run_counts(map, k, n, m - 1);
        } else {
            assert(!used(map, m - 1));
            lemma_run_counts(map, k, n - 1, m - 1);
        }
    }
}

/// No more frames are free than were counted, every free frame was pooled, and
/// none of them lies in the first megabyte.
pub proof fn lemma_pool(fa: &FrameAllocator)
    requires
        fa.wf(),
    ensures
        0 <= fa.available() <= fa.total,
        forall|j: int|
            0 <= j < FRAME_COUNT && !#[trigger] used(fa.map@, j) ==> !used(fa.origin@, j) && j
                >= 256,
{
    reveal(from_pool);
    lemma_free_bounds(fa.map@, FRAME_COUNT as int);
    lemma_free_le(fa.map@, fa.origin@, FRAME_COUNT as int);
}

/// If some frame counts as free, one is.
pub proof fn lemma_find_free(map: Seq<u64>, n: int) -> (k: int)
    requires
        free_below(map, n) >= 1,
    ensures
        0 <= k < n,
        !used(map, k),
    decreases n,
{
    if !used(map, n - 1) {
        n - 1
    } else {
        lemma_find_free(map, n - 1)
    }
}

/// Mark frame `idx` in use.
fn mark(map: &mut Vec<u64>, idx: usize)
    requires
        old(map)@.len() == WORDS,
        idx < FRAME_COUNT,
    ensures
        final(map)@.len() == WORDS,
        used(final(map)@, idx as int),
        same_but(old(map)@, final(map)@, idx as int),
{
    let w: usize = idx / 64;
    let b: u64 = (idx % 64) as u64;
    let word: u64 = map[w];
    map[w] = word | (1u64 << b);
    proof {
        bits::lemma_set_bit(word, b, b);
        assert forall|j: int| 0 <= j < FRAME_COUNT && j != idx implies used(old(map)@, j) == used(
            map@,
            j,
        ) by {
            bits::lemma_set_bit(word, b, (j % 64) as u64);
        }
    }
}

/// Mark frame `idx` free.
fn unmark(map: &mut Vec<u64>, idx: usize)
    requires
        old(map)@.len() == WORDS,
        idx < FRAME_COUNT,
    ensures
        final(map)@.len() == WORDS,
        !used(final(map)@, idx as int),
        same_but(old(map)@, final(map)@, idx as int),
{
    let w: usize = idx / 64;
    let b: u64 = (idx % 64) as u64;
    let word: u64 = map[w];
    map[w] = word & !(1u64 << b);
    proof {
        bits::lemma_clear_bit(word, b, b);
        assert forall|j: int| 0 <= j < FRAME_COUNT && j != idx implies used(old(map)@, j) == used(
            map@,
            j,
        ) by {
            bits::lemma_clear_bit(word, b, (j % 64) as u64);
        }
    }
}

/// Whether frame `idx` is in use.
fn bit_at(map: &Vec<u64>, idx: usize) -> (r: bool)
    requires
        map@.len() == WORDS,
        idx < FRAME_COUNT,
    ensures
        r == used(map@, idx as int),
{
    let b: u64 = (idx % 64) as u64;
    let word: u64 = map[idx / 64];
    proof {
        bits::lemma_test_bit(word, b);
    }
    word & (1u64 << b) != 0
}

/// Which frames of a region are whole, above the reserve and below the limit.
proof fn lemma_region_frames(r: Region)
    requires
        r.sane(),
    ensures
        region_first(r) >= 256,
        region_last(r) <= FRAME_COUNT,
        region_last(r) >= 0,
        forall|j: int| #[trigger] contributes(r, j) <==> r.kind == handoff::KIND_CONVENTIONAL
            && region_first(r) <= j < region_last(r),
{
}

/// What [`init`] answers and does.
pub open spec fn pool_built(
    fa0: &FrameAllocator,
    fa1: &FrameAllocator,
    h: &Handoff,
    r: Result<(), &'static str>,
) -> bool {
    &&& fa1.wf()
    &&& r == (if fa0.ready {
        Err("frame allocator initialized twice")
    } else if h.regions@.len() == 0 {
        Err("handoff record has no memory regions (boot stage did not fill it?)")
    } else if yield_below(h.regions@, h.regions@.len() as int) == 0 {
        Err("conventional regions produced zero manageable frames")
    } else {
        Ok::<(), &'static str>(())
    })
    &&& fa0.ready ==> *fa1 == *fa0
    &&& !fa0.ready ==> {
        &&& fa1.ready == r is Ok
        &&& fa1.hint == 0
        &&& fa1.total == yield_below(h.regions@, h.regions@.len() as int)
        &&& fa1.free == fa1.total
        &&& forall|j: int| 0 <= j < FRAME_COUNT ==> (#[trigger] used(fa1.map@, j)
            <==> !pooled(h.regions@, h.regions@.len() as int, j))
        &&& fa1.origin@ == fa1.map@
        &&& pools_disjoint(h.regions@) ==> fa1.balanced()
    }
}

/// Take over the memory map: every whole conventional frame above the first
/// megabyte and below 4 GiB becomes free, everything else stays in use.
pub fn init(fa: &mut FrameAllocator, h: &Handoff) -> (r: Result<(), &'static str>)
    requires
        old(fa).wf(),
        h.sane(),
    ensures
        pool_built(old(fa), final(fa), h, r),
{
    if fa.ready {
        return Err("frame allocator initialized twice");
    }
    fill_used(&mut fa.map);
    fa.hint = 0;
    fa.total = 0;
    fa.free = 0;
    fa.origin = fa.map.clone();
    proof {
        assert(fa.origin@ =~= fa.map@);
        lemma_all_used(fa.map@, FRAME_COUNT as int);
    }
    let regions: usize = handoff::region_count(h);
    if regions == 0 {
        proof {
            reveal(from_pool);
        }
        return Err("handoff record has no memory regions (boot stage did not fill it?)");
    }
    let ghost rs = h.regions@;
    let mut i: usize = 0;
    while i < regions
        invariant
            i <= regions,
            regions == h.regions@.len(),
            rs == h.regions@,
            h.sane(),
            fa.map@.len() == WORDS,
            fa.origin@.len() == WORDS,
            fa.hint == 0,
            !fa.ready,
            fa.total == fa.free,
            fa.total == yield_below(rs, i as int),
            fa.total <= i * 0x10_0000,
            fa.available() <= fa.free,
            forall|j: int| 0 <= j < FRAME_COUNT ==> (#[trigger] used(fa.map@, j) <==> !pooled(
                rs,
                i as int,
                j,
            )),
            pools_disjoint(rs) ==> fa.balanced(),
        decreases regions - i,
    {
        let reg = h.regions[i];
        proof {
            assert(reg == rs[i as int]);
            lemma_region_frames(reg);
            assert forall|j: int| pooled(rs, i + 1, j) <==> pooled(rs, i as int, j) || contributes(
                reg,
                j,
            ) by {
                if contributes(reg, j) {
                    assert(contributes(rs[i as int], j));
                }
                if pooled(rs, i as int, j) {
                    let a = choose|a: int| 0 <= a < i && contributes(#[trigger] rs[a], j);
                    assert(contributes(rs[a], j));
                }
            }
        }
        if reg.kind == handoff::KIND_CONVENTIONAL {
            assert(reg.sane());
            let low: u64 = if reg.base > RESERVE_BELOW {
                reg.base
            } else {
                RESERVE_BELOW
            };
            let stop: u64 = reg.base + reg.pages * FRAME_BYTES;
            let high: u64 = if stop < PHYS_LIMIT {
                stop
            } else {
                PHYS_LIMIT
            };
            let first: u64 = bits::div_ceil(low, FRAME_BYTES);
            let last: u64 = high / FRAME_BYTES;
            let mut f: u64 = first;
            while f < last
                invariant
                    i < regions,
                    regions <= 256,
                    reg == rs[i as int],
                    reg.sane(),
                    rs == h.regions@,
                    regions == h.regions@.len(),
                    reg.kind == handoff::KIND_CONVENTIONAL,
                    first == region_first(reg),
                    last == region_last(reg),
                    last <= FRAME_COUNT,
                    first <= f,
                    f <= last || f == first,
                    fa.map@.len() == WORDS,
                    fa.origin@.len() == WORDS,
                    fa.hint == 0,
                    !fa.ready,
                    fa.total == fa.free,
                    fa.total == yield_below(rs, i as int) + (f - first),
                    yield_below(rs, i as int) <= i * 0x10_0000,
                    fa.available() <= fa.free,
                    forall|j: int| 0 <= j < FRAME_COUNT ==> (#[trigger] used(fa.map@, j)
                        <==> !(pooled(rs, i as int, j) || first <= j < f)),
                    forall|j: int| #[trigger] contributes(reg, j) <==> first <= j < last,
                    pools_disjoint(rs) ==> fa.balanced(),
                decreases last - f,
            {
                let ghost before = fa.map@;
                unmark(&mut fa.map, f as usize);
                proof {
                    lemma_change_one(before, fa.map@, f as int, FRAME_COUNT as int);
                    lemma_free_bounds(before, FRAME_COUNT as int);
                    if pools_disjoint(rs) {
                        assert(contributes(reg, f as int));
                        if pooled(rs, i as int, f as int) {
                            let a = choose|a: int| 0 <= a < i && contributes(
                                #[trigger] rs[a],
                                f as int,
                            );
                            assert(contributes(rs[a], f as int));
                            assert(!contributes(rs[i as int], f as int));
                        }
                    }
                    assert forall|j: int| 0 <= j < FRAME_COUNT implies (#[trigger] used(fa.map@,
                        j,
                    ) <==> !(pooled(rs, i as int, j) || first <= j < f + 1)) by {
                        if j != f {
                            assert(used(before, j) == used(fa.map@, j));
                        }
                    }
                }
                fa.total = fa.total + 1;
                fa.free = fa.free + 1;
                f = f + 1;
            }
        }
        i = i + 1;
    }
    fa.origin = fa.map.clone();
    proof {
        assert(fa.origin@ =~= fa.map@);
        lemma_free_bounds(fa.map@, FRAME_COUNT as int);
        assert forall|j: int| 0 <= j < 256 implies #[trigger] used(fa.map@, j) by {
            if pooled(rs, regions as int, j) {
                let a = choose|a: int| 0 <= a < regions && contributes(#[trigger] rs[a], j);
                assert(contributes(rs[a], j));
            }
        }
        reveal(from_pool);
    }
    if fa.total == 0 {
        return Err("conventional regions produced zero manageable frames");
    }
    fa.ready = true;
    Ok(())
}

/// From `pre` to `post` the free frame of least rank, at address `f`, was
/// taken, and no other frame changed.
pub open spec fn took(pre: &FrameAllocator, post: &FrameAllocator, f: int) -> bool {
    &&& f % 4096 == 0
    &&& 0 <= f < PHYS_LIMIT
    &&& !pre.in_use(f)
    &&& post.in_use(f)
    &&& pre.managed(f)
    &&& same_but(pre.map@, post.map@, f / 4096)
    &&& post.free == pre.free - 1
    &&& post.available() == pre.available() - 1
    &&& post.hint == f / 4096 / 64
    &&& forall|j: int|
        0 <= j < FRAME_COUNT && rank(pre.hint as int, j) < rank(pre.hint as int, f / 4096)
            ==> #[trigger] used(pre.map@, j)
}

/// From `pre` to `post` the frame at address `f` was given back, and no other
/// frame changed.
pub open spec fn gave_back(pre: &FrameAllocator, post: &FrameAllocator, f: int) -> bool {
    &&& !post.in_use(f)
    &&& same_but(pre.map@, post.map@, f / 4096)
    &&& post.free == pre.free + 1
    &&& post.available() == pre.available() + 1
    &&& post.hint == (if f / 4096 / 64 < pre.hint {
        f / 4096 / 64
    } else {
        pre.hint as int
    })
}

/// Taking frames leaves every free frame a pooled one.
proof fn lemma_taken_from_pool(a: Seq<u64>, b: Seq<u64>, origin: Seq<u64>)
    requires
        from_pool(a, origin),
        forall|j: int| 0 <= j < FRAME_COUNT && #[trigger] used(a, j) ==> used(b, j),
    ensures
        from_pool(b, origin),
{
    reveal(from_pool);
    assert forall|j: int| 0 <= j < FRAME_COUNT && !#[trigger] used(b, j) implies !used(
        origin,
        j,
    ) by {
        assert(!used(a, j));
    }
}

/// What [`alloc_frame`] answers and does.
pub open spec fn frame_taken(
    fa0: &FrameAllocator,
    fa1: &FrameAllocator,
    r: Option<u64>,
) -> bool {
    &&& fa1.wf()
    &&& fa1.same_pool(fa0)
    &&& r is None <==> !fa0.ready || fa0.available() == 0
    &&& r is None ==> *fa1 == *fa0
    &&& r matches Some(f) ==> took(fa0, fa1, f as int)
}

/// Hand out one frame: the free frame of least rank, if the allocator is
/// ready and any frame is free.
pub fn alloc_frame(fa: &mut FrameAllocator) -> (r: Option<u64>)
    requires
        old(fa).wf(),
    ensures
        frame_taken(old(fa), final(fa), r),
{
    if !fa.ready {
        return None;
    }
    let start: usize = fa.hint;
    let mut w: usize = start;
    let mut seen: usize = 0;
    while seen < WORDS
        invariant
            *fa == *old(fa),
            fa.wf(),
            fa.ready,
            start == fa.hint,
            start < WORDS,
            w < WORDS,
            seen <= WORDS,
            w == (if start + seen < WORDS { start + seen } else { start + seen - WORDS }) || (seen
                == WORDS && w == start),
            forall|j: int|
                0 <= j < FRAME_COUNT && rank(start as int, j) < seen * 64 ==> #[trigger] used(
                    fa.map@,
                    j,
                ),
        decreases WORDS - seen,
    {
        let word: u64 = fa.map[w];
        let inv: u64 = !word;
        if inv != 0 {
            let b: u32 = inv.trailing_zeros();
            proof {
                vstd::std_specs::bits::axiom_u64_trailing_zeros(inv);
                bits::lemma_not_bit(word, b as u64);
            }
            let idx: usize = w * 64 + b as usize;
            let ghost before = fa.map@;
            proof {
                assert(idx as int / 64 == w && idx as int % 64 == b as int);
                assert(!used(before, idx as int));
                assert(rank(start as int, idx as int) == seen * 64 + b);
                assert forall|j: int|
                    0 <= j < FRAME_COUNT && rank(start as int, j) < rank(
                        start as int,
                        idx as int,
                    ) implies #[trigger] used(before, j) by {
                    if rank(start as int, j) >= seen * 64 {
                        assert(j / 64 == w);
                        assert(j % 64 < b);
                        let c = (j % 64) as u64;
                        assert((inv >> c) & 1u64 == 0u64);
                        bits::lemma_not_bit(word, c);
                    }
                }
                lemma_some_free(before, idx as int, FRAME_COUNT as int);
                lemma_pool(fa);
            }
            mark(&mut fa.map, idx);
            proof {
                lemma_change_one(before, fa.map@, idx as int, FRAME_COUNT as int);
                lemma_taken_from_pool(before, fa.map@, fa.origin@);
            }
            fa.hint = w;
            fa.free = fa.free - 1;
            assert((idx as int * 4096) / 4096 == idx);
            return Some(idx as u64 * FRAME_BYTES);
        }
        proof {
            assert forall|j: int|
                0 <= j < FRAME_COUNT && rank(start as int, j) < (seen + 1) * 64 implies #[trigger] used(
                fa.map@,
                j,
            ) by {
                if rank(start as int, j) >= seen * 64 {
                    assert(j / 64 == w);
                    bits::lemma_not_bit(word, (j % 64) as u64);
                }
            }
        }
        w = (w + 1) % WORDS;
        seen = seen + 1;
    }
    proof {
        assert forall|j: int| 0 <= j < FRAME_COUNT implies #[trigger] used(fa.map@, j) by {
            assert(rank(start as int, j) < WORDS * 64);
        }
        lemma_all_used(fa.map@, FRAME_COUNT as int);
    }
    None
}

/// What giving back the frame at `base` answers.
pub open spec fn free_answer(fa: &FrameAllocator, base: int) -> Result<(), &'static str> {
    if base % 4096 != 0 || base >= PHYS_LIMIT {
        Err("free: address not a managed frame base")
    } else if !fa.ready {
        Err("free: allocator not initialized")
    } else if !fa.managed(base) {
        Err("free: address not a managed frame base")
    } else if !fa.in_use(base) {
        Err("free: frame was not allocated (double free?)")
    } else {
        Ok(())
    }
}

/// What [`free`] answers and does.
pub open spec fn freed(
    fa0: &FrameAllocator,
    fa1: &FrameAllocator,
    base: u64,
    r: Result<(), &'static str>,
) -> bool {
    &&& fa1.wf()
    &&& fa1.same_pool(fa0)
    &&& r == free_answer(fa0, base as int)
    &&& r is Err ==> *fa1 == *fa0
    &&& r is Ok ==> gave_back(fa0, fa1, base as int)
}

/// Give back one frame. Nothing changes where the address is no frame of the
/// pool, or the frame is free already.
pub fn free(fa: &mut FrameAllocator, base: u64) -> (r: Result<(), &'static str>)
    requires
        old(fa).wf(),
    ensures
        freed(old(fa), final(fa), base, r),
{
    if base % FRAME_BYTES != 0 || base >= PHYS_LIMIT {
        return Err("free: address not a managed frame base");
    }
    if !fa.ready {
        return Err("free: allocator not initialized");
    }
    let idx: usize = (base / FRAME_BYTES) as usize;
    if bit_at(&fa.origin, idx) {
        return Err("free: address not a managed frame base");
    }
    if !bit_at(&fa.map, idx) {
        return Err("free: frame was not allocated (double free?)");
    }
    let ghost before = fa.map@;
    unmark(&mut fa.map, idx);
    proof {
        lemma_change_one(before, fa.map@, idx as int, FRAME_COUNT as int);
        lemma_free_bounds(before, FRAME_COUNT as int);
        assert(from_pool(fa.map@, fa.origin@)) by {
            reveal(from_pool);
        }
    }
    fa.free = fa.free + 1;
    if idx / 64 < fa.hint {
        fa.hint = idx / 64;
    }
    Ok(())
}

/// Where the search for a run of `n` frames starts.
pub open spec fn run_start(hint: int, n: int) -> int {
    if hint * 64 <= FRAME_COUNT - n {
        hint * 64
    } else {
        FRAME_COUNT - n
    }
}

/// Frame `i` begins the run that is taken: the first free run at or after
/// the start, or, if there is none, the first free run before it.
pub open spec fn run_taken(map: Seq<u64>, start: int, n: int, i: int) -> bool {
    &&& 0 <= i <= FRAME_COUNT - n
    &&& run_free(map, i, n)
    &&& i >= start ==> forall|k: int| start <= k < i ==> !#[trigger] run_free(map, k, n)
    &&& i < start ==> forall|k: int|
        (0 <= k < i || start <= k <= FRAME_COUNT - n) ==> !#[trigger] run_free(map, k, n)
}

/// The address of frame `j`.
pub open spec fn frame_at(j: int) -> int {
    j * 4096
}

/// What [`alloc_contiguous`] answers and does.
pub open spec fn run_allocated(
    fa0: &FrameAllocator,
    fa1: &FrameAllocator,
    n: usize,
    r: Option<u64>,
) -> bool {
    &&& fa1.wf()
    &&& fa1.same_pool(fa0)
    &&& r is None ==> *fa1 == *fa0
    &&& r is None <==> (!fa0.ready || n == 0 || forall|k: int|
        0 <= k <= FRAME_COUNT - n ==> !#[trigger] run_free(fa0.map@, k, n as int))
    &&& r matches Some(f) ==> {
        let i = f as int / 4096;
        &&& f % 4096 == 0
        &&& f + n * 4096 <= PHYS_LIMIT
        &&& run_taken(fa0.map@, run_start(fa0.hint as int, n as int), n as int, i)
        &&& forall|j: int|
            0 <= j < FRAME_COUNT ==> #[trigger] used(fa1.map@, j) == (used(
                fa0.map@,
                j,
            ) || i <= j < i + n)
        &&& forall|j: int| i <= j < i + n ==> fa0.managed(#[trigger] frame_at(j))
        &&& fa1.free == fa0.free - n
        &&& fa1.available() == fa0.available() - n
        &&& fa1.hint == i / 64
    }
}

/// Hand out `n` adjacent frames, if that many lie free side by side anywhere.
pub fn alloc_contiguous(fa: &mut FrameAllocator, n: usize) -> (r: Option<u64>)
    requires
        old(fa).wf(),
    ensures
        run_allocated(old(fa), final(fa), n, r),
{
    proof {
        lemma_pool(fa);
        assert forall|k: int| 0 <= k <= FRAME_COUNT - n && #[trigger] run_free(
            fa.map@,
            k,
            n as int,
        ) implies n <= fa.total by {
            lemma_run_counts(fa.map@, k, n as int, FRAME_COUNT as int);
        }
    }
    if !fa.ready || n == 0 || n as u64 > fa.total || n > FRAME_COUNT {
        return None;
    }
    let ghost m = fa.map@;
    let bound: usize = FRAME_COUNT - n;
    let start: usize = if fa.hint * 64 <= bound {
        fa.hint * 64
    } else {
        bound
    };
    let mut i: usize = start;
    let mut wrapped: bool = false;
    loop
        invariant
            *fa == *old(fa),
            fa.wf(),
            fa.ready,
            m == fa.map@,
            0 < n <= FRAME_COUNT,
            n <= fa.total,
            bound == FRAME_COUNT - n,
            start <= bound,
            start == run_start(fa.hint as int, n as int),
            i <= FRAME_COUNT,
            !wrapped ==> start <= i,
            !wrapped ==> forall|k: int|
                start <= k < i && k <= bound ==> !#[trigger] run_free(m, k, n as int),
            wrapped ==> forall|k: int|
                (start <= k <= bound || 0 <= k < i && k <= bound) ==> !#[trigger] run_free(
                    m,
                    k,
                    n as int,
                ),
        decreases (if wrapped { 0int } else { 1int }), FRAME_COUNT - i,
    {
        if i <= bound && !bit_at(&fa.map, i) {
            let mut run: usize = 1;
            while run < n && !bit_at(&fa.map, i + run)
                invariant
                    fa.wf(),
                    m == fa.map@,
                    bound == FRAME_COUNT - n,
                    n <= FRAME_COUNT,
                    i <= bound,
                    1 <= run <= n,
                    run_free(m, i as int, run as int),
                decreases n - run,
            {
                run = run + 1;
            }
            if run == n {
                if wrapped && i >= start {
                    assert(!run_free(m, i as int, n as int));
                }
                assert(run_taken(m, start as int, n as int, i as int));
                let mut k: usize = 0;
                while k < n
                    invariant
                        k <= n,
                        i + n <= FRAME_COUNT,
                        n <= FRAME_COUNT,
                        fa.map@.len() == WORDS,
                        fa.origin@ == old(fa).origin@,
                        fa.hint == old(fa).hint,
                        fa.free == old(fa).free,
                        fa.total == old(fa).total,
                        fa.ready == old(fa).ready,
                        m == old(fa).map@,
                        run_free(m, i as int, n as int),
                        fa.available() == free_below(m, FRAME_COUNT as int) - k,
                        forall|j: int|
                            0 <= j < FRAME_COUNT ==> #[trigger] used(fa.map@, j) == (used(m, j) || i
                                <= j < i + k),
                    decreases n - k,
                {
                    let ghost before = fa.map@;
                    mark(&mut fa.map, i + k);
                    proof {
                        assert(!used(m, i + k));
                        lemma_change_one(before, fa.map@, i + k, FRAME_COUNT as int);
                        assert forall|j: int|
                            0 <= j < FRAME_COUNT implies #[trigger] used(fa.map@, j) == (used(m, j)
                            || i <= j < i + k + 1) by {
                            if j != i + k {
                                assert(used(before, j) == used(fa.map@, j));
                            }
                        }
                    }
                    k = k + 1;
                }
                proof {
                    lemma_free_bounds(fa.map@, FRAME_COUNT as int);
                    lemma_taken_from_pool(m, fa.map@, fa.origin@);
                    lemma_pool(old(fa));
                    assert forall|j: int| i <= j < i + n implies old(fa).managed(
                        #[trigger] frame_at(j),
                    ) by {
                        assert(!used(m, j));
                    }
                }
                fa.free = fa.free - n as u64;
                fa.hint = i / 64;
                assert((i as int * 4096) / 4096 == i);
                return Some(i as u64 * FRAME_BYTES);
            }
            proof {
                assert(used(m, i + run));
                assert forall|k: int| i <= k < i + run && k <= bound implies !#[trigger] run_free(
                    m,
                    k,
                    n as int,
                ) by {
                    assert(k <= i + run < k + n);
                }
            }
            i = i + run;
        } else {
            proof {
                if i <= bound {
                    assert(used(m, i as int));
                    assert(!run_free(m, i as int, n as int));
                }
            }
            if i >= bound {
                if wrapped {
                    return None;
                }
                wrapped = true;
                i = 0;
            } else {
                i = i + 1;
            }
            if wrapped && i >= start {
                return None;
            }
        }
    }
}

/// The hint once the `k` frames from frame `q` on went back one by one: the
/// first word freed, if it lies below.
pub open spec fn hint_after(hint: int, q: int, k: int) -> int {
    if k > 0 && q / 64 < hint {
        q / 64
    } else {
        hint
    }
}

/// What [`free_contiguous`] answers and does.
pub open spec fn run_freed(
    fa0: &FrameAllocator,
    fa1: &FrameAllocator,
    base: u64,
    n: usize,
    r: Result<(), &'static str>,
) -> bool {
    &&& fa1.wf()
    &&& fa1.same_pool(fa0)
    &&& r is Ok ==> {
        &&& forall|k: int|
            0 <= k < n ==> #[trigger] free_answer(fa0, base + k * 4096) is Ok
        &&& fa1.free == fa0.free + n
        &&& fa1.available() == fa0.available() + n
        &&& fa1.hint == hint_after(fa0.hint as int, base as int / 4096, n as int)
        &&& forall|j: int|
            0 <= j < FRAME_COUNT ==> #[trigger] used(fa1.map@, j) == (used(
                fa0.map@,
                j,
            ) && !(base as int / 4096 <= j < base as int / 4096 + n))
    }
    &&& r matches Err(e) ==> exists|k: int|
        0 <= k < n && Err::<(), &'static str>(e) == #[trigger] free_answer(
            fa0,
            base + k * 4096,
        ) && (forall|l: int|
            0 <= l < k ==> #[trigger] free_answer(fa0, base + l * 4096) is Ok) && fa1.free
            == fa0.free + k && fa1.available() == fa0.available() + k && fa1.hint == hint_after(
            fa0.hint as int,
            base as int / 4096,
            k,
        ) && (forall|j: int|
            0 <= j < FRAME_COUNT ==> #[trigger] used(fa1.map@, j) == (used(fa0.map@, j) && !(
            base as int / 4096 <= j < base as int / 4096 + k)))
}

/// Give back `n` adjacent frames one by one, stopping at the first refusal.
pub fn free_contiguous(fa: &mut FrameAllocator, base: u64, n: usize) -> (r: Result<
    (),
    &'static str,
>)
    requires
        old(fa).wf(),
    ensures
        run_freed(old(fa), final(fa), base, n, r),
{
    let mut k: usize = 0;
    while k < n
        invariant
            k <= n,
            k > 0 ==> base + (k - 1) * 4096 < PHYS_LIMIT,
            fa.wf(),
            fa.same_pool(old(fa)),
            fa.free == old(fa).free + k,
            fa.available() == old(fa).available() + k,
            fa.hint == hint_after(old(fa).hint as int, base as int / 4096, k as int),
            forall|l: int| 0 <= l < k ==> #[trigger] free_answer(old(fa), base + l * 4096) is Ok,
            forall|j: int|
                0 <= j < FRAME_COUNT ==> #[trigger] used(fa.map@, j) == (used(old(fa).map@, j) && !(
                base as int / 4096 <= j < base as int / 4096 + k)),
        decreases n - k,
    {
        let ghost before = fa.map@;
        let ghost q = base as int / 4096;
        let addr: u64 = base + k as u64 * FRAME_BYTES;
        proof {
            assert(addr as int == base + k * 4096);
            assert(addr as int / 4096 == q + k);
            if addr < PHYS_LIMIT {
                assert(used(before, q + k) == used(old(fa).map@, q + k));
            }
            assert(free_answer(fa, addr as int) == free_answer(old(fa), base + k * 4096));
        }
        match free(fa, addr) {
            Ok(_) => {
                proof {
                    assert forall|j: int| 0 <= j < FRAME_COUNT implies #[trigger] used(fa.map@, j)
                        == (used(old(fa).map@, j) && !(q <= j < q + k + 1)) by {
                        if j != q + k {
                            assert(used(before, j) == used(fa.map@, j));
                        }
                    }
                }
            },
            Err(e) => {
                return Err(e);
            },
        }
        k = k + 1;
    }
    Ok(())
}

/// Whether a conventional region of the record covers the frame at `frame`.
fn in_final_conventional(h: &Handoff, frame: u64) -> (r: bool)
    requires
        h.sane(),
    ensures
        r == conventional_at(h.regions@, frame as int),
{
    let n: usize = handoff::region_count(h);
    let mut i: usize = 0;
    while i < n
        invariant
            i <= n,
            n == h.regions@.len(),
            h.sane(),
            forall|a: int|
                0 <= a < i ==> !covers_conventional(#[trigger] h.regions@[a], frame as int),
        decreases n - i,
    {
        let reg = h.regions[i];
        assert(h.regions@[i as int].sane());
        if reg.kind == handoff::KIND_CONVENTIONAL && frame >= reg.base && frame < reg.base
            + reg.pages * FRAME_BYTES {
            assert(covers_conventional(h.regions@[i as int], frame as int));
            return true;
        }
        i = i + 1;
    }
    false
}

/// What [`reconcile_final_map`] answers and does.
pub open spec fn reconciled(
    fa0: &FrameAllocator,
    fa1: &FrameAllocator,
    h: &Handoff,
    r: Result<u64, &'static str>,
) -> bool {
    &&& fa1.wf()
    &&& fa1.total == fa0.total
    &&& fa1.ready == fa0.ready
    &&& r is Err ==> *fa1 == *fa0
    &&& r == (if !fa0.ready {
        Err("reconcile before init")
    } else if h.regions@.len() == 0 {
        Err("handoff record empty at reconcile")
    } else {
        Ok::<u64, &'static str>(
            stale_below(fa0.map@, h.regions@, FRAME_COUNT as int) as u64,
        )
    })
    &&& r matches Ok(n) ==> {
        &&& n == stale_below(fa0.map@, h.regions@, FRAME_COUNT as int)
        &&& fa1.free == fa0.free - n
        &&& fa1.available() == fa0.available() - n
        &&& fa1.hint == fa0.hint
        &&& forall|j: int|
            0 <= j < FRAME_COUNT ==> #[trigger] used(fa1.map@, j) == (used(
                fa0.map@,
                j,
            ) || !conventional_at(h.regions@, j * 4096))
        &&& forall|j: int|
            0 <= j < FRAME_COUNT ==> #[trigger] used(fa1.origin@, j) == (used(
                fa0.origin@,
                j,
            ) || !used(fa0.map@, j) && !conventional_at(h.regions@, j * 4096))
    }
}

/// Retire every free frame that the final memory map no longer calls
/// conventional, and say how many there were. A retired frame leaves the pool:
/// it is never handed out again.
pub fn reconcile_final_map(fa: &mut FrameAllocator, h: &Handoff) -> (r: Result<u64, &'static str>)
    requires
        old(fa).wf(),
        h.sane(),
    ensures
        reconciled(old(fa), final(fa), h, r),
{
    if !fa.ready {
        return Err("reconcile before init");
    }
    if handoff::region_count(h) == 0 {
        return Err("handoff record empty at reconcile");
    }
    let ghost m = fa.map@;
    proof {
        lemma_free_bounds(m, FRAME_COUNT as int);
    }
    let mut leaked: u64 = 0;
    let mut idx: usize = 0;
    while idx < FRAME_COUNT
        invariant
            idx <= FRAME_COUNT,
            fa.map@.len() == WORDS,
            fa.origin@.len() == WORDS,
            old(fa).wf(),
            h.sane(),
            m == old(fa).map@,
            fa.hint == old(fa).hint,
            fa.total == old(fa).total,
            fa.ready == old(fa).ready,
            leaked == stale_below(m, h.regions@, idx as int),
            leaked <= idx,
            fa.free == old(fa).free - leaked,
            fa.available() == old(fa).available() - leaked,
            fa.available() >= 0,
            forall|j: int|
                0 <= j < FRAME_COUNT ==> #[trigger] used(fa.map@, j) == (used(m, j) || j < idx
                    && !conventional_at(h.regions@, j * 4096)),
            forall|j: int|
                0 <= j < FRAME_COUNT ==> #[trigger] used(fa.origin@, j) == (used(
                    old(fa).origin@,
                    j,
                ) || j < idx && !used(m, j) && !conventional_at(h.regions@, j * 4096)),
        decreases FRAME_COUNT - idx,
    {
        let ghost before = fa.map@;
        let ghost pool = fa.origin@;
        if !bit_at(&fa.map, idx) {
            let frame: u64 = idx as u64 * FRAME_BYTES;
            if !in_final_conventional(h, frame) {
                mark(&mut fa.map, idx);
                mark(&mut fa.origin, idx);
                proof {
                    lemma_some_free(before, idx as int, FRAME_COUNT as int);
                    lemma_change_one(before, fa.map@, idx as int, FRAME_COUNT as int);
                }
                fa.free = fa.free - 1;
                leaked = leaked + 1;
            }
        }
        proof {
            assert forall|j: int| 0 <= j < FRAME_COUNT implies #[trigger] used(fa.map@, j) == (used(
                m,
                j,
            ) || j < idx + 1 && !conventional_at(h.regions@, j * 4096)) by {
                if j != idx {
                    assert(used(before, j) == used(fa.map@, j));
                }
            }
            assert forall|j: int| 0 <= j < FRAME_COUNT implies #[trigger] used(fa.origin@, j) == (
            used(old(fa).origin@, j) || j < idx + 1 && !used(m, j) && !conventional_at(
                h.regions@,
                j * 4096,
            )) by {
                if j != idx {
                    assert(used(pool, j) == used(fa.origin@, j));
                }
            }
        }
        idx = idx + 1;
    }
    proof {
        assert(from_pool(fa.map@, fa.origin@)) by {
            reveal(from_pool);
        }
        assert forall|j: int| 0 <= j < FRAME_COUNT && !#[trigger] used(
            fa.origin@,
            j,
        ) implies !used(old(fa).origin@, j) by {}
        lemma_free_le(fa.origin@, old(fa).origin@, FRAME_COUNT as int);
    }
    Ok(leaked)
}

/// Whether the frame at `base` came from the memory map at all.
pub fn is_managed(fa: &FrameAllocator, base: u64) -> (r: bool)
    requires
        fa.wf(),
    ensures
        r == fa.managed(base as int),
{
    base < PHYS_LIMIT && !bit_at(&fa.origin, (base / FRAME_BYTES) as usize)
}

/// How many frames the memory map brought.
pub fn total_frames(fa: &FrameAllocator) -> (r: u64)
    ensures
        r == fa.total,
{
    fa.total
}

/// The free counter.
pub fn free_frames(fa: &FrameAllocator) -> (r: u64)
    ensures
        r == fa.free,
{
    fa.free
}

/// Whether `init` has succeeded.
pub fn ready(fa: &FrameAllocator) -> (r: bool)
    ensures
        r == fa.ready,
{
    fa.ready
}

/// A frame that was just handed out can be given back once, and then the pool
/// is what it was: the same frames are free, and as many of them.
pub proof fn law_alloc_then_free(a: FrameAllocator, b: FrameAllocator, c: FrameAllocator, f: int)
    requires
        a.wf(),
        a.ready,
        b.same_pool(&a),
        took(&a, &b, f),
        c.same_pool(&b),
        gave_back(&b, &c, f),
    ensures
        free_answer(&b, f) is Ok,
        free_answer(&c, f) == Err::<(), &'static str>(
            "free: frame was not allocated (double free?)",
        ),
        c.free == a.free,
        forall|j: int| 0 <= j < FRAME_COUNT ==> #[trigger] used(c.map@, j) == used(a.map@, j),
{
    assert forall|j: int| 0 <= j < FRAME_COUNT implies #[trigger] used(c.map@, j) == used(
        a.map@,
        j,
    ) by {
        if j != f / 4096 {
            assert(used(a.map@, j) == used(b.map@, j));
        }
    }
}

/// Two frames handed out one after the other are different frames.
pub proof fn law_alloc_distinct(a: FrameAllocator, b: FrameAllocator, c: FrameAllocator, f: int, g: int)
    requires
        took(&a, &b, f),
        took(&b, &c, g),
    ensures
        f != g,
        c.in_use(f) && c.in_use(g),
{
    if f / 4096 != g / 4096 {
        assert(used(b.map@, f / 4096) == used(c.map@, f / 4096));
    }
}

} // verus!
