//! Reading and writing memory through an address space, and the three-page
//! windows that the user programs of the self-tests run in.

use vstd::prelude::*;
use crate::accounts;
use crate::bytes;
use crate::elf;
use crate::frames;
use crate::frames::FrameAllocator;
use crate::kernel::Kernel;
use crate::paging;
use crate::paging::{PAGES, PhysMem, USER_HALF_LIMIT, USER_PAGES};
use crate::payloads::{
    I_CODE,
    I_DATA,
    I_STACK,
    M4_CODE_VA,
    M4_DATA_VA,
    M4_STACK_VA,
    M5_CODE_VA,
    M5_DATA_VA,
    M5_STACK_VA,
    U3_CODE_VA,
    U3_DATA_VA,
    U3_STACK_VA,
};
use crate::proc;
use crate::views;

verus! {

/// The byte at `va` as the address space `root` shows it, if memory backs it.
pub open spec fn seen(words: Seq<u64>, root: int, va: int) -> Option<u8> {
    match paging::leaf(words, root, va / 4096) {
        Some(e) => if (paging::addr(e) + va % 4096) / 8 < words.len() {
            Some(elf::mem_byte(words, paging::addr(e) + va % 4096))
        } else {
            None
        },
        None => None,
    }
}

/// Read the byte at the user address `va` of the address space `root`.
pub fn peek(mem: &PhysMem, root: u64, va: u64) -> (r: Option<u8>)
    requires
        paging::tables_wf(mem.words@, mem.seats@),
        paging::is_root(mem.seats@, root as int),
        va < USER_HALF_LIMIT,
    ensures
        r == seen(mem.words@, root as int, va as int),
{
    match paging::translate(mem, root, va) {
        None => None,
        Some(e) => {
            proof {
                paging::lemma_mask(e);
            }
            let a: u64 = (e & paging::ADDR_MASK) + va % 4096;
            let n: usize = mem.words.len();
            if a / 8 < n as u64 {
                Some(bytes::byte_of(mem.words[(a / 8) as usize], (a % 8) as usize))
            } else {
                None
            }
        },
    }
}

/// `w` with byte `k` set to `b`.
fn with_byte(w: u64, k: usize, b: u8) -> (r: u64)
    requires
        k < 8,
    ensures
        forall|j: int|
            0 <= j < 8 ==> #[trigger] bytes::le_byte(r as int, j) == (if j == k {
                b
            } else {
                bytes::le_byte(w as int, j)
            }),
{
    let mut x: [u8; 8] = [
        bytes::byte_of(w, 0),
        bytes::byte_of(w, 1),
        bytes::byte_of(w, 2),
        bytes::byte_of(w, 3),
        bytes::byte_of(w, 4),
        bytes::byte_of(w, 5),
        bytes::byte_of(w, 6),
        bytes::byte_of(w, 7),
    ];
    x[k] = b;
    let r: u64 = x[0] as u64 + 0x100 * (x[1] as u64) + 0x1_0000 * (x[2] as u64) + 0x100_0000 * (
    x[3] as u64) + 0x1_0000_0000 * (x[4] as u64) + 0x100_0000_0000 * (x[5] as u64)
        + 0x1_0000_0000_0000 * (x[6] as u64) + 0x100_0000_0000_0000 * (x[7] as u64);
    proof {
        elf::lemma_word_bytes(
            r as int,
            x@[0] as int,
            x@[1] as int,
            x@[2] as int,
            x@[3] as int,
            x@[4] as int,
            x@[5] as int,
            x@[6] as int,
            x@[7] as int,
        );
        assert forall|j: int| 0 <= j < 8 implies #[trigger] bytes::le_byte(r as int, j) == (if j
            == k {
            b
        } else {
            bytes::le_byte(w as int, j)
        }) by {
            assert(bytes::le_byte(r as int, j) == x@[j]);
        }
    }
    r
}

/// Only words of the frame at `f` differ.
pub open spec fn only_frame(w0: Seq<u64>, w1: Seq<u64>, f: int) -> bool {
    &&& w1.len() == w0.len()
    &&& forall|q: int|
        0 <= q < w0.len() && !(f / 8 <= q < f / 8 + 512) ==> #[trigger] w1[q] == w0[q]
}

/// Write `data` into the frame at `f`, from byte `off` on.
pub fn write_frame(mem: &mut PhysMem, f: u64, off: usize, data: &[u8])
    requires
        f % 4096 == 0,
        f / 8 + 512 <= old(mem).words@.len(),
        off + data@.len() <= 4096,
    ensures
        final(mem).seats@ == old(mem).seats@,
        only_frame(old(mem).words@, final(mem).words@, f as int),
        forall|i: int|
            0 <= i < 4096 ==> #[trigger] elf::mem_byte(final(mem).words@, f + i) == (if off <= i
                < off + data@.len() {
                data@[i - off]
            } else {
                elf::mem_byte(old(mem).words@, f + i)
            }),
{
    let n: usize = data.len();
    let total: usize = mem.words.len();
    let base: usize = (f / 8) as usize;
    let mut k: usize = 0;
    while k < n
        invariant
            k <= n,
            n == data@.len(),
            off + n <= 4096,
            f % 4096 == 0,
            base == f / 8,
            total == mem.words@.len(),
            base + 512 <= total,
            mem.seats@ == old(mem).seats@,
            only_frame(old(mem).words@, mem.words@, f as int),
            forall|i: int|
                0 <= i < 4096 ==> #[trigger] elf::mem_byte(mem.words@, f + i) == (if off <= i < off
                    + k {
                    data@[i - off]
                } else {
                    elf::mem_byte(old(mem).words@, f + i)
                }),
        decreases n - k,
    {
        let ghost w0 = mem.words@;
        let at: usize = off + k;
        let slot: usize = base + at / 8;
        let w: u64 = with_byte(mem.words[slot], at % 8, data[k]);
        mem.words[slot] = w;
        proof {
            lemma_one_byte(w0, mem.words@, f as int, at as int, data@[k as int]);
        }
        k = k + 1;
    }
}

proof fn lemma_one_byte(w0: Seq<u64>, w1: Seq<u64>, f: int, at: int, b: u8)
    requires
        f % 4096 == 0,
        0 <= at < 4096,
        0 <= f,
        f / 8 + 512 <= w0.len(),
        w1 == w0.update(f / 8 + at / 8, w1[f / 8 + at / 8]),
        forall|j: int|
            0 <= j < 8 ==> #[trigger] bytes::le_byte(w1[f / 8 + at / 8] as int, j) == (if j == at
                % 8 {
                b
            } else {
                bytes::le_byte(w0[f / 8 + at / 8] as int, j)
            }),
    ensures
        forall|i: int|
            0 <= i < 4096 ==> #[trigger] elf::mem_byte(w1, f + i) == (if i == at {
                b
            } else {
                elf::mem_byte(w0, f + i)
            }),
{
    assert forall|i: int| 0 <= i < 4096 implies #[trigger] elf::mem_byte(w1, f + i) == (if i == at {
        b
    } else {
        elf::mem_byte(w0, f + i)
    }) by {
        assert((f + i) / 8 == f / 8 + i / 8);
        assert((f + i) % 8 == i % 8);
        if i / 8 == at / 8 {
            assert(bytes::le_byte(w1[f / 8 + at / 8] as int, i % 8) == (if i % 8 == at % 8 {
                b
            } else {
                bytes::le_byte(w0[f / 8 + at / 8] as int, i % 8)
            }));
        }
    }
}

/// Fill the frame at `f` with the byte `b`.
#[verifier::spinoff_prover]
#[verifier::rlimit(40)]
pub fn fill_frame(mem: &mut PhysMem, f: u64, b: u8)
    requires
        f % 4096 == 0,
        f / 8 + 512 <= old(mem).words@.len(),
    ensures
        final(mem).seats@ == old(mem).seats@,
        only_frame(old(mem).words@, final(mem).words@, f as int),
        forall|i: int| 0 <= i < 4096 ==> #[trigger] elf::mem_byte(final(mem).words@, f + i) == b,
{
    let base: usize = (f / 8) as usize;
    let total: usize = mem.words.len();
    let mut w: u64 = 0;
    let mut j: usize = 0;
    while j < 8
        invariant
            j <= 8,
            forall|x: int| 0 <= x < j ==> #[trigger] bytes::le_byte(w as int, x) == b,
        decreases 8 - j,
    {
        w = with_byte(w, j, b);
        j = j + 1;
    }
    let mut k: usize = 0;
    while k < 512
        invariant
            k <= 512,
            f % 4096 == 0,
            base == f / 8,
            total == mem.words@.len(),
            base + 512 <= total,
            mem.seats@ == old(mem).seats@,
            only_frame(old(mem).words@, mem.words@, f as int),
            forall|x: int| 0 <= x < 8 ==> #[trigger] bytes::le_byte(w as int, x) == b,
            forall|q: int| base <= q < base + k ==> #[trigger] mem.words@[q] == w,
        decreases 512 - k,
    {
        mem.words[base + k] = w;
        k = k + 1;
    }
    proof {
        assert forall|i: int| 0 <= i < 4096 implies #[trigger] elf::mem_byte(mem.words@, f + i)
            == b by {
            assert((f + i) / 8 == base + i / 8);
            assert((f + i) % 8 == i % 8);
            assert(mem.words@[base + i / 8] == w);
        }
    }
}

/// Where a program's code, data and stack pages go.
pub struct Window {
    pub code: u64,
    pub data: u64,
    pub stack: u64,
}

impl Window {
    /// Three different user pages, with code and data under one last-level table.
    pub open spec fn valid(&self) -> bool {
        &&& self.code % 4096 == 0
        &&& self.data % 4096 == 0
        &&& self.stack % 4096 == 0
        &&& self.code < USER_HALF_LIMIT
        &&& self.data < USER_HALF_LIMIT
        &&& self.stack < USER_HALF_LIMIT
        &&& self.code != self.data
        &&& self.code != self.stack
        &&& self.data != self.stack
        &&& self.code as int / 4096 / 512 == self.data as int / 4096 / 512
    }

    /// The three addresses, in the order they are mapped.
    pub open spec fn pages(&self) -> Seq<u64> {
        seq![self.code, self.data, self.stack]
    }

    /// The page number of the code, data or stack page.
    pub open spec fn page(&self, i: int) -> int {
        if i == 0 {
            self.code as int / 4096
        } else if i == 1 {
            self.data as int / 4096
        } else {
            self.stack as int / 4096
        }
    }
}

/// What is said when a window cannot be had.
pub struct Refusals {
    pub frames: &'static str,
    pub code: &'static str,
    pub data: &'static str,
    pub stack: &'static str,
}

/// The frame at `f` came out of the pool between `pre` and `post`, and no
/// table sits on it.
pub open spec fn fresh_page(pre: &FrameAllocator, m: &PhysMem, post: &FrameAllocator, f: int) -> bool {
    &&& f % 4096 == 0
    &&& 0 <= f < frames::PHYS_LIMIT
    &&& !pre.in_use(f)
    &&& post.in_use(f)
    &&& !m.seats@.dom().contains(f)
    &&& f / 8 + 512 <= m.words@.len()
}

/// Every frame that left the pool is one of `p` or carries a table of `root`.
pub open spec fn spent_on(
    f0: &FrameAllocator,
    m1: &PhysMem,
    f1: &FrameAllocator,
    root: int,
    p: [u64; 3],
) -> bool {
    forall|j: int|
        0 <= j < frames::FRAME_COUNT && #[trigger] frames::used(f1.map@, j) && !frames::used(
            f0.map@,
            j,
        ) ==> j == p@[0] as int / 4096 || j == p@[1] as int / 4096 || j == p@[2] as int / 4096 || (
        m1.seats@.dom().contains(j * 4096) && m1.seats@[j * 4096].owner == root)
}

/// The pages of `w` stand in `root` on the frames `p`: code to run, data and
/// stack to write, and nothing else changed.
pub open spec fn window_stands(
    m0: &PhysMem,
    f0: &FrameAllocator,
    m1: &PhysMem,
    f1: &FrameAllocator,
    root: int,
    w: &Window,
    p: [u64; 3],
) -> bool {
    &&& m1.wf(f1)
    &&& paging::tables_grown(m0, f0, m1)
    &&& paging::data_kept(m0, f0, m1)
    &&& paging::frames_spent(f0, f1, f0.available() - f1.available())
    &&& paging::new_tables_of(m0, m1, root)
    &&& fresh_page(f0, m1, f1, p@[0] as int)
    &&& fresh_page(f0, m1, f1, p@[1] as int)
    &&& fresh_page(f0, m1, f1, p@[2] as int)
    &&& p@[0] != p@[1]
    &&& p@[0] != p@[2]
    &&& p@[1] != p@[2]
    &&& paging::leaf(m1.words@, root, w.page(0)) == Some(paging::user_entry(p@[0], false, true))
    &&& paging::leaf(m1.words@, root, w.page(1)) == Some(paging::user_entry(p@[1], true, false))
    &&& paging::leaf(m1.words@, root, w.page(2)) == Some(paging::user_entry(p@[2], true, false))
    &&& leaves_but(m0, m1, root, w)
    &&& spent_on(f0, m1, f1, root, p)
}

/// Pages outside `w`, and pages of other owners, translate as before.
pub open spec fn leaves_but(m0: &PhysMem, m1: &PhysMem, root: int, w: &Window) -> bool {
    forall|r: int, x: int| #![trigger paging::leaf(m1.words@, r, x)]
        paging::is_root(m0.seats@, r) && 0 <= x < PAGES && !((x == w.page(0) || x == w.page(1) || x
            == w.page(2)) && paging::owner_of(m0.seats@[r], x) == root) ==> paging::leaf(
            m1.words@,
            r,
            x,
        ) == paging::leaf(m0.words@, r, x)
}

proof fn lemma_take(mem: &PhysMem, f0: &FrameAllocator, f1: &FrameAllocator, f: int)
    requires
        mem.wf(f0),
        f1.wf(),
        f1.same_pool(f0),
        frames::took(f0, f1, f),
    ensures
        mem.wf(f1),
        !mem.seats@.dom().contains(f),
        f / 8 + 512 <= mem.words@.len(),
        forall|j: int|
            0 <= j < frames::FRAME_COUNT && #[trigger] frames::used(
                f0.map@,
                j,
            ) ==> frames::used(f1.map@, j),
        forall|j: int|
            0 <= j < frames::FRAME_COUNT && #[trigger] frames::used(f1.map@, j) && !frames::used(
                f0.map@,
                j,
            ) ==> j == f / 4096,
{
    assert forall|j: int|
        0 <= j < frames::FRAME_COUNT && #[trigger] frames::used(
            f0.map@,
            j,
        ) implies frames::used(f1.map@, j) by {
        if j != f / 4096 {
            assert(frames::used(f1.map@, j) == frames::used(f0.map@, j));
        }
    }
    assert forall|j: int|
        0 <= j < frames::FRAME_COUNT && #[trigger] frames::used(f1.map@, j) && !frames::used(
            f0.map@,
            j,
        ) implies j == f / 4096 by {
        if j != f / 4096 {
            assert(frames::used(f1.map@, j) == frames::used(f0.map@, j));
        }
    }
    assert forall|t: int| #[trigger] mem.seats@.dom().contains(t) implies f1.in_use(t) by {
        assert(f0.in_use(t));
        assert(paging::is_table(mem.words@, mem.seats@, t));
        assert(frames::used(f0.map@, t / 4096));
    }
    assert forall|j: int|
        0 <= j < frames::FRAME_COUNT && !#[trigger] frames::used(f1.map@, j) implies (j + 1) * 512
        <= mem.words@.len() by {
        assert(!frames::used(f0.map@, j));
    }
    if mem.seats@.dom().contains(f) {
        assert(f0.in_use(f));
    }
    assert(!frames::used(f0.map@, f / 4096));
}

/// The first `n` pages of `w` are mapped in `root` on the frames `p`, which
/// were all in use at `f0`.
#[verifier::opaque]
pub open spec fn placed(
    m0: &PhysMem,
    f0: &FrameAllocator,
    m1: &PhysMem,
    f1: &FrameAllocator,
    root: int,
    w: &Window,
    p: [u64; 3],
    n: int,
) -> bool {
    &&& m1.wf(f1)
    &&& paging::tables_grown(m0, f0, m1)
    &&& paging::data_kept(m0, f0, m1)
    &&& paging::frames_spent(f0, f1, f0.available() - f1.available())
    &&& paging::grown_for(m0, f0, m1, f1, root)
    &&& forall|i: int| 0 <= i < n ==> stands_at(m1, root, w, p, i)
    &&& leaves_below(m0, m1, root, w, n)
}

/// Page `i` of `w` is mapped on frame `p[i]` with the access it is for.
pub open spec fn stands_at(m: &PhysMem, root: int, w: &Window, p: [u64; 3], i: int) -> bool {
    paging::leaf(m.words@, root, w.page(i)) == Some(paging::user_entry(p@[i], i != 0, i == 0))
}

/// Pages other than the first `n` of `w`, and pages of other owners,
/// translate as before.
pub open spec fn leaves_below(m0: &PhysMem, m1: &PhysMem, root: int, w: &Window, n: int) -> bool {
    forall|r: int, x: int| #![trigger paging::leaf(m1.words@, r, x)]
        paging::is_root(m0.seats@, r) && 0 <= x < PAGES && !((n > 0 && x == w.page(0) || n > 1 && x
            == w.page(1) || n > 2 && x == w.page(2)) && paging::owner_of(m0.seats@[r], x) == root)
            ==> paging::leaf(m1.words@, r, x) == paging::leaf(m0.words@, r, x)
}

/// The frames ran out under the window `w` of `root`: all of them are spent,
/// and only tables were added and pages of the window mapped.
pub open spec fn broken_off(
    m0: &PhysMem,
    f0: &FrameAllocator,
    m1: &PhysMem,
    f1: &FrameAllocator,
    root: int,
    w: &Window,
) -> bool {
    &&& paging::tables_grown(m0, f0, m1)
    &&& paging::data_kept(m0, f0, m1)
    &&& paging::frames_spent(f0, f1, f0.available())
    &&& leaves_below(m0, m1, root, w, 3)
}

proof fn lemma_placed_none(m0: &PhysMem, f0: &FrameAllocator, root: int, w: &Window, p: [u64; 3])
    requires
        m0.wf(f0),
    ensures
        placed(m0, f0, m0, f0, root, w, p, 0),
{
    reveal(placed);
    paging::lemma_grown_same(m0, f0, m0, root);
}

#[verifier::spinoff_prover]
proof fn lemma_placed_more(
    m0: &PhysMem,
    f0: &FrameAllocator,
    m1: &PhysMem,
    f1: &FrameAllocator,
    m2: &PhysMem,
    f2: &FrameAllocator,
    root: int,
    w: &Window,
    p: [u64; 3],
    n: int,
)
    requires
        m0.wf(f0),
        paging::is_root(m0.seats@, root),
        m0.seats@[root].owner == root,
        w.valid(),
        0 <= n < 3,
        placed(m0, f0, m1, f1, root, w, p, n),
        paging::user_refusal(((w.page(n)) * 4096) as u64, p@[n], n != 0, n == 0) is None,
        paging::grown_for(m1, f1, m2, f2, root),
        paging::mapped(
            m1,
            f1,
            m2,
            f2,
            root,
            w.page(n),
            paging::user_entry(p@[n], n != 0, n == 0),
        ),
    ensures
        placed(m0, f0, m2, f2, root, w, p, n + 1),
        f1.available() - f2.available() == paging::missing(m1.words@, root, w.page(n)),
        paging::missing(m2.words@, root, w.page(n)) == 0,
{
    reveal(placed);
    paging::lemma_grown_grown(m0, f0, m1, f1, m2, f2, root);
    paging::lemma_user_present(p@[n], n != 0, n == 0);
    assert forall|t: int| #[trigger] m2.seats@.dom().contains(t) implies m0.seats@.dom().contains(t)
        || !f0.in_use(t) && t % 4096 == 0 && 0 <= t < frames::PHYS_LIMIT by {
        if !m1.seats@.dom().contains(t) {
            if frames::used(f0.map@, t / 4096) {
                assert(frames::used(f1.map@, t / 4096));
            }
        }
    }
    assert forall|q: int| #![trigger m2.words@[q]]
        0 <= q < m0.words@.len() && frames::used(f0.map@, q / 512) && !m0.seats@.dom().contains(
            q / 512 * 4096,
        ) && q / 512 < frames::FRAME_COUNT implies m2.words@[q] == m0.words@[q] by {
        assert(frames::used(f1.map@, q / 512));
        assert((q / 512 * 4096) / 4096 == q / 512);
        if m1.seats@.dom().contains(q / 512 * 4096) {
            assert(m0.seats@.dom().contains(q / 512 * 4096) || !f0.in_use(q / 512 * 4096));
        }
        assert(m1.words@[q] == m0.words@[q]);
    }
    assert forall|j: int|
        0 <= j < frames::FRAME_COUNT && #[trigger] frames::used(
            f0.map@,
            j,
        ) implies frames::used(f2.map@, j) by {
        assert(frames::used(f1.map@, j));
    }
    assert(m1.seats@.dom().contains(root) && m1.seats@[root] == m0.seats@[root]);
    assert(paging::is_table(m0.words@, m0.seats@, root));
    assert forall|i: int| 0 <= i < n + 1 implies stands_at(m2, root, w, p, i) by {
        if i < n {
            assert(stands_at(m1, root, w, p, i));
            assert(w.page(i) != w.page(n));
            assert(paging::leaf(m2.words@, root, w.page(i)) == paging::leaf(
                m1.words@,
                root,
                w.page(i),
            ));
        }
    }
    assert forall|r: int, x: int| #![trigger paging::leaf(m2.words@, r, x)]
        paging::is_root(m0.seats@, r) && 0 <= x < PAGES && !((n + 1 > 0 && x == w.page(0) || n + 1
            > 1 && x == w.page(1) || n + 1 > 2 && x == w.page(2)) && paging::owner_of(
            m0.seats@[r],
            x,
        ) == root) implies paging::leaf(m2.words@, r, x) == paging::leaf(m0.words@, r, x) by {
        assert(m1.seats@.dom().contains(r) && m1.seats@[r] == m0.seats@[r]);
        assert(paging::leaf(m1.words@, r, x) == paging::leaf(m0.words@, r, x));
    }
}

/// The frames `p` came out of the pool, and no others.
#[verifier::opaque]
pub open spec fn three_taken(
    m0: &PhysMem,
    f0: &FrameAllocator,
    fb: &FrameAllocator,
    p: [u64; 3],
) -> bool {
    &&& fb.same_pool(f0)
    &&& f0.available() - fb.available() == f0.free - fb.free
    &&& p@[0] != p@[1]
    &&& p@[0] != p@[2]
    &&& p@[1] != p@[2]
    &&& forall|i: int| 0 <= i < 3 ==> fresh_page(f0, m0, fb, #[trigger] p@[i] as int)
    &&& forall|j: int|
        0 <= j < frames::FRAME_COUNT && #[trigger] frames::used(f0.map@, j) ==> frames::used(
            fb.map@,
            j,
        )
    &&& forall|j: int|
        0 <= j < frames::FRAME_COUNT && #[trigger] frames::used(fb.map@, j) && !frames::used(
            f0.map@,
            j,
        ) ==> j == p@[0] as int / 4096 || j == p@[1] as int / 4096 || j == p@[2] as int / 4096
}

proof fn lemma_window_stands(
    m0: &PhysMem,
    f0: &FrameAllocator,
    fb: &FrameAllocator,
    m1: &PhysMem,
    f1: &FrameAllocator,
    root: int,
    w: &Window,
    p: [u64; 3],
)
    requires
        placed(m0, fb, m1, f1, root, w, p, 3),
        m0.wf(f0),
        three_taken(m0, f0, fb, p),
    ensures
        window_stands(m0, f0, m1, f1, root, w, p),
{
    reveal(placed);
    reveal(three_taken);
    assert(stands_at(m1, root, w, p, 0));
    assert(stands_at(m1, root, w, p, 1));
    assert(stands_at(m1, root, w, p, 2));
    paging::lemma_grown_tables(m0, fb, m1, f1, root);
    assert forall|j: int|
        0 <= j < frames::FRAME_COUNT && #[trigger] frames::used(f1.map@, j) && !frames::used(
            f0.map@,
            j,
        ) implies j == p@[0] as int / 4096 || j == p@[1] as int / 4096 || j == p@[2] as int / 4096
        || (m1.seats@.dom().contains(j * 4096) && m1.seats@[j * 4096].owner == root) by {
        if !frames::used(fb.map@, j) {
            reveal(paging::grown_for);
            assert(m1.seats@.dom().contains(j * 4096));
            if m0.seats@.dom().contains(j * 4096) {
                assert(f0.in_use(j * 4096));
            }
        }
    }
    assert forall|j: int|
        0 <= j < frames::FRAME_COUNT && #[trigger] frames::used(
            f0.map@,
            j,
        ) implies frames::used(f1.map@, j) by {
        assert(frames::used(fb.map@, j));
    }
    assert forall|i: int| 0 <= i < 3 implies fresh_page(f0, m1, f1, #[trigger] p@[i] as int) by {
        let f = p@[i] as int;
        assert(fresh_page(f0, m0, fb, f));
        assert(frames::used(fb.map@, f / 4096));
        if m1.seats@.dom().contains(f) {
            assert(m0.seats@.dom().contains(f) || !fb.in_use(f));
        }
    }
    assert(fresh_page(f0, m1, f1, p@[0] as int));
    assert(fresh_page(f0, m1, f1, p@[1] as int));
    assert(fresh_page(f0, m1, f1, p@[2] as int));
    assert forall|t: int| #[trigger] m1.seats@.dom().contains(t) implies m0.seats@.dom().contains(t)
        || !f0.in_use(t) && t % 4096 == 0 && 0 <= t < frames::PHYS_LIMIT by {
        if !m0.seats@.dom().contains(t) {
            if frames::used(f0.map@, t / 4096) {
                assert(frames::used(fb.map@, t / 4096));
            }
        }
    }
    assert forall|q: int| #![trigger m1.words@[q]]
        0 <= q < m0.words@.len() && frames::used(f0.map@, q / 512) && !m0.seats@.dom().contains(
            q / 512 * 4096,
        ) && q / 512 < frames::FRAME_COUNT implies m1.words@[q] == m0.words@[q] by {
        assert(frames::used(fb.map@, q / 512));
    }
}

/// What is left in the pool when the stack page's turn comes, and how many
/// tables it still misses then.
pub open spec fn stack_turn(
    m0: &PhysMem,
    f0: &FrameAllocator,
    root: int,
    w: &Window,
    left: int,
    need: int,
) -> bool {
    exists|fb: FrameAllocator, m: PhysMem, f: FrameAllocator, p: [u64; 3]|
        {
            &&& #[trigger] placed(m0, &fb, &m, &f, root, w, p, 2)
            &&& fb.same_pool(f0)
            &&& fb.available() == f0.available() - 3
            &&& left == f0.available() - 3 - paging::missing(m0.words@, root, w.page(0))
            &&& left == f.available()
            &&& need == paging::missing(m.words@, root, w.page(2))
        }
}

/// Take three frames.
#[verifier::spinoff_prover]
#[verifier::rlimit(40)]
fn take_three(mem: &PhysMem, fa: &mut FrameAllocator) -> (r: Option<[u64; 3]>)
    requires
        mem.wf(old(fa)),
        old(fa).ready,
    ensures
        mem.wf(final(fa)),
        final(fa).same_pool(old(fa)),
        r is None <==> old(fa).available() < 3,
        paging::frames_spent(old(fa), final(fa), old(fa).available() - final(fa).available()),
        r is None ==> final(fa).available() == 0,
        r matches Some(p) ==> {
            &&& three_taken(mem, old(fa), final(fa), p)
            &&& final(fa).available() == old(fa).available() - 3
            &&& p@[0] % 4096 == 0
            &&& p@[1] % 4096 == 0
            &&& p@[2] % 4096 == 0
        },
{
    let ghost f0 = *fa;
    proof {
        frames::lemma_free_bounds(f0.map@, frames::FRAME_COUNT as int);
    }
    let mut p: [u64; 3] = [0, 0, 0];
    p[0] = match frames::alloc_frame(fa) {
        Some(f) => f,
        None => {
            return None;
        },
    };
    let ghost f1 = *fa;
    proof {
        lemma_take(mem, &f0, &f1, p@[0] as int);
    }
    p[1] = match frames::alloc_frame(fa) {
        Some(f) => f,
        None => {
            return None;
        },
    };
    let ghost f2 = *fa;
    proof {
        lemma_take(mem, &f1, &f2, p@[1] as int);
    }
    p[2] = match frames::alloc_frame(fa) {
        Some(f) => f,
        None => {
            return None;
        },
    };
    let ghost fb = *fa;
    proof {
        lemma_take(mem, &f2, &fb, p@[2] as int);
        frames::lemma_free_bounds(fb.map@, frames::FRAME_COUNT as int);
        assert(frames::used(f1.map@, p@[0] as int / 4096));
        assert(frames::used(f2.map@, p@[0] as int / 4096));
        assert(frames::used(f2.map@, p@[1] as int / 4096));
        assert(!frames::used(f1.map@, p@[1] as int / 4096));
        assert(!frames::used(f2.map@, p@[2] as int / 4096));
        assert forall|i: int| 0 <= i < 3 implies fresh_page(&f0, mem, &fb, #[trigger] p@[i] as int) by {
            let j = p@[i] as int / 4096;
            if i == 1 && frames::used(f0.map@, j) {
                assert(frames::used(f1.map@, j));
            }
            if i == 2 && frames::used(f0.map@, j) {
                assert(frames::used(f1.map@, j));
                assert(frames::used(f2.map@, j));
            }
            assert(frames::used(fb.map@, j));
        }
        assert forall|j: int|
            0 <= j < frames::FRAME_COUNT && #[trigger] frames::used(
                f0.map@,
                j,
            ) implies frames::used(fb.map@, j) by {
            assert(frames::used(f1.map@, j));
            assert(frames::used(f2.map@, j));
        }
        assert forall|j: int|
            0 <= j < frames::FRAME_COUNT && #[trigger] frames::used(fb.map@, j) && !frames::used(
                f0.map@,
                j,
            ) implies j == p@[0] as int / 4096 || j == p@[1] as int / 4096 || j == p@[2] as int
            / 4096 by {
            if frames::used(f2.map@, j) {
                if frames::used(f1.map@, j) {
                }
            }
        }
        reveal(three_taken);
        assert(fresh_page(&f0, mem, &fb, p@[0] as int));
        assert(fresh_page(&f0, mem, &fb, p@[1] as int));
        assert(fresh_page(&f0, mem, &fb, p@[2] as int));
    }
    Some(p)
}

/// Map page `n` of `w`, after the first `n`.
#[verifier::spinoff_prover]
#[verifier::rlimit(40)]
fn map_nth(
    mem: &mut PhysMem,
    fa: &mut FrameAllocator,
    root: u64,
    w: &Window,
    p: [u64; 3],
    n: usize,
    va: u64,
    Ghost(m0): Ghost<PhysMem>,
    Ghost(fb): Ghost<FrameAllocator>,
) -> (r: bool)
    requires
        m0.wf(&fb),
        fb.ready,
        paging::is_root(m0.seats@, root as int),
        m0.seats@[root as int].owner == root,
        w.valid(),
        n < 3,
        p@[n as int] % 4096 == 0,
        va % 4096 == 0,
        va < USER_HALF_LIMIT,
        va as int / 4096 == w.page(n as int),
        placed(&m0, &fb, old(mem), old(fa), root as int, w, p, n as int),
    ensures
        final(mem).wf(final(fa)),
        final(fa).same_pool(&fb),
        r == (paging::missing(old(mem).words@, root as int, w.page(n as int)) <= old(
            fa,
        ).available()),
        r ==> placed(&m0, &fb, final(mem), final(fa), root as int, w, p, n + 1),
        r ==> old(fa).available() - final(fa).available() == paging::missing(
            old(mem).words@,
            root as int,
            w.page(n as int),
        ),
        r ==> paging::missing(final(mem).words@, root as int, w.page(n as int)) == 0,
        !r ==> broken_off(&m0, &fb, final(mem), final(fa), root as int, w),
{
    let ghost m1 = *mem;
    let ghost f1 = *fa;
    proof {
        reveal(placed);
        assert(m1.seats@.dom().contains(root as int));
        assert(m1.seats@[root as int] == m0.seats@[root as int]);
        assert(paging::page_no(va as int) == w.page(n as int));
        assert(w.page(n as int) * 4096 == va);
        frames::lemma_free_bounds(f1.map@, frames::FRAME_COUNT as int);
    }
    let ok: bool = paging::map_user_page_4k(mem, fa, root, va, p[n], n != 0, n == 0).is_ok();
    proof {
        if ok {
            lemma_placed_more(&m0, &fb, &m1, &f1, mem, fa, root as int, w, p, n as int);
            reveal(placed);
        } else {
            paging::lemma_kept_kept(&m0, &fb, &m1, &f1, mem, fa);
            assert forall|r: int, x: int| #![trigger paging::leaf(mem.words@, r, x)]
                paging::is_root(m0.seats@, r) && 0 <= x < PAGES && !((x == w.page(0) || x == w.page(
                    1,
                ) || x == w.page(2)) && paging::owner_of(m0.seats@[r], x) == root) implies paging::leaf(
                mem.words@,
                r,
                x,
            ) == paging::leaf(m0.words@, r, x) by {
                assert(m1.seats@.dom().contains(r) && m1.seats@[r] == m0.seats@[r]);
                assert(paging::leaf(mem.words@, r, x) == paging::leaf(m1.words@, r, x));
                assert(paging::leaf(m1.words@, r, x) == paging::leaf(m0.words@, r, x));
            }
        }
    }
    ok
}

/// What comes of asking for the window `w`: three frames first, then the
/// tables that the code page misses, then those that the stack page misses.
pub open spec fn window_answer(
    m0: &PhysMem,
    f0: &FrameAllocator,
    f1: &FrameAllocator,
    root: int,
    w: &Window,
    say: &Refusals,
    r: Result<[u64; 3], &'static str>,
) -> bool {
    let n = f0.available();
    let need = paging::missing(m0.words@, root, w.page(0));
    if n < 3 {
        r == Err::<[u64; 3], &'static str>(say.frames)
    } else if n < 3 + need {
        r == Err::<[u64; 3], &'static str>(say.code)
    } else if w.page(2) / 512 == w.page(0) / 512 {
        r is Ok && f1.available() == n - 3 - need
    } else {
        exists|left: int, more: int|
            {
                &&& #[trigger] stack_turn(m0, f0, root, w, left, more)
                &&& if left < more {
                    r == Err::<[u64; 3], &'static str>(say.stack)
                } else {
                    r is Ok && f1.available() == left - more
                }
            }
    }
}

/// The frames that the window took count as spent too.
proof fn lemma_broken_off(
    m0: &PhysMem,
    f0: &FrameAllocator,
    fb: &FrameAllocator,
    m1: &PhysMem,
    f1: &FrameAllocator,
    root: int,
    w: &Window,
)
    requires
        m0.wf(f0),
        paging::frames_spent(f0, fb, f0.available() - fb.available()),
        broken_off(m0, fb, m1, f1, root, w),
    ensures
        broken_off(m0, f0, m1, f1, root, w),
{
    assert forall|k: int| #![trigger m1.words@[k]]
        0 <= k < m0.words@.len() && frames::used(f0.map@, k / 512) && !m0.seats@.dom().contains(
            k / 512 * 4096,
        ) && k / 512 < frames::FRAME_COUNT implies m1.words@[k] == m0.words@[k] by {
        assert(frames::used(fb.map@, k / 512));
    }
    assert forall|t: int| #[trigger] m1.seats@.dom().contains(t) implies m0.seats@.dom().contains(t)
        || !f0.in_use(t) && t % 4096 == 0 && 0 <= t < frames::PHYS_LIMIT by {
        if !m0.seats@.dom().contains(t) && frames::used(f0.map@, t / 4096) {
            assert(frames::used(fb.map@, t / 4096));
        }
    }
    assert forall|j: int|
        0 <= j < frames::FRAME_COUNT && #[trigger] frames::used(f0.map@, j) implies frames::used(
        f1.map@,
        j,
    ) by {
        assert(frames::used(fb.map@, j));
    }
}

/// Take three frames and map them in `root` as the pages of `w`.  The kernel
/// stops on an error.
#[verifier::spinoff_prover]
#[verifier::rlimit(40)]
pub fn map_window(
    mem: &mut PhysMem,
    fa: &mut FrameAllocator,
    root: u64,
    w: &Window,
    say: &Refusals,
) -> (r: Result<[u64; 3], &'static str>)
    requires
        old(mem).wf(old(fa)),
        old(fa).ready,
        paging::is_root(old(mem).seats@, root as int),
        w.valid(),
    ensures
        final(fa).same_pool(old(fa)),
        final(mem).wf(final(fa)),
        window_answer(old(mem), old(fa), final(fa), root as int, w, say, r),
        r matches Ok(p) ==> window_stands(
            old(mem),
            old(fa),
            final(mem),
            final(fa),
            root as int,
            w,
            p,
        ),
        r is Err ==> broken_off(old(mem), old(fa), final(mem), final(fa), root as int, w),
{
    let ghost m0 = *mem;
    let ghost f0 = *fa;
    let ghost rt = root as int;
    proof {
        assert(paging::is_table(m0.words@, m0.seats@, rt));
        frames::lemma_free_bounds(f0.map@, frames::FRAME_COUNT as int);
    }
    let p: [u64; 3] = match take_three(mem, fa) {
        Some(p) => p,
        None => {
            return Err(say.frames);
        },
    };
    let ghost fb = *fa;
    proof {
        lemma_placed_none(&m0, &fb, rt, w, p);
    }
    if !map_nth(mem, fa, root, w, p, 0, w.code, Ghost(m0), Ghost(fb)) {
        proof {
            lemma_broken_off(&m0, &f0, &fb, mem, fa, rt, w);
        }
        return Err(say.code);
    }
    proof {
        crate::accounts::lemma_same_table(mem.words@, rt, w.page(0), w.page(1));
    }
    if !map_nth(mem, fa, root, w, p, 1, w.data, Ghost(m0), Ghost(fb)) {
        proof {
            lemma_broken_off(&m0, &f0, &fb, mem, fa, rt, w);
        }
        return Err(say.data);
    }
    proof {
        assert(placed(&m0, &fb, mem, fa, rt, w, p, 2));
        assert(stack_turn(
            &m0,
            &f0,
            rt,
            w,
            fa.available(),
            paging::missing(mem.words@, rt, w.page(2)),
        ));
        if w.page(2) / 512 == w.page(0) / 512 {
            crate::accounts::lemma_same_table(mem.words@, rt, w.page(1), w.page(2));
        }
    }
    if !map_nth(mem, fa, root, w, p, 2, w.stack, Ghost(m0), Ghost(fb)) {
        proof {
            lemma_broken_off(&m0, &f0, &fb, mem, fa, rt, w);
        }
        return Err(say.stack);
    }
    proof {
        lemma_window_stands(&m0, &f0, &fb, mem, fa, rt, w, p);
    }
    Ok(p)
}

/// Writing to a page of the window leaves it standing.
#[verifier::spinoff_prover]
proof fn lemma_written(
    m0: &PhysMem,
    f0: &FrameAllocator,
    m1: &PhysMem,
    m2: &PhysMem,
    f1: &FrameAllocator,
    root: int,
    w: &Window,
    p: [u64; 3],
    i: int,
)
    requires
        m0.wf(f0),
        paging::is_root(m0.seats@, root),
        w.valid(),
        0 <= i < 3,
        window_stands(m0, f0, m1, f1, root, w, p),
        m2.seats@ == m1.seats@,
        only_frame(m1.words@, m2.words@, p@[i] as int),
    ensures
        window_stands(m0, f0, m2, f1, root, w, p),
{
    let f = p@[i] as int;
    assert(fresh_page(f0, m1, f1, f));
    assert(m1.seats@.dom().contains(root) && m1.seats@[root] == m0.seats@[root]);
    paging::lemma_apart(m1.words@, m2.words@, m1.seats@, f);
    assert(w.page(0) < USER_PAGES && w.page(1) < USER_PAGES && w.page(2) < USER_PAGES);
    assert(paging::leaf(m2.words@, root, w.page(0)) == paging::leaf(m1.words@, root, w.page(0)));
    assert(paging::leaf(m2.words@, root, w.page(1)) == paging::leaf(m1.words@, root, w.page(1)));
    assert(paging::leaf(m2.words@, root, w.page(2)) == paging::leaf(m1.words@, root, w.page(2)));
    assert forall|r: int, x: int| #![trigger paging::leaf(m2.words@, r, x)]
        paging::is_root(m0.seats@, r) && 0 <= x < PAGES && !((x == w.page(0) || x == w.page(1) || x
            == w.page(2)) && paging::owner_of(m0.seats@[r], x) == root) implies paging::leaf(
        m2.words@,
        r,
        x,
    ) == paging::leaf(m0.words@, r, x) by {
        assert(m1.seats@.dom().contains(r) && m1.seats@[r] == m0.seats@[r]);
        assert(paging::leaf(m1.words@, r, x) == paging::leaf(m0.words@, r, x));
    }
    assert forall|q: int| #![trigger m2.words@[q]]
        0 <= q < m0.words@.len() && frames::used(f0.map@, q / 512) && !m0.seats@.dom().contains(
            q / 512 * 4096,
        ) && q / 512 < frames::FRAME_COUNT implies m2.words@[q] == m0.words@[q] by {
        if f / 8 <= q < f / 8 + 512 {
            assert(q / 512 == f / 4096);
        }
        assert(m1.words@[q] == m0.words@[q]);
    }
}

/// Byte `i` of a page that holds `code` from its start and `msg` at `off`.
pub open spec fn code_page_byte(code: Seq<u8>, off: int, msg: Seq<u8>, i: int) -> Option<u8> {
    if off <= i < off + msg.len() {
        Some(msg[i - off])
    } else if 0 <= i < code.len() {
        Some(code[i])
    } else {
        None
    }
}

/// The frame at `f` holds `code` and `msg`.
pub open spec fn code_written(words: Seq<u64>, f: int, code: Seq<u8>, off: int, msg: Seq<u8>) -> bool {
    forall|i: int|
        0 <= i < 4096 ==> (code_page_byte(code, off, msg, i) matches Some(b) ==> #[trigger] elf::mem_byte(
            words,
            f + i,
        ) == b)
}

/// Every byte of the frame at `f` is zero.
pub open spec fn zeroed(words: Seq<u64>, f: int) -> bool {
    forall|i: int| 0 <= i < 4096 ==> #[trigger] elf::mem_byte(words, f + i) == 0
}

proof fn lemma_byte_apart(w0: Seq<u64>, w1: Seq<u64>, f: int, g: int)
    requires
        only_frame(w0, w1, f),
        f % 4096 == 0,
        g % 4096 == 0,
        0 <= f,
        0 <= g,
        f != g,
        g / 8 + 512 <= w0.len(),
    ensures
        forall|i: int|
            0 <= i < 4096 ==> #[trigger] elf::mem_byte(w1, g + i) == elf::mem_byte(w0, g + i),
{
    assert forall|i: int| 0 <= i < 4096 implies #[trigger] elf::mem_byte(w1, g + i)
        == elf::mem_byte(w0, g + i) by {
        assert((g + i) / 8 == g / 8 + i / 8);
    }
}

/// The contents of a window: program and message in the code page, zeroes in
/// the data page and, if asked, in the stack page.
pub open spec fn loaded(
    words: Seq<u64>,
    p: [u64; 3],
    code: Seq<u8>,
    off: int,
    msg: Seq<u8>,
    stack: bool,
) -> bool {
    &&& code_written(words, p@[0] as int, code, off, msg)
    &&& zeroed(words, p@[1] as int)
    &&& stack ==> zeroed(words, p@[2] as int)
}

/// Write the program, the message and the zeroes into a window's frames.
#[verifier::spinoff_prover]
fn fill_window(
    mem: &mut PhysMem,
    p: [u64; 3],
    code: &[u8],
    off: usize,
    msg: &[u8],
    stack: bool,
    Ghost(m0): Ghost<PhysMem>,
    Ghost(f0): Ghost<FrameAllocator>,
    Ghost(f1): Ghost<FrameAllocator>,
    Ghost(root): Ghost<int>,
    w: &Window,
)
    requires
        m0.wf(&f0),
        paging::is_root(m0.seats@, root),
        w.valid(),
        window_stands(&m0, &f0, old(mem), &f1, root, w, p),
        code@.len() <= 4096,
        off + msg@.len() <= 4096,
    ensures
        window_stands(&m0, &f0, final(mem), &f1, root, w, p),
        loaded(final(mem).words@, p, code@, off as int, msg@, stack),
{
    let ghost w0 = *mem;
    write_frame(mem, p[0], 0, code);
    proof {
        lemma_written(&m0, &f0, &w0, mem, &f1, root, w, p, 0);
    }
    let ghost w1 = *mem;
    write_frame(mem, p[0], off, msg);
    proof {
        lemma_written(&m0, &f0, &w1, mem, &f1, root, w, p, 0);
        assert(code_written(mem.words@, p@[0] as int, code@, off as int, msg@));
    }
    let ghost w2 = *mem;
    fill_frame(mem, p[1], 0);
    proof {
        lemma_written(&m0, &f0, &w2, mem, &f1, root, w, p, 1);
        lemma_byte_apart(w2.words@, mem.words@, p@[1] as int, p@[0] as int);
        assert(code_written(mem.words@, p@[0] as int, code@, off as int, msg@));
    }
    let ghost w3 = *mem;
    if stack {
        fill_frame(mem, p[2], 0);
        proof {
            lemma_written(&m0, &f0, &w3, mem, &f1, root, w, p, 2);
            lemma_byte_apart(w3.words@, mem.words@, p@[2] as int, p@[0] as int);
            lemma_byte_apart(w3.words@, mem.words@, p@[2] as int, p@[1] as int);
            assert(code_written(mem.words@, p@[0] as int, code@, off as int, msg@));
        }
    }
}

/// A program that stands in its window is what the address space shows at its
/// code address, message included.
#[verifier::spinoff_prover]
#[verifier::rlimit(40)]
pub proof fn law_window_shows_code(
    m0: PhysMem,
    f0: FrameAllocator,
    m1: PhysMem,
    f1: FrameAllocator,
    root: int,
    w: Window,
    p: [u64; 3],
    code: Seq<u8>,
    off: int,
    msg: Seq<u8>,
    stack: bool,
    i: int,
)
    requires
        w.valid(),
        window_stands(&m0, &f0, &m1, &f1, root, &w, p),
        loaded(m1.words@, p, code, off, msg, stack),
        0 <= i < 4096,
    ensures
        code_page_byte(code, off, msg, i) matches Some(b) ==> seen(
            m1.words@,
            root,
            w.code + i,
        ) == Some(b),
        seen(m1.words@, root, w.data + i) == Some(0u8),
{
    lemma_stands_seen(m1, root, w.code as int, p@[0], false, true, i);
    lemma_stands_seen(m1, root, w.data as int, p@[1], true, false, i);
    assert(elf::mem_byte(m1.words@, p@[1] + i) == 0);
    if let Some(b) = code_page_byte(code, off, msg, i) {
        assert(elf::mem_byte(m1.words@, p@[0] + i) == b);
    }
}

pub proof fn lemma_stands_seen(m: PhysMem, root: int, va: int, f: u64, write: bool, exec: bool, i: int)
    requires
        va % 4096 == 0,
        f % 4096 == 0,
        f < frames::PHYS_LIMIT,
        f as int / 8 + 512 <= m.words@.len(),
        !(write && exec),
        0 <= i < 4096,
        paging::leaf(m.words@, root, va / 4096) == Some(paging::user_entry(f, write, exec)),
    ensures
        seen(m.words@, root, va + i) == Some(elf::mem_byte(m.words@, f + i)),
{
    paging::lemma_user_entry(f);
    assert((va + i) / 4096 == va / 4096);
    assert((va + i) % 4096 == i);
    assert(paging::addr(paging::user_entry(f, write, exec)) == f);
}

/// Nothing of the kernel but memory and the pool changed.
pub open spec fn same_but_memory(pre: &Kernel, post: &Kernel) -> bool {
    &&& post.procs == pre.procs
    &&& post.pg.kernel_root == pre.pg.kernel_root
    &&& post.pg.live_root == pre.pg.live_root
    &&& post.pg.apic_base == pre.pg.apic_base
    &&& post.pg.skipped_high == pre.pg.skipped_high
}

/// A window was asked for in `root`, and loaded if it could be had.
pub open spec fn set_up(
    pre: &Kernel,
    post: &Kernel,
    root: int,
    w: &Window,
    say: &Refusals,
    code: Seq<u8>,
    off: int,
    msg: Seq<u8>,
    stack: bool,
    r: Result<[u64; 3], &'static str>,
) -> bool {
    &&& same_but_memory(pre, post)
    &&& window_answer(&pre.pg.mem, &pre.fa, &post.fa, root, w, say, r)
    &&& r matches Ok(p) ==> {
        &&& window_stands(&pre.pg.mem, &pre.fa, &post.pg.mem, &post.fa, root, w, p)
        &&& loaded(post.pg.mem.words@, p, code, off, msg, stack)
    }
    &&& r is Err ==> broken_off(&pre.pg.mem, &pre.fa, &post.pg.mem, &post.fa, root, w)
}

/// Map a window in `root` and load it.  The kernel stops on an error.
fn open_window(
    k: &mut Kernel,
    root: u64,
    w: &Window,
    say: &Refusals,
    code: &[u8],
    off: usize,
    msg: &[u8],
    stack: bool,
) -> (r: Result<[u64; 3], &'static str>)
    requires
        old(k).wf(),
        paging::is_root(old(k).pg.mem.seats@, root as int),
        w.valid(),
        code@.len() <= 4096,
        off + msg@.len() <= 4096,
    ensures
        final(k).wf(),
        set_up(old(k), final(k), root as int, w, say, code@, off as int, msg@, stack, r),
{
    let ghost k0 = *k;
    let r = map_window(&mut k.pg.mem, &mut k.fa, root, w, say);
    if let Ok(p) = r {
        fill_window(
            &mut k.pg.mem,
            p,
            code,
            off,
            msg,
            stack,
            Ghost(k0.pg.mem),
            Ghost(k0.fa),
            Ghost(k.fa),
            Ghost(root as int),
            w,
        );
    }
    proof {
        proc::lemma_grown_kernel(&k0, k);
    }
    r
}

/// The window of the ring 3 programs of the third stage.
#[verifier::allow_in_spec]
pub fn u3_window() -> Window
    returns
        (Window { code: U3_CODE_VA, data: U3_DATA_VA, stack: U3_STACK_VA }),
{
    Window { code: U3_CODE_VA, data: U3_DATA_VA, stack: U3_STACK_VA }
}

#[verifier::allow_in_spec]
pub fn u3_refusals() -> Refusals
    returns
        (Refusals {
            frames: "frame exhaustion for user pages",
            code: "user code page map failed",
            data: "user data page map failed",
            stack: "user stack page map failed",
        }),
{
    Refusals {
        frames: "frame exhaustion for user pages",
        code: "user code page map failed",
        data: "user data page map failed",
        stack: "user stack page map failed",
    }
}

/// Set up a ring 3 program in the address space `root_phys`, with a message
/// at `msg_off` of its code page.  Returns its frames and what is left in the
/// pool.
pub fn u3_setup_in(
    k: &mut Kernel,
    root_phys: u64,
    payload: &[u8],
    msg_off: usize,
    msg: &[u8],
) -> (r: Result<([u64; 3], u64), &'static str>)
    requires
        old(k).wf(),
        paging::is_root(old(k).pg.mem.seats@, root_phys as int),
        payload@.len() <= 4096,
        msg_off + msg@.len() <= 4096,
    ensures
        final(k).wf(),
        set_up(
            old(k),
            final(k),
            root_phys as int,
            &u3_window(),
            &u3_refusals(),
            payload@,
            msg_off as int,
            msg@,
            false,
            frames_of(r),
        ),
        r matches Ok((_, n)) ==> n == final(k).fa.free,
{
    match open_window(k, root_phys, &u3_window(), &u3_refusals(), payload, msg_off, msg, false) {
        Ok(p) => Ok((p, frames::free_frames(&k.fa))),
        Err(e) => Err(e),
    }
}

/// The frames out of a setup's answer.
pub open spec fn frames_of(r: Result<([u64; 3], u64), &'static str>) -> Result<
    [u64; 3],
    &'static str,
> {
    match r {
        Ok((p, _)) => Ok(p),
        Err(e) => Err(e),
    }
}

/// Set up a ring 3 program in the kernel's own view.
pub fn u3_setup(k: &mut Kernel, payload: &[u8], msg_off: usize, msg: &[u8]) -> (r: Result<
    ([u64; 3], u64),
    &'static str,
>)
    requires
        old(k).wf(),
        payload@.len() <= 4096,
        msg_off + msg@.len() <= 4096,
    ensures
        final(k).wf(),
        set_up(
            old(k),
            final(k),
            old(k).pg.kernel_root as int,
            &u3_window(),
            &u3_refusals(),
            payload@,
            msg_off as int,
            msg@,
            false,
            frames_of(r),
        ),
        r matches Ok((_, n)) ==> n == final(k).fa.free,
{
    let root: u64 = k.pg.kernel_root;
    u3_setup_in(k, root, payload, msg_off, msg)
}

/// The window of the system call programs.
#[verifier::allow_in_spec]
pub fn m4_window() -> Window
    returns
        (Window { code: M4_CODE_VA, data: M4_DATA_VA, stack: M4_STACK_VA }),
{
    Window { code: M4_CODE_VA, data: M4_DATA_VA, stack: M4_STACK_VA }
}

#[verifier::allow_in_spec]
pub fn m4_refusals() -> Refusals
    returns
        (Refusals {
            frames: "frame exhaustion for m4 user pages",
            code: "m4 code page map failed",
            data: "m4 data page map failed",
            stack: "m4 stack page map failed",
        }),
{
    Refusals {
        frames: "frame exhaustion for m4 user pages",
        code: "m4 code page map failed",
        data: "m4 data page map failed",
        stack: "m4 stack page map failed",
    }
}

/// Set up a system call program in the kernel's own view.
pub fn m4_setup(k: &mut Kernel, payload: &[u8], msg_off: usize, msg: &[u8]) -> (r: Result<
    ([u64; 3], u64),
    &'static str,
>)
    requires
        old(k).wf(),
        payload@.len() <= 4096,
        msg_off + msg@.len() <= 4096,
    ensures
        final(k).wf(),
        set_up(
            old(k),
            final(k),
            old(k).pg.kernel_root as int,
            &m4_window(),
            &m4_refusals(),
            payload@,
            msg_off as int,
            msg@,
            false,
            frames_of(r),
        ),
        r matches Ok((_, n)) ==> n == final(k).fa.free,
{
    let root: u64 = k.pg.kernel_root;
    match open_window(k, root, &m4_window(), &m4_refusals(), payload, msg_off, msg, false) {
        Ok(p) => Ok((p, frames::free_frames(&k.fa))),
        Err(e) => Err(e),
    }
}

/// The window of the message passing programs.
#[verifier::allow_in_spec]
pub fn ipc_window() -> Window
    returns
        (Window { code: I_CODE, data: I_DATA, stack: I_STACK }),
{
    Window { code: I_CODE, data: I_DATA, stack: I_STACK }
}

#[verifier::allow_in_spec]
pub fn ipc_refusals() -> Refusals
    returns
        (Refusals {
            frames: "frame exhaustion for the ipc window",
            code: "ipc code page map failed",
            data: "ipc data page map failed",
            stack: "ipc stack page map failed",
        }),
{
    Refusals {
        frames: "frame exhaustion for the ipc window",
        code: "ipc code page map failed",
        data: "ipc data page map failed",
        stack: "ipc stack page map failed",
    }
}

/// Set up a message passing program in the address space `root`.
pub fn ipc_proc_setup(k: &mut Kernel, root: u64, code: &[u8]) -> (r: Result<[u64; 3], &'static str>)
    requires
        old(k).wf(),
        paging::is_root(old(k).pg.mem.seats@, root as int),
        code@.len() <= 4096,
    ensures
        final(k).wf(),
        set_up(
            old(k),
            final(k),
            root as int,
            &ipc_window(),
            &ipc_refusals(),
            code@,
            0,
            Seq::<u8>::empty(),
            true,
            r,
        ),
{
    let none: [u8; 0] = [];
    let r = open_window(k, root, &ipc_window(), &ipc_refusals(), code, 0, &none, true);
    assert(none@ =~= Seq::<u8>::empty());
    r
}

/// The window of the driver programs.
#[verifier::allow_in_spec]
pub fn m5_window() -> Window
    returns
        (Window { code: M5_CODE_VA, data: M5_DATA_VA, stack: M5_STACK_VA }),
{
    Window { code: M5_CODE_VA, data: M5_DATA_VA, stack: M5_STACK_VA }
}

#[verifier::allow_in_spec]
pub fn m5_refusals() -> Refusals
    returns
        (Refusals {
            frames: "frame exhaustion for the m5 window",
            code: "m5 code page map failed",
            data: "m5 data page map failed",
            stack: "m5 stack page map failed",
        }),
{
    Refusals {
        frames: "frame exhaustion for the m5 window",
        code: "m5 code page map failed",
        data: "m5 data page map failed",
        stack: "m5 stack page map failed",
    }
}

/// Set up a driver program in the address space `root`.  Returns its data
/// frame and what is left in the pool.
pub fn m5_setup(k: &mut Kernel, root: u64, code: &[u8]) -> (r: Result<(u64, u64), &'static str>)
    requires
        old(k).wf(),
        paging::is_root(old(k).pg.mem.seats@, root as int),
        code@.len() <= 4096,
    ensures
        final(k).wf(),
        exists|q: Result<[u64; 3], &'static str>|
            {
                &&& #[trigger] set_up(
                    old(k),
                    final(k),
                    root as int,
                    &m5_window(),
                    &m5_refusals(),
                    code@,
                    0,
                    Seq::<u8>::empty(),
                    true,
                    q,
                )
                &&& r == (match q {
                    Ok(p) => Ok::<(u64, u64), &'static str>((p@[1], final(k).fa.free)),
                    Err(e) => Err(e),
                })
            },
{
    let none: [u8; 0] = [];
    let q = open_window(k, root, &m5_window(), &m5_refusals(), code, 0, &none, true);
    assert(none@ =~= Seq::<u8>::empty());
    assert(set_up(
        old(k),
        k,
        root as int,
        &m5_window(),
        &m5_refusals(),
        code@,
        0,
        Seq::<u8>::empty(),
        true,
        q,
    ));
    match q {
        Ok(p) => Ok((p[1], frames::free_frames(&k.fa))),
        Err(e) => Err(e),
    }
}

/// One page of the kernel's view is unmapped and its frame given back: the
/// page must be mapped, and the pool must take the frame.
#[verifier::opaque]
pub open spec fn drop_step(
    pre: &Kernel,
    post: &Kernel,
    va: u64,
    gone: &'static str,
    refused: &'static str,
    r: Result<(), &'static str>,
) -> bool {
    let root = pre.pg.kernel_root as int;
    let v = va as int / 4096;
    &&& post.wf()
    &&& same_but_memory(pre, post)
    &&& post.pg.mem.seats@ == pre.pg.mem.seats@
    &&& match paging::pte_at(pre.pg.mem.words@, root, v) {
        None => r == Err::<(), &'static str>(gone) && post.fa == pre.fa && post.pg.mem == pre.pg.mem,
        Some(e) => {
            &&& paging::leaf(post.pg.mem.words@, root, v) is None
            &&& paging::same_leaves_but(&pre.pg.mem, &post.pg.mem, root, v)
            &&& paging::data_kept(&pre.pg.mem, &pre.fa, &post.pg.mem)
            &&& match frames::free_answer(&pre.fa, paging::addr(e)) {
                Err(_) => r == Err::<(), &'static str>(refused) && post.fa == pre.fa,
                Ok(_) => r == Ok::<(), &'static str>(()) && frames::gave_back(
                    &pre.fa,
                    &post.fa,
                    paging::addr(e),
                ),
            }
        },
    }
}

/// No page table is mapped at page `v` of the kernel's view.
pub open spec fn no_table_at(k: &Kernel, v: int) -> bool {
    paging::leaf(k.pg.mem.words@, k.pg.kernel_root as int, v) matches Some(e)
        ==> !k.pg.mem.seats@.dom().contains(paging::addr(e))
}

/// No page table is mapped at a page of the window `w` of the kernel's view.
pub open spec fn no_table_in(k: &Kernel, w: &Window) -> bool {
    &&& no_table_at(k, w.page(0))
    &&& no_table_at(k, w.page(1))
    &&& no_table_at(k, w.page(2))
}

/// A window that was set up in the kernel's view can be taken down again.
pub proof fn law_window_comes_down(
    pre: Kernel,
    post: Kernel,
    w: Window,
    say: Refusals,
    code: Seq<u8>,
    off: int,
    msg: Seq<u8>,
    stack: bool,
    p: [u64; 3],
)
    requires
        w.valid(),
        set_up(
            &pre,
            &post,
            pre.pg.kernel_root as int,
            &w,
            &say,
            code,
            off,
            msg,
            stack,
            Ok(p),
        ),
    ensures
        no_table_in(&post, &w),
{
    paging::lemma_user_entry(p@[0]);
    paging::lemma_user_entry(p@[1]);
    paging::lemma_user_entry(p@[2]);
}

/// Unmap the page at `va` of the kernel's view and give its frame back.
fn drop_page(k: &mut Kernel, va: u64, gone: &'static str, refused: &'static str) -> (r: Result<
    (),
    &'static str,
>)
    requires
        old(k).wf(),
        va < USER_HALF_LIMIT,
        no_table_at(old(k), va as int / 4096),
    ensures
        final(k).wf(),
        drop_step(old(k), final(k), va, gone, refused, r),
{
    let ghost k0 = *k;
    let ghost root = k0.pg.kernel_root as int;
    let ghost v = va as int / 4096;
    proof {
        reveal(drop_step);
        assert(paging::page_no(va as int) == v);
        if let Some(e) = paging::pte_at(k0.pg.mem.words@, root, v) {
            assert(paging::leaf(k0.pg.mem.words@, root, v) == Some(e));
            paging::lemma_mask(e);
        }
    }
    let f: u64 = match views::unmap_user_page_kernel_view(&mut k.pg, &k.fa, va) {
        Some(f) => f,
        None => {
            return Err(gone);
        },
    };
    let ghost f1 = k.fa;
    proof {
        proc::lemma_grown_kernel(&k0, k);
    }
    match frames::free(&mut k.fa, f) {
        Ok(()) => {
            proof {
                lemma_given(&k.pg.mem, &f1, &k.fa, f as int);
                proc::lemma_grown_kernel(&k0, k);
            }
            Ok(())
        },
        Err(_) => Err(refused),
    }
}

proof fn lemma_given(mem: &PhysMem, f0: &FrameAllocator, f1: &FrameAllocator, f: int)
    requires
        mem.wf(f0),
        f1.wf(),
        f1.same_pool(f0),
        frames::gave_back(f0, f1, f),
        !mem.seats@.dom().contains(f),
        f % 4096 == 0,
        0 <= f,
        f0.managed(f),
    ensures
        mem.wf(f1),
{
    assert forall|t: int| #[trigger] mem.seats@.dom().contains(t) implies f1.in_use(t) by {
        assert(f0.in_use(t));
        assert(paging::is_table(mem.words@, mem.seats@, t));
        assert(frames::used(f0.map@, t / 4096));
        assert(t / 4096 != f / 4096);
    }
    assert forall|j: int|
        0 <= j < frames::FRAME_COUNT && !#[trigger] frames::used(f1.map@, j) implies (j + 1) * 512
        <= mem.words@.len() by {
        if j != f / 4096 {
            assert(!frames::used(f0.map@, j));
        } else {
            assert(!frames::used(f0.origin@, j));
        }
    }
}

/// The pages `vas` of the kernel's view come down one by one, up to the first
/// that fails.
pub open spec fn pages_dropped(
    pre: &Kernel,
    post: &Kernel,
    vas: Seq<u64>,
    gone: &'static str,
    refused: &'static str,
    r: Result<(), &'static str>,
) -> bool
    decreases vas.len(),
{
    if vas.len() == 0 {
        *post == *pre && r is Ok
    } else {
        exists|k1: Kernel, r1: Result<(), &'static str>|
            {
                &&& #[trigger] drop_step(pre, &k1, vas[0], gone, refused, r1)
                &&& if r1 is Err {
                    *post == k1 && r == r1
                } else {
                    pages_dropped(&k1, post, vas.drop_first(), gone, refused, r)
                }
            }
    }
}

/// The window comes down page by page, and the pool must hold exactly three
/// frames more than it did with the window up.
pub open spec fn torn_down(
    pre: &Kernel,
    post: &Kernel,
    w: &Window,
    gone: &'static str,
    refused: &'static str,
    inexact: &'static str,
    after_setup_free: u64,
    r: Result<u64, &'static str>,
) -> bool {
    exists|q: Result<(), &'static str>|
        {
            &&& #[trigger] pages_dropped(
                pre,
                post,
                w.pages(),
                gone,
                refused,
                q,
            )
            &&& r == (match q {
                Err(e) => Err::<u64, &'static str>(e),
                Ok(_) => if post.fa.free != after_setup_free + 3 {
                    Err(inexact)
                } else {
                    Ok(post.fa.free)
                },
            })
        }
}

fn drop_pages(k: &mut Kernel, w: &Window, gone: &'static str, refused: &'static str) -> (r: Result<
    (),
    &'static str,
>)
    requires
        old(k).wf(),
        w.valid(),
        no_table_in(old(k), w),
    ensures
        final(k).wf(),
        pages_dropped(old(k), final(k), w.pages(), gone, refused, r),
{
    let ghost k0 = *k;
    let ghost all = w.pages();
    let ghost two = seq![w.data, w.stack];
    let ghost one = seq![w.stack];
    assert(all.drop_first() =~= two);
    assert(two.drop_first() =~= one);
    assert(one.drop_first() =~= Seq::<u64>::empty());
    let r1 = drop_page(k, w.code, gone, refused);
    let ghost k1 = *k;
    assert(drop_step(&k0, &k1, all[0], gone, refused, r1));
    if r1.is_err() {
        return r1;
    }
    assert(no_table_at(&k1, w.page(1)) && no_table_at(&k1, w.page(2))) by {
        reveal(drop_step);
    }
    let r2 = drop_page(k, w.data, gone, refused);
    let ghost k2 = *k;
    assert(drop_step(&k1, &k2, two[0], gone, refused, r2));
    if r2.is_err() {
        assert(pages_dropped(&k1, k, two, gone, refused, r2));
        return r2;
    }
    assert(no_table_at(&k2, w.page(2))) by {
        reveal(drop_step);
    }
    let r3 = drop_page(k, w.stack, gone, refused);
    assert(drop_step(&k2, k, one[0], gone, refused, r3));
    assert(r3 is Ok ==> pages_dropped(k, k, one.drop_first(), gone, refused, r3));
    assert(pages_dropped(&k2, k, one, gone, refused, r3));
    assert(pages_dropped(&k1, k, two, gone, refused, r3));
    r3
}

/// Take a window of the kernel's view down.
fn close_window(
    k: &mut Kernel,
    w: &Window,
    gone: &'static str,
    refused: &'static str,
    inexact: &'static str,
    after_setup_free: u64,
) -> (r: Result<u64, &'static str>)
    requires
        old(k).wf(),
        w.valid(),
        no_table_in(old(k), w),
    ensures
        final(k).wf(),
        torn_down(old(k), final(k), w, gone, refused, inexact, after_setup_free, r),
{
    let q = drop_pages(k, w, gone, refused);
    if let Err(e) = q {
        return Err(e);
    }
    let free_now: u64 = frames::free_frames(&k.fa);
    if free_now < 3 || free_now - 3 != after_setup_free {
        return Err(inexact);
    }
    Ok(free_now)
}

/// Take the third stage's window down.
pub fn u3_teardown(k: &mut Kernel, after_setup_free: u64) -> (r: Result<u64, &'static str>)
    requires
        old(k).wf(),
        no_table_in(old(k), &u3_window()),
    ensures
        final(k).wf(),
        torn_down(
            old(k),
            final(k),
            &u3_window(),
            "user page vanished from the kernel view",
            "user page free rejected",
            "user-page teardown frame accounting is not exact",
            after_setup_free,
            r,
        ),
{
    close_window(
        k,
        &u3_window(),
        "user page vanished from the kernel view",
        "user page free rejected",
        "user-page teardown frame accounting is not exact",
        after_setup_free,
    )
}

/// Take the system call programs' window down.
pub fn m4_teardown(k: &mut Kernel, after_setup_free: u64) -> (r: Result<u64, &'static str>)
    requires
        old(k).wf(),
        no_table_in(old(k), &m4_window()),
    ensures
        final(k).wf(),
        torn_down(
            old(k),
            final(k),
            &m4_window(),
            "m4 user page vanished from the kernel view",
            "m4 user page free rejected",
            "m4 user-page teardown frame accounting is not exact",
            after_setup_free,
            r,
        ),
{
    close_window(
        k,
        &m4_window(),
        "m4 user page vanished from the kernel view",
        "m4 user page free rejected",
        "m4 user-page teardown frame accounting is not exact",
        after_setup_free,
    )
}

/// A window stands in the process root `root` of `k2`, where `k0` had nothing.
pub open spec fn window_added(k0: &Kernel, k2: &Kernel, root: int, w: &Window, p: [u64; 3]) -> bool {
    &&& k0.wf()
    &&& w.valid()
    &&& views::process_root(&k0.pg.mem, k0.pg.kernel_root as int, root)
    &&& paging::leaf(k0.pg.mem.words@, root, w.page(0)) is None
    &&& paging::leaf(k0.pg.mem.words@, root, w.page(1)) is None
    &&& paging::leaf(k0.pg.mem.words@, root, w.page(2)) is None
    &&& window_stands(&k0.pg.mem, &k0.fa, &k2.pg.mem, &k2.fa, root, w, p)
}

/// What the process root holds at page `x`: the window's frames in its pages,
/// and what it held before elsewhere.
#[verifier::spinoff_prover]
#[verifier::rlimit(40)]
proof fn lemma_window_held(k0: &Kernel, k2: &Kernel, root: int, w: &Window, p: [u64; 3])
    requires
        window_added(k0, k2, root, w, p),
    ensures
        forall|x: int|
            0 <= x < USER_PAGES ==> #[trigger] paging::held_frame(&k2.pg.mem, &k2.fa, root, x) == (
            if x == w.page(0) {
                Some(p@[0] as int / 4096)
            } else if x == w.page(1) {
                Some(p@[1] as int / 4096)
            } else if x == w.page(2) {
                Some(p@[2] as int / 4096)
            } else {
                paging::held_frame(&k0.pg.mem, &k0.fa, root, x)
            }),
        paging::held_frame(&k0.pg.mem, &k0.fa, root, w.page(0)) is None,
        paging::held_frame(&k0.pg.mem, &k0.fa, root, w.page(1)) is None,
        paging::held_frame(&k0.pg.mem, &k0.fa, root, w.page(2)) is None,
{
    let m0 = &k0.pg.mem;
    let m2 = &k2.pg.mem;
    lemma_page_held(m2, &k2.fa, root, w.page(0), p@[0], false, true, &k0.fa);
    lemma_page_held(m2, &k2.fa, root, w.page(1), p@[1], true, false, &k0.fa);
    lemma_page_held(m2, &k2.fa, root, w.page(2), p@[2], true, false, &k0.fa);
    assert forall|x: int|
        0 <= x < USER_PAGES && x != w.page(0) && x != w.page(1) && x != w.page(2) implies #[trigger] paging::held_frame(
        m2,
        &k2.fa,
        root,
        x,
    ) == paging::held_frame(m0, &k0.fa, root, x) by {
        assert(paging::leaf(m2.words@, root, x) == paging::leaf(m0.words@, root, x));
    }
}

proof fn lemma_page_held(
    m: &PhysMem,
    fa: &FrameAllocator,
    root: int,
    v: int,
    f: u64,
    write: bool,
    exec: bool,
    f0: &FrameAllocator,
)
    requires
        f % 4096 == 0,
        f < frames::PHYS_LIMIT,
        !(write && exec),
        f0.wf(),
        !f0.in_use(f as int),
        fa.same_pool(f0),
        paging::leaf(m.words@, root, v) == Some(paging::user_entry(f, write, exec)),
    ensures
        paging::held_frame(m, fa, root, v) == Some(f as int / 4096),
{
    paging::lemma_user_entry(f);
    assert(paging::addr(paging::user_entry(f, write, exec)) == f);
    frames::lemma_pool(f0);
    assert(!frames::used(f0.map@, f as int / 4096));
}

#[verifier::spinoff_prover]
#[verifier::rlimit(40)]
proof fn lemma_window_backs(k0: &Kernel, k2: &Kernel, root: int, w: &Window, p: [u64; 3], j: int)
    requires
        window_added(k0, k2, root, w, p),
    ensures
        accounts::backs(&k2.pg.mem, &k2.fa, root, j) == (accounts::backs(
            &k0.pg.mem,
            &k0.fa,
            root,
            j,
        ) || j == p@[0] as int / 4096 || j == p@[1] as int / 4096 || j == p@[2] as int / 4096),
{
    lemma_window_held(k0, k2, root, w, p);
    let m0 = &k0.pg.mem;
    let m2 = &k2.pg.mem;
    assert(paging::held_frame(m2, &k2.fa, root, w.page(0)) == Some(p@[0] as int / 4096));
    assert(paging::held_frame(m2, &k2.fa, root, w.page(1)) == Some(p@[1] as int / 4096));
    assert(paging::held_frame(m2, &k2.fa, root, w.page(2)) == Some(p@[2] as int / 4096));
    if accounts::backs(m0, &k0.fa, root, j) {
        let x = choose|x: int|
            0 <= x < USER_PAGES && #[trigger] paging::held_frame(m0, &k0.fa, root, x) == Some(j);
        assert(paging::held_frame(m2, &k2.fa, root, x) == Some(j));
    }
    if accounts::backs(m2, &k2.fa, root, j) {
        let x = choose|x: int|
            0 <= x < USER_PAGES && #[trigger] paging::held_frame(m2, &k2.fa, root, x) == Some(j);
        if x != w.page(0) && x != w.page(1) && x != w.page(2) {
            assert(paging::held_frame(m0, &k0.fa, root, x) == Some(j));
        }
    }
}

/// A window is charged to its process: what leaves the pool for it is what
/// the process's teardown will give back for it, and the pages stay tidy.
#[verifier::spinoff_prover]
#[verifier::rlimit(40)]
pub proof fn law_window_is_charged(k0: Kernel, k2: Kernel, root: int, w: Window, p: [u64; 3])
    requires
        window_added(&k0, &k2, root, &w, p),
    ensures
        accounts::charged(&k0, &k2, root),
        accounts::tidy(&k0, root) ==> accounts::tidy(&k2, root),
{
    reveal(accounts::charged);
    let m0 = &k0.pg.mem;
    let m2 = &k2.pg.mem;
    assert(paging::is_table(m0.words@, m0.seats@, root));
    assert(m2.seats@.dom().contains(root) && m2.seats@[root] == m0.seats@[root]);
    assert forall|j: int| 0 <= j < frames::FRAME_COUNT implies {
        &&& #[trigger] frames::used(k0.fa.map@, j) ==> frames::used(k2.fa.map@, j)
        &&& proc::goes_back(&k2, root, j) == (proc::goes_back(&k0, root, j) || frames::used(
            k2.fa.map@,
            j,
        ) && !frames::used(k0.fa.map@, j))
    } by {
        accounts::lemma_goes_back(&k0, root, j);
        accounts::lemma_goes_back(&k2, root, j);
        lemma_window_backs(&k0, &k2, root, &w, p, j);
        let t = j * 4096;
        assert(t / 4096 == j);
        assert(fresh_page(&k0.fa, m2, &k2.fa, p@[0] as int));
        assert(fresh_page(&k0.fa, m2, &k2.fa, p@[1] as int));
        assert(fresh_page(&k0.fa, m2, &k2.fa, p@[2] as int));
        if m0.seats@.dom().contains(t) {
            assert(m2.seats@.dom().contains(t));
        } else if m2.seats@.dom().contains(t) {
            assert(!k0.fa.in_use(t));
            assert(k2.fa.in_use(t));
        }
    }
    if accounts::tidy(&k0, root) {
        lemma_window_tidy(&k0, &k2, root, &w, p);
    }
}

#[verifier::spinoff_prover]
#[verifier::rlimit(40)]
proof fn lemma_window_tidy(k0: &Kernel, k2: &Kernel, root: int, w: &Window, p: [u64; 3])
    requires
        window_added(k0, k2, root, w, p),
        accounts::tidy(k0, root),
    ensures
        accounts::tidy(k2, root),
{
    reveal(accounts::tidy);
    lemma_window_held(k0, k2, root, w, p);
    let m0 = &k0.pg.mem;
    let m2 = &k2.pg.mem;
    assert forall|v: int| 0 <= v < USER_PAGES implies (#[trigger] paging::held_frame(
        m2,
        &k2.fa,
        root,
        v,
    ) matches Some(j) ==> frames::used(k2.fa.map@, j) && !m2.seats@.dom().contains(j * 4096)) by {
        if v != w.page(0) && v != w.page(1) && v != w.page(2) {
            if let Some(j) = paging::held_frame(m0, &k0.fa, root, v) {
                accounts::lemma_held_range(k0, root, v);
                assert(frames::used(k0.fa.map@, j));
                assert((j * 4096) / 4096 == j);
                if m2.seats@.dom().contains(j * 4096) {
                    assert(m0.seats@.dom().contains(j * 4096) || !k0.fa.in_use(j * 4096));
                }
            }
        }
    }
    assert forall|v: int|
        0 <= v < USER_PAGES && v != w.page(0) && v != w.page(1) && v != w.page(2) implies (
    #[trigger] paging::held_frame(m2, &k2.fa, root, v) matches Some(j) ==> j != p@[0] as int / 4096
        && j != p@[1] as int / 4096 && j != p@[2] as int / 4096) by {
        if let Some(j) = paging::held_frame(m0, &k0.fa, root, v) {
            assert(frames::used(k0.fa.map@, j));
        }
    }
    assert forall|v: int, x: int|
        0 <= v < x < USER_PAGES && #[trigger] paging::held_frame(m2, &k2.fa, root, v) is Some
            && #[trigger] paging::held_frame(
            m2,
            &k2.fa,
            root,
            x,
        ) is Some implies paging::held_frame(m2, &k2.fa, root, v) != paging::held_frame(
        m2,
        &k2.fa,
        root,
        x,
    ) by {
    }
}

} // verus!
