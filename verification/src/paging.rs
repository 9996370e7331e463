//! Four-level page tables over a model of physical memory.
//!
//! Physical memory is a vector of 64-bit words; a table is the 512 words of a
//! 4 KiB frame. Beside the words stands a ghost map that gives each table its
//! seat: the address space it serves, its level, and the pages it covers.

use vstd::prelude::*;
use crate::frames;
use crate::frames::FrameAllocator;
use crate::needs;

verus! {

/// Where the kernel sees physical address zero.
pub const KERNEL_OFFSET: u64 = 0xFFFF_FFFF_8000_0000;

/// How much physical memory the kernel sees there.
pub const DIRECT_MAP_BYTES: u64 = 0x8000_0000;

pub const PTE_PRESENT: u64 = 1;
pub const PTE_WRITE: u64 = 2;
pub const PTE_USER: u64 = 4;
pub const PTE_HUGE: u64 = 0x80;
pub const PTE_NX: u64 = 0x8000_0000_0000_0000;

/// The address bits of an entry.
pub const ADDR_MASK: u64 = 0x000F_FFFF_FFFF_F000;
pub const PAGE: u64 = 4096;
pub const PAGE_2M: u64 = 0x20_0000;

/// One past the last address of the user half.
pub const USER_HALF_LIMIT: u64 = 0x0000_8000_0000_0000;

/// How many pages a 48-bit address space has.
pub const PAGES: u64 = 0x10_0000_0000;

/// How many of them lie in the user half.
pub const USER_PAGES: u64 = 0x8_0000_0000;

pub open spec fn present(e: u64) -> bool {
    e & PTE_PRESENT != 0
}

pub open spec fn huge(e: u64) -> bool {
    e & PTE_HUGE != 0
}

pub open spec fn writable(e: u64) -> bool {
    e & PTE_WRITE != 0
}

pub open spec fn executable(e: u64) -> bool {
    e & PTE_NX == 0
}

pub open spec fn addr(e: u64) -> int {
    (e & ADDR_MASK) as int
}

/// The number of the page that holds address `va`.
pub open spec fn page_no(va: int) -> int {
    va / 4096 % PAGES as int
}

pub open spec fn idx4(v: int) -> int {
    v / 0x800_0000
}

pub open spec fn idx3(v: int) -> int {
    v / 0x4_0000 % 512
}

pub open spec fn idx2(v: int) -> int {
    v / 512 % 512
}

pub open spec fn idx1(v: int) -> int {
    v % 512
}

/// Entry `i` of the table at physical address `t`.
pub open spec fn entry(words: Seq<u64>, t: int, i: int) -> u64 {
    words[t / 8 + i]
}

/// The 4 KiB entry that stands for page `i` of a 2 MiB entry.
pub open spec fn split_entry(e: u64, i: int) -> u64 {
    ((addr(e) + i * 4096) as u64) | (e & !ADDR_MASK & !PTE_HUGE)
}

/// The leaf entry that translates page `v` under `root`; a 2 MiB leaf counts
/// as its 512 pages.
pub open spec fn leaf(words: Seq<u64>, root: int, v: int) -> Option<u64> {
    let a = entry(words, root, idx4(v));
    let b = entry(words, addr(a), idx3(v));
    let c = entry(words, addr(b), idx2(v));
    let d = entry(words, addr(c), idx1(v));
    if !present(a) || !present(b) || !present(c) {
        None
    } else if huge(c) {
        Some(split_entry(c, idx1(v)))
    } else if present(d) {
        Some(d)
    } else {
        None
    }
}

/// The word that holds the 4 KiB entry of page `v` under `root`, where the
/// walk reaches a last-level table.
pub open spec fn pte_slot(words: Seq<u64>, root: int, v: int) -> Option<int> {
    let a = entry(words, root, idx4(v));
    let b = entry(words, addr(a), idx3(v));
    let c = entry(words, addr(b), idx2(v));
    if !present(a) || !present(b) || huge(b) || !present(c) || huge(c) {
        None
    } else {
        Some(addr(c) / 8 + idx1(v))
    }
}

/// The 4 KiB entry of page `v` under `root`, where one is present.
pub open spec fn pte_at(words: Seq<u64>, root: int, v: int) -> Option<u64> {
    match pte_slot(words, root, v) {
        Some(s) => if present(words[s]) {
            Some(words[s])
        } else {
            None
        },
        None => None,
    }
}

/// How many tables a 4 KiB mapping of page `v` has to add.
pub open spec fn missing(words: Seq<u64>, root: int, v: int) -> int {
    let a = entry(words, root, idx4(v));
    let b = entry(words, addr(a), idx3(v));
    let c = entry(words, addr(b), idx2(v));
    if !present(a) {
        3
    } else if !present(b) {
        2
    } else if !present(c) || huge(c) {
        1
    } else {
        0
    }
}

/// How many tables a 2 MiB mapping around page `v` has to add.
pub open spec fn missing_2m(words: Seq<u64>, root: int, v: int) -> int {
    let a = entry(words, root, idx4(v));
    let b = entry(words, addr(a), idx3(v));
    if !present(a) {
        2
    } else if !present(b) {
        1
    } else {
        0
    }
}

/// The place of a table: the address space that its pages belong to (for a
/// root also the one that lends it its upper half), the table above it, its
/// level, and the number of the span that it covers, counted in spans of its
/// own size.
pub struct Seat {
    pub owner: int,
    pub upper: int,
    pub parent: int,
    pub level: int,
    pub prefix: int,
}

/// The seat that entry `i` of table `t`, with seat `s`, leads to.
pub open spec fn child_seat(s: Seat, t: int, i: int) -> Seat {
    let who = if s.level == 4 && i >= 256 {
        s.upper
    } else {
        s.owner
    };
    Seat {
        owner: who,
        upper: who,
        parent: if s.level == 4 {
            who
        } else {
            t
        },
        level: s.level - 1,
        prefix: s.prefix * 512 + i,
    }
}

/// Whose page `v` is, seen from the root with seat `s`.
pub open spec fn owner_of(s: Seat, v: int) -> int {
    if idx4(v) >= 256 {
        s.upper
    } else {
        s.owner
    }
}

pub open spec fn is_table(words: Seq<u64>, seats: Map<int, Seat>, t: int) -> bool {
    &&& seats.dom().contains(t)
    &&& t % 4096 == 0
    &&& 0 <= t < frames::PHYS_LIMIT
    &&& t / 8 + 512 <= words.len()
    &&& 1 <= seats[t].level <= 4
    &&& seats[t].level == 4 ==> {
        let up = seats[t].upper;
        &&& seats[t].owner == t
        &&& seats[t].prefix == 0
        &&& seats.dom().contains(up)
        &&& seats[up].level == 4
        &&& seats[up].upper == up
    }
}

/// Table `t`, unless it is a root, has a root for its owner; and where the
/// owner borrows its upper half, the table hangs where its seat says: its
/// parent's entry leads to it.
#[verifier::opaque]
pub open spec fn hangs(words: Seq<u64>, seats: Map<int, Seat>, t: int) -> bool {
    let s = seats[t];
    let e = entry(words, s.parent, s.prefix % 512);
    s.level < 4 ==> {
        &&& is_root(seats, s.owner)
        &&& seats[s.owner].upper != s.owner ==> {
            &&& seats.dom().contains(s.parent)
            &&& s == child_seat(seats[s.parent], s.parent, s.prefix % 512)
            &&& present(e)
            &&& !huge(e)
            &&& addr(e) == t
        }
    }
}

/// An entry that leads to a table takes nothing away: what the pages behind it
/// allow is for their own entries to say.
pub open spec fn lets_through(e: u64) -> bool {
    writable(e) && e & PTE_USER != 0 && executable(e)
}

/// Entry `i` of table `t` leads where the seats say, and takes nothing away.
pub open spec fn entry_ok(words: Seq<u64>, seats: Map<int, Seat>, t: int, i: int) -> bool {
    let e = entry(words, t, i);
    present(e) ==> if seats[t].level == 2 && huge(e) {
        true
    } else {
        &&& !huge(e)
        &&& lets_through(e)
        &&& is_table(words, seats, addr(e))
        &&& seats[addr(e)] == child_seat(seats[t], t, i)
    }
}

/// Every table lies in memory, and every present entry above the last level
/// leads to the table of its span, or is a 2 MiB leaf.
pub open spec fn tables_wf(words: Seq<u64>, seats: Map<int, Seat>) -> bool {
    &&& forall|t: int| #[trigger] seats.dom().contains(t) ==> is_table(words, seats, t)
    &&& forall|t: int| #[trigger] seats.dom().contains(t) ==> hangs(words, seats, t)
    &&& forall|t: int, i: int|
        seats.dom().contains(t) && seats[t].level >= 2 && 0 <= i < 512 ==> #[trigger] entry_ok(
            words,
            seats,
            t,
            i,
        )
}

pub open spec fn is_root(seats: Map<int, Seat>, r: int) -> bool {
    seats.dom().contains(r) && seats[r].level == 4
}

/// Page `v` may be mapped through `root`: it is not in a half that `root`
/// borrows from another address space.
pub open spec fn editable(seats: Map<int, Seat>, root: int, v: int) -> bool {
    is_root(seats, root) && owner_of(seats[root], v) == root
}

/// Physical memory and the tables in it.
pub struct PhysMem {
    pub words: Vec<u64>,
    pub seats: Ghost<Map<int, Seat>>,
}

impl PhysMem {
    /// The tables are in order, every table's frame is a pooled one in use, and
    /// every free frame and every frame of the memory map lies in memory.
    pub open spec fn wf(&self, fa: &FrameAllocator) -> bool {
        &&& fa.wf()
        &&& tables_wf(self.words@, self.seats@)
        &&& forall|t: int| #[trigger]
            self.seats@.dom().contains(t) ==> fa.in_use(t) && fa.managed(t)
        &&& forall|j: int|
            0 <= j < frames::FRAME_COUNT && !#[trigger] frames::used(fa.map@, j) ==> (j + 1) * 512
                <= self.words@.len()
        &&& forall|j: int|
            0 <= j < frames::FRAME_COUNT && !#[trigger] frames::used(fa.origin@, j) ==> (j + 1)
                * 512 <= self.words@.len()
    }

    /// Memory that holds no table yet.
    pub fn new(words: Vec<u64>) -> (m: PhysMem)
        ensures
            m.words@ == words@,
            m.seats@ == Map::<int, Seat>::empty(),
            tables_wf(m.words@, m.seats@),
    {
        PhysMem { words, seats: Ghost(Map::empty()) }
    }
}

/// The translations of `post` are those of `pre` everywhere but, perhaps, for
/// page `v` of the address space `who`.
pub open spec fn same_leaves_but(
    pre: &PhysMem,
    post: &PhysMem,
    who: int,
    v: int,
) -> bool {
    forall|r: int, w: int| #![trigger leaf(post.words@, r, w)]
        is_root(pre.seats@, r) && 0 <= w < PAGES && !(w == v && owner_of(pre.seats@[r], w) == who)
            ==> leaf(post.words@, r, w) == leaf(pre.words@, r, w)
}

/// All translations of `post` are those of `pre`.
pub open spec fn same_leaves(pre: &PhysMem, post: &PhysMem) -> bool {
    forall|r: int, w: int| #![trigger leaf(post.words@, r, w)]
        is_root(pre.seats@, r) && 0 <= w < PAGES ==> leaf(post.words@, r, w) == leaf(
            pre.words@,
            r,
            w,
        )
}

/// A page that has a place in a last-level table keeps it.
pub open spec fn places_kept(seats: Map<int, Seat>, w0: Seq<u64>, w1: Seq<u64>) -> bool {
    forall|r: int, v: int| #![trigger pte_slot(w1, r, v)]
        is_root(seats, r) && 0 <= v < PAGES && pte_slot(w0, r, v) is Some ==> pte_slot(w1, r, v)
            == pte_slot(w0, r, v)
}

/// A page with a 4 KiB entry keeps it while its place and its translation stay.
pub proof fn lemma_pte_stays(seats: Map<int, Seat>, w0: Seq<u64>, w1: Seq<u64>, root: int, v: int)
    requires
        is_root(seats, root),
        0 <= v < PAGES,
        places_kept(seats, w0, w1),
        pte_at(w0, root, v) is Some,
        leaf(w1, root, v) == leaf(w0, root, v),
    ensures
        pte_at(w1, root, v) == pte_at(w0, root, v),
        pte_at(w0, root, v) == leaf(w0, root, v),
{
    assert(pte_slot(w1, root, v) == pte_slot(w0, root, v));
}

/// What was a table stays one, with its seat.
pub open spec fn seats_kept(pre: &PhysMem, post: &PhysMem) -> bool {
    forall|t: int| #[trigger] pre.seats@.dom().contains(t) ==> post.seats@.dom().contains(t)
        && post.seats@[t] == pre.seats@[t]
}

pub proof fn lemma_indices(va: u64)
    by (bit_vector)
    ensures
        (va >> 39) & 0x1FF == ((va / 4096) % 0x10_0000_0000u64) / 0x800_0000u64,
        (va >> 30) & 0x1FF == (((va / 4096) % 0x10_0000_0000u64) / 0x4_0000u64) % 512u64,
        (va >> 21) & 0x1FF == (((va / 4096) % 0x10_0000_0000u64) / 512u64) % 512u64,
        (va >> 12) & 0x1FF == ((va / 4096) % 0x10_0000_0000u64) % 512u64,
{
}

pub proof fn lemma_mask(e: u64)
    by (bit_vector)
    ensures
        (e & 0x000F_FFFF_FFFF_F000u64) % 4096 == 0,
        (e & 0x000F_FFFF_FFFF_F000u64) <= 0x000F_FFFF_FFFF_F000u64,
        0u64 & 1 == 0,
        0u64 & 0x80 == 0,
{
}

/// A frame address with table flags is present, no leaf, and keeps its address.
pub proof fn lemma_link_entry(f: u64)
    by (bit_vector)
    requires
        f % 4096 == 0,
        f < 0x1_0000_0000u64,
    ensures
        (f | 1 | 2 | 4) & 0x000F_FFFF_FFFF_F000u64 == f,
        (f | 1 | 2 | 4) & 1 != 0,
        (f | 1 | 2 | 4) & 0x80 == 0,
        (f | 1 | 2 | 4) & 2 != 0,
        (f | 1 | 2 | 4) & 4 != 0,
        (f | 1 | 2 | 4) & 0x8000_0000_0000_0000u64 == 0,
{
}

/// A page cut out of a present 2 MiB entry is present.
pub proof fn lemma_split_present(e: u64, x: u64)
    by (bit_vector)
    requires
        e & 1 != 0,
    ensures
        (x | (e & !0x000F_FFFF_FFFF_F000u64 & !0x80u64)) & 1 != 0,
{
}

/// The indices of a page number, and the number from its indices.
pub proof fn lemma_page_split(v: int)
    requires
        0 <= v < PAGES,
    ensures
        0 <= idx4(v) < 512,
        0 <= idx3(v) < 512,
        0 <= idx2(v) < 512,
        0 <= idx1(v) < 512,
        v / 0x4_0000 == idx4(v) * 512 + idx3(v),
        v / 512 == (idx4(v) * 512 + idx3(v)) * 512 + idx2(v),
        v == v / 512 * 512 + idx1(v),
{
}

/// What the walk of page `v` under `r` meets.
pub proof fn lemma_path(words: Seq<u64>, seats: Map<int, Seat>, r: int, v: int)
    requires
        tables_wf(words, seats),
        is_root(seats, r),
        0 <= v < PAGES,
    ensures
        is_table(words, seats, r),
        ({
            let who = owner_of(seats[r], v);
            let a = entry(words, r, idx4(v));
            let b = entry(words, addr(a), idx3(v));
            let c = entry(words, addr(b), idx2(v));
            &&& present(a) ==> {
                &&& !huge(a)
                &&& is_table(words, seats, addr(a))
                &&& seats[addr(a)] == (Seat {
                    owner: who,
                    upper: who,
                    parent: who,
                    level: 3,
                    prefix: v / 0x800_0000,
                })
            }
            &&& present(a) && present(b) ==> {
                &&& !huge(b)
                &&& is_table(words, seats, addr(b))
                &&& seats[addr(b)] == (Seat {
                    owner: who,
                    upper: who,
                    parent: addr(a),
                    level: 2,
                    prefix: v / 0x4_0000,
                })
            }
            &&& present(a) && present(b) && present(c) && !huge(c) ==> {
                &&& is_table(words, seats, addr(c))
                &&& seats[addr(c)] == (Seat {
                    owner: who,
                    upper: who,
                    parent: addr(b),
                    level: 1,
                    prefix: v / 512,
                })
            }
        }),
{
    lemma_page_split(v);
    let a = entry(words, r, idx4(v));
    assert(is_table(words, seats, r));
    assert(entry_ok(words, seats, r, idx4(v)));
    if present(a) {
        let b = entry(words, addr(a), idx3(v));
        assert(entry_ok(words, seats, addr(a), idx3(v)));
        if present(b) {
            assert(entry_ok(words, seats, addr(b), idx2(v)));
        }
    }
}

/// `w1` is `w0` but for the 512 words of a frame that is no table, and for
/// entry `i` of table `t`, which now links to that frame.
pub open spec fn linked(
    w0: Seq<u64>,
    w1: Seq<u64>,
    seats: Map<int, Seat>,
    t: int,
    i: int,
    f: int,
) -> bool {
    &&& w1.len() == w0.len()
    &&& is_table(w0, seats, t)
    &&& seats[t].level >= 2
    &&& 0 <= i < 512
    &&& f % 4096 == 0
    &&& 0 <= f < frames::PHYS_LIMIT
    &&& f / 8 + 512 <= w0.len()
    &&& !seats.dom().contains(f)
    &&& present(entry(w1, t, i))
    &&& !huge(entry(w1, t, i))
    &&& lets_through(entry(w1, t, i))
    &&& addr(entry(w1, t, i)) == f
    &&& forall|u: int, j: int|
        seats.dom().contains(u) && 0 <= j < 512 && !(u == t && j == i) ==> #[trigger] entry(
            w1,
            u,
            j,
        ) == entry(w0, u, j)
}

/// Linking an empty table, or one that cuts up a 2 MiB leaf, keeps the tables
/// in order and every translation as it was.
#[verifier::spinoff_prover]
#[verifier::rlimit(40)]
pub proof fn lemma_link(
    w0: Seq<u64>,
    w1: Seq<u64>,
    seats: Map<int, Seat>,
    t: int,
    i: int,
    f: int,
)
    requires
        tables_wf(w0, seats),
        linked(w0, w1, seats, t, i, f),
        ({
            let e = entry(w0, t, i);
            ||| !present(e) && forall|j: int| 0 <= j < 512 ==> #[trigger] entry(w1, f, j) == 0
            ||| present(e) && huge(e) && seats[t].level == 2 && forall|j: int|
                0 <= j < 512 ==> #[trigger] entry(w1, f, j) == split_entry(e, j)
        }),
    ensures
        tables_wf(w1, seats.insert(f, child_seat(seats[t], t, i))),
        forall|r: int, v: int|
            is_root(seats, r) && 0 <= v < PAGES ==> #[trigger] leaf(w1, r, v) == leaf(w0, r, v),
        places_kept(seats, w0, w1),
{
    reveal(hangs);
    let s1 = seats.insert(f, child_seat(seats[t], t, i));
    lemma_mask(0);
    assert forall|u: int| #[trigger] s1.dom().contains(u) implies is_table(w1, s1, u) by {
        if u != f {
            assert(seats.dom().contains(u));
            assert(is_table(w0, seats, u));
        }
    }
    assert forall|u: int, j: int|
        s1.dom().contains(u) && s1[u].level >= 2 && 0 <= j < 512 implies #[trigger] entry_ok(
        w1,
        s1,
        u,
        j,
    ) by {
        if u == f {
            assert(entry(w1, f, j) == 0);
        } else if !(u == t && j == i) {
            assert(entry_ok(w0, seats, u, j));
            assert(entry(w1, u, j) == entry(w0, u, j));
        }
    }
    assert forall|u: int| #[trigger] s1.dom().contains(u) implies hangs(w1, s1, u) by {
        assert(is_table(w0, seats, t));
        assert(hangs(w0, seats, t));
        if u == f {
            assert(s1[u].prefix % 512 == i);
        } else {
            assert(seats.dom().contains(u));
            assert(hangs(w0, seats, u));
            let p = s1[u].parent;
            let j = s1[u].prefix % 512;
            if s1[u].level < 4 {
                assert(is_table(w0, seats, s1[u].owner));
                if seats[s1[u].owner].upper != s1[u].owner {
                    assert(entry(w1, p, j) == entry(w0, p, j));
                }
            }
        }
    }
    assert forall|r: int, v: int| is_root(seats, r) && 0 <= v < PAGES implies #[trigger] leaf(
        w1,
        r,
        v,
    ) == leaf(w0, r, v) by {
        lemma_page_split(v);
        lemma_path(w0, seats, r, v);
        let a = entry(w0, r, idx4(v));
        let b = entry(w0, addr(a), idx3(v));
        let c = entry(w0, addr(b), idx2(v));
        let d = entry(w0, addr(c), idx1(v));
        if r == t && idx4(v) == i {
            assert(entry(w1, f, idx3(v)) == 0);
        } else {
            assert(entry(w1, r, idx4(v)) == a);
            if present(a) {
                if addr(a) == t && idx3(v) == i {
                    assert(entry(w1, f, idx2(v)) == 0);
                } else {
                    assert(entry(w1, addr(a), idx3(v)) == b);
                    if present(b) {
                        if addr(b) == t && idx2(v) == i {
                            if present(c) {
                                assert(entry(w1, f, idx1(v)) == split_entry(c, idx1(v)));
                                lemma_split_present(c, (addr(c) + idx1(v) * 4096) as u64);
                            } else {
                                assert(entry(w1, f, idx1(v)) == 0);
                            }
                        } else {
                            assert(entry(w1, addr(b), idx2(v)) == c);
                            if present(c) && !huge(c) {
                                assert(entry(w1, addr(c), idx1(v)) == d);
                            }
                        }
                    }
                }
            }
        }
    }
    assert forall|r: int, v: int| #![trigger pte_slot(w1, r, v)]
        is_root(seats, r) && 0 <= v < PAGES && pte_slot(w0, r, v) is Some implies pte_slot(w1, r, v)
        == pte_slot(w0, r, v) by {
        lemma_page_split(v);
        lemma_path(w0, seats, r, v);
        let a = entry(w0, r, idx4(v));
        let b = entry(w0, addr(a), idx3(v));
        let c = entry(w0, addr(b), idx2(v));
        assert(entry(w1, r, idx4(v)) == a);
        assert(entry(w1, addr(a), idx3(v)) == b);
        assert(entry(w1, addr(b), idx2(v)) == c);
    }
}

/// Writing one entry of a last-level table changes the translation of its
/// page and of no other.
#[verifier::spinoff_prover]
#[verifier::rlimit(40)]
pub proof fn lemma_leaf_write(
    w0: Seq<u64>,
    w1: Seq<u64>,
    seats: Map<int, Seat>,
    t: int,
    i: int,
)
    requires
        tables_wf(w0, seats),
        seats.dom().contains(t),
        seats[t].level == 1,
        0 <= i < 512,
        w1.len() == w0.len(),
        forall|u: int, j: int|
            seats.dom().contains(u) && 0 <= j < 512 && !(u == t && j == i) ==> #[trigger] entry(
                w1,
                u,
                j,
            ) == entry(w0, u, j),
    ensures
        tables_wf(w1, seats),
        forall|r: int, v: int|
            is_root(seats, r) && 0 <= v < PAGES && !(v == seats[t].prefix * 512 + i && owner_of(
                seats[r],
                v,
            ) == seats[t].owner) ==> #[trigger] leaf(w1, r, v) == leaf(w0, r, v),
        places_kept(seats, w0, w1),
{
    reveal(hangs);
    assert forall|u: int| #[trigger] seats.dom().contains(u) implies is_table(w1, seats, u) by {
        assert(is_table(w0, seats, u));
    }
    assert forall|u: int, j: int|
        seats.dom().contains(u) && seats[u].level >= 2 && 0 <= j < 512 implies #[trigger] entry_ok(
        w1,
        seats,
        u,
        j,
    ) by {
        assert(entry_ok(w0, seats, u, j));
        assert(entry(w1, u, j) == entry(w0, u, j));
    }
    assert forall|r: int, v: int|
        is_root(seats, r) && 0 <= v < PAGES && !(v == seats[t].prefix * 512 + i && owner_of(
            seats[r],
            v,
        ) == seats[t].owner) implies #[trigger] leaf(w1, r, v) == leaf(w0, r, v) by {
        lemma_page_split(v);
        lemma_path(w0, seats, r, v);
        let a = entry(w0, r, idx4(v));
        let b = entry(w0, addr(a), idx3(v));
        let c = entry(w0, addr(b), idx2(v));
        assert(entry(w1, r, idx4(v)) == a);
        if present(a) {
            assert(entry(w1, addr(a), idx3(v)) == b);
            if present(b) {
                assert(entry(w1, addr(b), idx2(v)) == c);
                if present(c) && !huge(c) {
                    assert(entry(w1, addr(c), idx1(v)) == entry(w0, addr(c), idx1(v)));
                }
            }
        }
    }
    assert forall|r: int, v: int| #![trigger pte_slot(w1, r, v)]
        is_root(seats, r) && 0 <= v < PAGES && pte_slot(w0, r, v) is Some implies pte_slot(w1, r, v)
        == pte_slot(w0, r, v) by {
        lemma_page_split(v);
        lemma_path(w0, seats, r, v);
        let a = entry(w0, r, idx4(v));
        let b = entry(w0, addr(a), idx3(v));
        assert(entry(w1, r, idx4(v)) == a);
        assert(entry(w1, addr(a), idx3(v)) == b);
        assert(entry(w1, addr(b), idx2(v)) == entry(w0, addr(b), idx2(v)));
    }
}

/// Index of the root table for `va`.
pub fn pml4_idx(va: u64) -> (r: usize)
    ensures
        r == idx4(page_no(va as int)),
        r < 512,
{
    proof {
        lemma_indices(va);
    }
    ((va >> 39) & 0x1FF) as usize
}

/// Index of the third-level table for `va`.
pub fn pdpt_idx(va: u64) -> (r: usize)
    ensures
        r == idx3(page_no(va as int)),
        r < 512,
{
    proof {
        lemma_indices(va);
    }
    ((va >> 30) & 0x1FF) as usize
}

/// Index of the second-level table for `va`.
pub fn pd_idx(va: u64) -> (r: usize)
    ensures
        r == idx2(page_no(va as int)),
        r < 512,
{
    proof {
        lemma_indices(va);
    }
    ((va >> 21) & 0x1FF) as usize
}

/// Index of the last-level table for `va`.
pub fn pt_idx(va: u64) -> (r: usize)
    ensures
        r == idx1(page_no(va as int)),
        r < 512,
{
    proof {
        lemma_indices(va);
    }
    ((va >> 12) & 0x1FF) as usize
}

/// Read entry `i` of table `t`.
fn read_entry(mem: &PhysMem, t: u64, i: usize) -> (r: u64)
    requires
        is_table(mem.words@, mem.seats@, t as int),
        i < 512,
    ensures
        r == entry(mem.words@, t as int, i as int),
{
    mem.words[(t / 8) as usize + i]
}

/// The word that holds the 4 KiB entry for `va`, where the walk reaches one.
pub fn find_pte(mem: &PhysMem, pml4_phys: u64, va: u64) -> (r: Option<usize>)
    requires
        tables_wf(mem.words@, mem.seats@),
        is_root(mem.seats@, pml4_phys as int),
    ensures
        (match r {
            Some(s) => Some(s as int),
            None => None,
        }) == pte_slot(mem.words@, pml4_phys as int, page_no(va as int)),
        r matches Some(s) ==> s < mem.words@.len(),
{
    let ghost v = page_no(va as int);
    proof {
        lemma_path(mem.words@, mem.seats@, pml4_phys as int, v);
        lemma_page_split(v);
    }
    let e4: u64 = read_entry(mem, pml4_phys, pml4_idx(va));
    if e4 & PTE_PRESENT == 0 {
        return None;
    }
    let e3: u64 = read_entry(mem, e4 & ADDR_MASK, pdpt_idx(va));
    if e3 & PTE_PRESENT == 0 || e3 & PTE_HUGE != 0 {
        return None;
    }
    let e2: u64 = read_entry(mem, e3 & ADDR_MASK, pd_idx(va));
    if e2 & PTE_PRESENT == 0 || e2 & PTE_HUGE != 0 {
        return None;
    }
    Some(((e2 & ADDR_MASK) / 8) as usize + pt_idx(va))
}

/// The present 4 KiB entry for `va`, flags and address together.
pub fn user_pte_flags(mem: &PhysMem, pml4_phys: u64, va: u64) -> (r: Option<u64>)
    requires
        tables_wf(mem.words@, mem.seats@),
        is_root(mem.seats@, pml4_phys as int),
    ensures
        r == pte_at(mem.words@, pml4_phys as int, page_no(va as int)),
{
    match find_pte(mem, pml4_phys, va) {
        None => None,
        Some(s) => {
            let e: u64 = mem.words[s];
            if e & PTE_PRESENT == 0 {
                None
            } else {
                Some(e)
            }
        },
    }
}

/// The words of frames that were in use before and are no tables are as they
/// were.
pub open spec fn data_kept(pre: &PhysMem, pre_fa: &FrameAllocator, post: &PhysMem) -> bool {
    &&& post.words@.len() == pre.words@.len()
    &&& forall|k: int| #![trigger post.words@[k]]
        0 <= k < pre.words@.len() && frames::used(pre_fa.map@, k / 512)
            && !pre.seats@.dom().contains(k / 512 * 4096) && k / 512 < frames::FRAME_COUNT
            ==> post.words@[k] == pre.words@[k]
}

/// What was a table stays one, and what became one was free before.
pub open spec fn tables_grown(pre: &PhysMem, pre_fa: &FrameAllocator, post: &PhysMem) -> bool {
    &&& seats_kept(pre, post)
    &&& forall|t: int| #[trigger] post.seats@.dom().contains(t) ==> pre.seats@.dom().contains(t)
        || !pre_fa.in_use(t) && t % 4096 == 0 && 0 <= t < frames::PHYS_LIMIT
}

/// Frames in use stay in use, and `n` fewer are free.
pub open spec fn frames_spent(pre: &FrameAllocator, post: &FrameAllocator, n: int) -> bool {
    &&& post.same_pool(pre)
    &&& post.available() == pre.available() - n
    &&& post.free == pre.free - n
    &&& forall|j: int|
        0 <= j < frames::FRAME_COUNT && #[trigger] frames::used(pre.map@, j) ==> frames::used(
            post.map@,
            j,
        )
}

/// One table at `f` was added below entry `i` of table `t`, with no effect on
/// any translation.
pub open spec fn grew(
    pre: &PhysMem,
    pre_fa: &FrameAllocator,
    post: &PhysMem,
    post_fa: &FrameAllocator,
    t: int,
    i: int,
    f: int,
) -> bool {
    &&& post.wf(post_fa)
    &&& frames::took(pre_fa, post_fa, f)
    &&& frames_spent(pre_fa, post_fa, 1)
    &&& linked(pre.words@, post.words@, pre.seats@, t, i, f)
    &&& post.seats@ == pre.seats@.insert(f, child_seat(pre.seats@[t], t, i))
    &&& tables_grown(pre, pre_fa, post)
    &&& data_kept(pre, pre_fa, post)
    &&& same_leaves(pre, post)
    &&& places_kept(pre.seats@, pre.words@, post.words@)
}

/// An empty table in a fresh frame, linked nowhere yet.
fn new_table(mem: &mut PhysMem, fa: &mut FrameAllocator) -> (r: Option<u64>)
    requires
        old(mem).wf(old(fa)),
    ensures
        final(mem).wf(final(fa)),
        final(mem).seats@ == old(mem).seats@,
        r is None <==> !old(fa).ready || old(fa).available() == 0,
        r is None ==> *final(mem) == *old(mem) && *final(fa) == *old(fa),
        r matches Some(f) ==> {
            &&& frames::took(old(fa), final(fa), f as int)
            &&& frames_spent(old(fa), final(fa), 1)
            &&& f / 8 + 512 <= final(mem).words@.len()
            &&& !old(mem).seats@.dom().contains(f as int)
            &&& final(mem).words@.len() == old(mem).words@.len()
            &&& forall|j: int| 0 <= j < 512 ==> #[trigger] entry(final(mem).words@, f as int, j) == 0
            &&& forall|k: int|
                0 <= k < old(mem).words@.len() && !(f / 8 <= k < f / 8 + 512)
                    ==> #[trigger] final(mem).words@[k] == old(mem).words@[k]
        },
{
    let f: u64 = match frames::alloc_frame(fa) {
        None => {
            return None;
        },
        Some(f) => f,
    };
    proof {
        assert(!frames::used(old(fa).map@, f as int / 4096));
        assert forall|j: int|
            0 <= j < frames::FRAME_COUNT && #[trigger] frames::used(
                old(fa).map@,
                j,
            ) implies frames::used(fa.map@, j) by {}
        assert forall|j: int|
            0 <= j < frames::FRAME_COUNT && !#[trigger] frames::used(fa.map@, j) implies (j + 1)
            * 512 <= mem.words@.len() by {
            assert(!frames::used(old(fa).map@, j));
        }
    }
    let base: usize = (f / 8) as usize;
    let ghost w0 = mem.words@;
    let mut i: usize = 0;
    while i < 512
        invariant
            i <= 512,
            base == f / 8,
            f % 4096 == 0,
            base + 512 <= w0.len(),
            mem.words@.len() == w0.len(),
            mem.seats@ == old(mem).seats@,
            forall|j: int| base <= j < base + i ==> #[trigger] mem.words@[j] == 0,
            forall|k: int|
                0 <= k < w0.len() && !(base <= k < base + i) ==> #[trigger] mem.words@[k] == w0[k],
        decreases 512 - i,
    {
        mem.words[base + i] = 0;
        i = i + 1;
    }
    proof {
        lemma_apart(w0, mem.words@, old(mem).seats@, f as int);
    }
    Some(f)
}

/// A change inside one frame that is no table leaves the tables alone.
#[verifier::spinoff_prover]
#[verifier::rlimit(40)]
pub proof fn lemma_apart(w0: Seq<u64>, w1: Seq<u64>, seats: Map<int, Seat>, f: int)
    requires
        tables_wf(w0, seats),
        w1.len() == w0.len(),
        f % 4096 == 0,
        f >= 0,
        !seats.dom().contains(f),
        forall|k: int|
            0 <= k < w0.len() && !(f / 8 <= k < f / 8 + 512) ==> #[trigger] w1[k] == w0[k],
    ensures
        tables_wf(w1, seats),
        forall|u: int, j: int|
            seats.dom().contains(u) && 0 <= j < 512 ==> #[trigger] entry(w1, u, j) == entry(
                w0,
                u,
                j,
            ),
        forall|r: int, v: int|
            is_root(seats, r) && 0 <= v < PAGES ==> #[trigger] leaf(w1, r, v) == leaf(w0, r, v),
        places_kept(seats, w0, w1),
{
    reveal(hangs);
    assert forall|u: int, j: int| seats.dom().contains(u) && 0 <= j < 512 implies #[trigger] entry(
        w1,
        u,
        j,
    ) == entry(w0, u, j) by {
        assert(is_table(w0, seats, u));
        assert(u != f);
    }
    assert forall|u: int| #[trigger] seats.dom().contains(u) implies is_table(w1, seats, u) by {
        assert(is_table(w0, seats, u));
    }
    assert forall|u: int, j: int|
        seats.dom().contains(u) && seats[u].level >= 2 && 0 <= j < 512 implies #[trigger] entry_ok(
        w1,
        seats,
        u,
        j,
    ) by {
        assert(entry_ok(w0, seats, u, j));
        assert(entry(w1, u, j) == entry(w0, u, j));
    }
    assert forall|r: int, v: int| is_root(seats, r) && 0 <= v < PAGES implies #[trigger] leaf(
        w1,
        r,
        v,
    ) == leaf(w0, r, v) by {
        lemma_page_split(v);
        lemma_path(w0, seats, r, v);
        let a = entry(w0, r, idx4(v));
        let b = entry(w0, addr(a), idx3(v));
        let c = entry(w0, addr(b), idx2(v));
        assert(entry(w1, r, idx4(v)) == a);
        if present(a) {
            assert(entry(w1, addr(a), idx3(v)) == b);
            if present(b) {
                assert(entry(w1, addr(b), idx2(v)) == c);
                if present(c) && !huge(c) {
                    assert(entry(w1, addr(c), idx1(v)) == entry(w0, addr(c), idx1(v)));
                }
            }
        }
    }
    assert forall|r: int, v: int| #![trigger pte_slot(w1, r, v)]
        is_root(seats, r) && 0 <= v < PAGES && pte_slot(w0, r, v) is Some implies pte_slot(w1, r, v)
        == pte_slot(w0, r, v) by {
        lemma_page_split(v);
        lemma_path(w0, seats, r, v);
        let a = entry(w0, r, idx4(v));
        let b = entry(w0, addr(a), idx3(v));
        assert(entry(w1, r, idx4(v)) == a);
        assert(entry(w1, addr(a), idx3(v)) == b);
        assert(entry(w1, addr(b), idx2(v)) == entry(w0, addr(b), idx2(v)));
    }
}

/// Link the fresh table `f`, already filled, below entry `i` of table `t`.
fn link(
    mem: &mut PhysMem,
    fa: &FrameAllocator,
    t: u64,
    i: usize,
    f: u64,
    Ghost(pre): Ghost<PhysMem>,
    Ghost(pre_fa): Ghost<FrameAllocator>,
)
    requires
        pre.wf(&pre_fa),
        old(mem).wf(fa),
        old(mem).seats@ == pre.seats@,
        frames::took(&pre_fa, fa, f as int),
        frames_spent(&pre_fa, fa, 1),
        is_table(pre.words@, pre.seats@, t as int),
        pre.seats@[t as int].level >= 2,
        i < 512,
        f / 8 + 512 <= old(mem).words@.len(),
        !pre.seats@.dom().contains(f as int),
        old(mem).words@.len() == pre.words@.len(),
        forall|k: int|
            0 <= k < pre.words@.len() && !(f / 8 <= k < f / 8 + 512)
                ==> #[trigger] old(mem).words@[k] == pre.words@[k],
        ({
            let e = entry(pre.words@, t as int, i as int);
            ||| !present(e) && forall|j: int|
                0 <= j < 512 ==> #[trigger] entry(old(mem).words@, f as int, j) == 0
            ||| present(e) && huge(e) && pre.seats@[t as int].level == 2 && forall|j: int|
                0 <= j < 512 ==> #[trigger] entry(old(mem).words@, f as int, j) == split_entry(e, j)
        }),
    ensures
        grew(&pre, &pre_fa, final(mem), fa, t as int, i as int, f as int),
        forall|j: int|
            0 <= j < 512 ==> #[trigger] entry(final(mem).words@, f as int, j) == entry(
                old(mem).words@,
                f as int,
                j,
            ),
{
    let ghost mid = *mem;
    let at: usize = (t / 8) as usize + i;
    mem.words[at] = f | PTE_PRESENT | PTE_WRITE | PTE_USER;
    proof {
        let s0 = pre.seats@;
        lemma_link_entry(f);
        lemma_link_words(
            pre.words@,
            mid.words@,
            mem.words@,
            s0,
            t as int,
            i as int,
            f as int,
            f | PTE_PRESENT | PTE_WRITE | PTE_USER,
        );
        assert(linked(pre.words@, mem.words@, s0, t as int, i as int, f as int));
        lemma_link(pre.words@, mem.words@, s0, t as int, i as int, f as int);
        mem.seats@ = s0.insert(f as int, child_seat(s0[t as int], t as int, i as int));
        lemma_link_frames(&pre, &pre_fa, mem, fa, t as int, i as int, f as int);
    }
}

/// What filling a fresh frame and writing one entry does to the words.
#[verifier::spinoff_prover]
#[verifier::rlimit(40)]
proof fn lemma_link_words(
    w0: Seq<u64>,
    w1: Seq<u64>,
    w2: Seq<u64>,
    seats: Map<int, Seat>,
    t: int,
    i: int,
    f: int,
    e: u64,
)
    requires
        tables_wf(w0, seats),
        is_table(w0, seats, t),
        0 <= i < 512,
        f % 4096 == 0,
        f >= 0,
        f / 8 + 512 <= w1.len(),
        !seats.dom().contains(f),
        w1.len() == w0.len(),
        forall|k: int|
            0 <= k < w0.len() && !(f / 8 <= k < f / 8 + 512) ==> #[trigger] w1[k] == w0[k],
        w2 == w1.update(t / 8 + i, e),
    ensures
        entry(w2, t, i) == e,
        forall|u: int, j: int|
            seats.dom().contains(u) && 0 <= j < 512 && !(u == t && j == i) ==> #[trigger] entry(
                w2,
                u,
                j,
            ) == entry(w0, u, j),
        forall|j: int| 0 <= j < 512 ==> #[trigger] entry(w2, f, j) == entry(w1, f, j),
        forall|k: int|
            0 <= k < w0.len() && !(f / 8 <= k < f / 8 + 512) && k != t / 8 + i ==> #[trigger] w2[k]
                == w0[k],
{
    assert forall|u: int, j: int|
        seats.dom().contains(u) && 0 <= j < 512 && !(u == t && j == i) implies #[trigger] entry(
        w2,
        u,
        j,
    ) == entry(w0, u, j) by {
        assert(is_table(w0, seats, u));
        assert(u != f);
    }
    assert(t != f);
}

/// What linking a fresh table does to frames and data.
proof fn lemma_link_frames(
    pre: &PhysMem,
    pre_fa: &FrameAllocator,
    post: &PhysMem,
    fa: &FrameAllocator,
    t: int,
    i: int,
    f: int,
)
    requires
        pre.wf(pre_fa),
        fa.wf(),
        frames::took(pre_fa, fa, f),
        frames_spent(pre_fa, fa, 1),
        linked(pre.words@, post.words@, pre.seats@, t, i, f),
        tables_wf(post.words@, post.seats@),
        post.seats@ == pre.seats@.insert(f, child_seat(pre.seats@[t], t, i)),
        forall|k: int|
            0 <= k < pre.words@.len() && !(f / 8 <= k < f / 8 + 512) && k != t / 8 + i
                ==> #[trigger] post.words@[k] == pre.words@[k],
    ensures
        post.wf(fa),
        tables_grown(pre, pre_fa, post),
        data_kept(pre, pre_fa, post),
{
    assert forall|u: int| #[trigger] post.seats@.dom().contains(u) implies fa.in_use(u) by {
        if u != f {
            assert(pre.seats@.dom().contains(u));
            assert(is_table(pre.words@, pre.seats@, u));
            assert(frames::used(pre_fa.map@, u / 4096));
        }
    }
    assert forall|j: int|
        0 <= j < frames::FRAME_COUNT && !#[trigger] frames::used(fa.map@, j) implies (j + 1) * 512
        <= post.words@.len() by {
        assert(!frames::used(pre_fa.map@, j));
    }
    assert forall|k: int| #![trigger post.words@[k]]
        0 <= k < pre.words@.len() && frames::used(pre_fa.map@, k / 512)
            && !pre.seats@.dom().contains(k / 512 * 4096) && k / 512
            < frames::FRAME_COUNT implies post.words@[k] == pre.words@[k] by {
        if f / 8 <= k < f / 8 + 512 {
            assert(k / 512 == f / 4096);
        }
        if k == t / 8 + i {
            assert(k / 512 * 4096 == t);
        }
    }
}

/// The table below entry `i` of table `t`, added if the entry is empty.
/// None when it is empty and no frame is left.
fn next_level(mem: &mut PhysMem, fa: &mut FrameAllocator, t: u64, i: usize) -> (r: Option<u64>)
    requires
        old(mem).wf(old(fa)),
        is_table(old(mem).words@, old(mem).seats@, t as int),
        old(mem).seats@[t as int].level >= 2,
        i < 512,
        present(entry(old(mem).words@, t as int, i as int)) ==> !huge(
            entry(old(mem).words@, t as int, i as int),
        ),
    ensures
        final(mem).wf(final(fa)),
        present(entry(old(mem).words@, t as int, i as int)) ==> r == Some(
            (entry(old(mem).words@, t as int, i as int) & ADDR_MASK),
        ) && *final(mem) == *old(mem) && *final(fa) == *old(fa),
        !present(entry(old(mem).words@, t as int, i as int)) ==> {
            &&& r is None <==> !old(fa).ready || old(fa).available() == 0
            &&& r is None ==> *final(mem) == *old(mem) && *final(fa) == *old(fa)
            &&& r matches Some(f) ==> {
                &&& grew(old(mem), old(fa), final(mem), final(fa), t as int, i as int, f as int)
                &&& forall|j: int|
                    0 <= j < 512 ==> #[trigger] entry(final(mem).words@, f as int, j) == 0
            }
        },
{
    let e: u64 = read_entry(mem, t, i);
    if e & PTE_PRESENT != 0 {
        return Some(e & ADDR_MASK);
    }
    let ghost pre = *mem;
    let ghost pre_fa = *fa;
    match new_table(mem, fa) {
        None => None,
        Some(f) => {
            link(mem, fa, t, i, f, Ghost(pre), Ghost(pre_fa));
            Some(f)
        },
    }
}

/// Cut the 2 MiB leaf in entry `i` of table `t` into 512 pages.
#[verifier::spinoff_prover]
#[verifier::rlimit(40)]
fn split_huge(mem: &mut PhysMem, fa: &mut FrameAllocator, t: u64, i: usize) -> (r: Option<u64>)
    requires
        old(mem).wf(old(fa)),
        is_table(old(mem).words@, old(mem).seats@, t as int),
        old(mem).seats@[t as int].level == 2,
        i < 512,
        present(entry(old(mem).words@, t as int, i as int)),
        huge(entry(old(mem).words@, t as int, i as int)),
    ensures
        final(mem).wf(final(fa)),
        r is None <==> !old(fa).ready || old(fa).available() == 0,
        r is None ==> *final(mem) == *old(mem) && *final(fa) == *old(fa),
        r matches Some(f) ==> grew(
            old(mem),
            old(fa),
            final(mem),
            final(fa),
            t as int,
            i as int,
            f as int,
        ),
{
    let pde: u64 = read_entry(mem, t, i);
    let ghost pre = *mem;
    let ghost pre_fa = *fa;
    let f: u64 = match new_table(mem, fa) {
        None => {
            return None;
        },
        Some(f) => f,
    };
    let huge_pa: u64 = pde & ADDR_MASK;
    let huge_flags: u64 = pde & !ADDR_MASK & !PTE_HUGE;
    proof {
        lemma_mask(pde);
    }
    let base: usize = (f / 8) as usize;
    let ghost w1 = mem.words@;
    let mut k: usize = 0;
    while k < 512
        invariant
            k <= 512,
            base == f / 8,
            base + 512 <= mem.words@.len(),
            f % 4096 == 0,
            mem.words@.len() == w1.len(),
            mem.seats@ == pre.seats@,
            huge_pa == addr(pde),
            huge_pa <= 0x000F_FFFF_FFFF_F000,
            huge_flags == pde & !ADDR_MASK & !PTE_HUGE,
            forall|j: int| 0 <= j < k ==> #[trigger] mem.words@[base + j] == split_entry(pde, j),
            forall|j: int|
                0 <= j < w1.len() && !(base <= j < base + 512) ==> #[trigger] mem.words@[j]
                    == w1[j],
        decreases 512 - k,
    {
        mem.words[base + k] = (huge_pa + k as u64 * PAGE) | huge_flags;
        k = k + 1;
    }
    proof {
        lemma_apart(w1, mem.words@, pre.seats@, f as int);
        assert forall|j: int| 0 <= j < 512 implies #[trigger] entry(mem.words@, f as int, j)
            == split_entry(pde, j) by {
            assert(mem.words@[base + j] == split_entry(pde, j));
        }
    }
    link(mem, fa, t, i, f, Ghost(pre), Ghost(pre_fa));
    Some(f)
}

/// The leaf that an entry word makes: nothing, if it is not present.
pub open spec fn as_leaf(e: u64) -> Option<u64> {
    if present(e) {
        Some(e)
    } else {
        None
    }
}

/// `n` frames can be had.
pub open spec fn can_take(fa: &FrameAllocator, n: int) -> bool {
    n == 0 || fa.ready && n <= fa.available()
}

/// `n` tables were added, with no effect on any translation.
pub open spec fn stepped(
    pre: &PhysMem,
    pre_fa: &FrameAllocator,
    post: &PhysMem,
    post_fa: &FrameAllocator,
    n: int,
) -> bool {
    &&& post.wf(post_fa)
    &&& tables_grown(pre, pre_fa, post)
    &&& data_kept(pre, pre_fa, post)
    &&& frames_spent(pre_fa, post_fa, n)
    &&& same_leaves(pre, post)
    &&& places_kept(pre.seats@, pre.words@, post.words@)
}

/// Page `v` of `root` now has the entry `w`, the tables on the way to it were
/// added, and nothing else changed.
pub open spec fn mapped(
    pre: &PhysMem,
    pre_fa: &FrameAllocator,
    post: &PhysMem,
    post_fa: &FrameAllocator,
    root: int,
    v: int,
    w: u64,
) -> bool {
    &&& post.wf(post_fa)
    &&& tables_grown(pre, pre_fa, post)
    &&& data_kept(pre, pre_fa, post)
    &&& frames_spent(pre_fa, post_fa, missing(pre.words@, root, v))
    &&& leaf(post.words@, root, v) == as_leaf(w)
    &&& pte_at(post.words@, root, v) == as_leaf(w)
    &&& missing(post.words@, root, v) == 0
    &&& needs::nearer(pre, post, root, v, 0)
    &&& same_leaves_but(pre, post, root, v)
    &&& places_kept(pre.seats@, pre.words@, post.words@)
}

/// The frames ran out while tables were added: all that were left are spent.
pub open spec fn ran_out(
    pre: &PhysMem,
    pre_fa: &FrameAllocator,
    post: &PhysMem,
    post_fa: &FrameAllocator,
) -> bool {
    stepped(
        pre,
        pre_fa,
        post,
        post_fa,
        if pre_fa.ready {
            pre_fa.available()
        } else {
            0
        },
    )
}

/// Adding no table is a step.
proof fn lemma_step_zero(m: &PhysMem, fa: &FrameAllocator)
    requires
        m.wf(fa),
    ensures
        stepped(m, fa, m, fa, 0),
{
}

/// The tables that were added belong to root `who`.
pub open spec fn new_tables_of(pre: &PhysMem, post: &PhysMem, who: int) -> bool {
    forall|t: int| #[trigger] post.seats@.dom().contains(t) && !pre.seats@.dom().contains(t)
        ==> post.seats@[t].owner == who
}

/// The tables that were added belong to root `who`, and every frame that was
/// taken is one of them.
#[verifier::opaque]
pub open spec fn grown_for(
    pre: &PhysMem,
    pre_fa: &FrameAllocator,
    post: &PhysMem,
    post_fa: &FrameAllocator,
    who: int,
) -> bool {
    &&& new_tables_of(pre, post, who)
    &&& forall|j: int|
        0 <= j < frames::FRAME_COUNT && #[trigger] frames::used(post_fa.map@, j) && !frames::used(
            pre_fa.map@,
            j,
        ) ==> post.seats@.dom().contains(j * 4096)
}

pub proof fn lemma_grown_tables(
    m0: &PhysMem,
    f0: &FrameAllocator,
    m1: &PhysMem,
    f1: &FrameAllocator,
    who: int,
)
    requires
        grown_for(m0, f0, m1, f1, who),
    ensures
        new_tables_of(m0, m1, who),
{
    reveal(grown_for);
}

pub proof fn lemma_grown_same(m0: &PhysMem, f0: &FrameAllocator, m1: &PhysMem, who: int)
    requires
        m1.seats@ == m0.seats@,
    ensures
        grown_for(m0, f0, m1, f0, who),
{
    reveal(grown_for);
}

proof fn lemma_grown_grew(
    m0: &PhysMem,
    f0: &FrameAllocator,
    m1: &PhysMem,
    f1: &FrameAllocator,
    t: int,
    i: int,
    f: int,
)
    requires
        grew(m0, f0, m1, f1, t, i, f),
    ensures
        grown_for(m0, f0, m1, f1, child_seat(m0.seats@[t], t, i).owner),
{
    reveal(grown_for);
    assert forall|j: int|
        0 <= j < frames::FRAME_COUNT && #[trigger] frames::used(f1.map@, j) && !frames::used(
            f0.map@,
            j,
        ) implies m1.seats@.dom().contains(j * 4096) by {
        assert(j == f / 4096);
    }
}

pub proof fn lemma_grown_grown(
    m0: &PhysMem,
    f0: &FrameAllocator,
    m1: &PhysMem,
    f1: &FrameAllocator,
    m2: &PhysMem,
    f2: &FrameAllocator,
    who: int,
)
    requires
        grown_for(m0, f0, m1, f1, who),
        grown_for(m1, f1, m2, f2, who),
        seats_kept(m1, m2),
    ensures
        grown_for(m0, f0, m2, f2, who),
{
    reveal(grown_for);
    assert forall|j: int|
        0 <= j < frames::FRAME_COUNT && #[trigger] frames::used(f2.map@, j) && !frames::used(
            f0.map@,
            j,
        ) implies m2.seats@.dom().contains(j * 4096) by {
        if frames::used(f1.map@, j) {
            assert(m1.seats@.dom().contains(j * 4096));
        }
    }
}

/// Two steps make a step.
proof fn lemma_step_step(
    m0: &PhysMem,
    f0: &FrameAllocator,
    m1: &PhysMem,
    f1: &FrameAllocator,
    m2: &PhysMem,
    f2: &FrameAllocator,
    n: int,
    k: int,
)
    requires
        m0.wf(f0),
        stepped(m0, f0, m1, f1, n),
        stepped(m1, f1, m2, f2, k),
    ensures
        stepped(m0, f0, m2, f2, n + k),
{
    lemma_kept_kept(m0, f0, m1, f1, m2, f2);
    assert forall|r: int, w: int| #![trigger leaf(m2.words@, r, w)]
        is_root(m0.seats@, r) && 0 <= w < PAGES implies leaf(m2.words@, r, w) == leaf(
        m0.words@,
        r,
        w,
    ) by {
        assert(m1.seats@.dom().contains(r));
        assert(leaf(m1.words@, r, w) == leaf(m0.words@, r, w));
    }
    lemma_places_places(m0, m1, m2);
}

/// Keeping places twice.
pub proof fn lemma_places_places(m0: &PhysMem, m1: &PhysMem, m2: &PhysMem)
    requires
        seats_kept(m0, m1),
        places_kept(m0.seats@, m0.words@, m1.words@),
        places_kept(m1.seats@, m1.words@, m2.words@),
    ensures
        places_kept(m0.seats@, m0.words@, m2.words@),
{
    assert forall|r: int, v: int| #![trigger pte_slot(m2.words@, r, v)]
        is_root(m0.seats@, r) && 0 <= v < PAGES && pte_slot(
            m0.words@,
            r,
            v,
        ) is Some implies pte_slot(m2.words@, r, v) == pte_slot(m0.words@, r, v) by {
        assert(m1.seats@.dom().contains(r));
        assert(pte_slot(m1.words@, r, v) == pte_slot(m0.words@, r, v));
    }
}

/// Growing tables twice, keeping data twice and spending frames twice.
pub proof fn lemma_kept_kept(
    m0: &PhysMem,
    f0: &FrameAllocator,
    m1: &PhysMem,
    f1: &FrameAllocator,
    m2: &PhysMem,
    f2: &FrameAllocator,
)
    requires
        m0.wf(f0),
        tables_grown(m0, f0, m1),
        data_kept(m0, f0, m1),
        tables_grown(m1, f1, m2),
        data_kept(m1, f1, m2),
        forall|j: int|
            0 <= j < frames::FRAME_COUNT && #[trigger] frames::used(f0.map@, j) ==> frames::used(
                f1.map@,
                j,
            ),
        forall|j: int|
            0 <= j < frames::FRAME_COUNT && #[trigger] frames::used(f1.map@, j) ==> frames::used(
                f2.map@,
                j,
            ),
    ensures
        tables_grown(m0, f0, m2),
        data_kept(m0, f0, m2),
        forall|j: int|
            0 <= j < frames::FRAME_COUNT && #[trigger] frames::used(f0.map@, j) ==> frames::used(
                f2.map@,
                j,
            ),
{
    assert forall|t: int| #[trigger] m0.seats@.dom().contains(t) implies m2.seats@.dom().contains(
        t,
    ) && m2.seats@[t] == m0.seats@[t] by {
        assert(m1.seats@.dom().contains(t));
    }
    assert forall|t: int| #[trigger] m2.seats@.dom().contains(t) implies m0.seats@.dom().contains(t)
        || !f0.in_use(t) && t % 4096 == 0 && 0 <= t < frames::PHYS_LIMIT by {
        if m1.seats@.dom().contains(t) {
        } else {
            assert(!frames::used(f1.map@, t / 4096));
            if frames::used(f0.map@, t / 4096) {
                assert(frames::used(f1.map@, t / 4096));
            }
        }
    }
    assert forall|k: int| #![trigger m2.words@[k]]
        0 <= k < m0.words@.len() && frames::used(f0.map@, k / 512) && !m0.seats@.dom().contains(
            k / 512 * 4096,
        ) && k / 512 < frames::FRAME_COUNT implies m2.words@[k] == m0.words@[k] by {
        assert(m1.words@[k] == m0.words@[k]);
        assert(frames::used(f1.map@, k / 512));
        assert((k / 512 * 4096) / 4096 == k / 512);
        if m1.seats@.dom().contains(k / 512 * 4096) {
            assert(!f0.in_use(k / 512 * 4096));
        }
    }
}

/// A word of a frame that is a table: where it stands.
#[verifier::spinoff_prover]
#[verifier::rlimit(40)]
proof fn lemma_write_entry(
    m0: &PhysMem,
    fa: &FrameAllocator,
    m1: &PhysMem,
    t: int,
    i: int,
    w: u64,
)
    requires
        m0.wf(fa),
        is_table(m0.words@, m0.seats@, t),
        0 <= i < 512,
        m1.words@ == m0.words@.update(t / 8 + i, w),
        m1.seats@ == m0.seats@,
    ensures
        entry(m1.words@, t, i) == w,
        forall|u: int, j: int|
            m0.seats@.dom().contains(u) && 0 <= j < 512 && !(u == t && j == i) ==> #[trigger] entry(
                m1.words@,
                u,
                j,
            ) == entry(m0.words@, u, j),
        data_kept(m0, fa, m1),
        tables_grown(m0, fa, m1),
{
    assert forall|u: int, j: int|
        m0.seats@.dom().contains(u) && 0 <= j < 512 && !(u == t && j == i) implies #[trigger] entry(
        m1.words@,
        u,
        j,
    ) == entry(m0.words@, u, j) by {
        assert(is_table(m0.words@, m0.seats@, u));
    }
    assert forall|k: int| #![trigger m1.words@[k]]
        0 <= k < m0.words@.len() && frames::used(fa.map@, k / 512) && !m0.seats@.dom().contains(
            k / 512 * 4096,
        ) && k / 512 < frames::FRAME_COUNT implies m1.words@[k] == m0.words@[k] by {
        if k == t / 8 + i {
            assert(k / 512 * 4096 == t);
        }
    }
}

/// The tables from `root` down to the second level of `va`, added where they
/// are missing. None if the frames run out.
fn reach_pd(mem: &mut PhysMem, fa: &mut FrameAllocator, root: u64, va: u64) -> (r: Option<u64>)
    requires
        old(mem).wf(old(fa)),
        is_root(old(mem).seats@, root as int),
    ensures
        r is Some == can_take(
            old(fa),
            missing_2m(old(mem).words@, root as int, page_no(va as int)),
        ),
        r is None ==> ran_out(old(mem), old(fa), final(mem), final(fa)),
        grown_for(
            old(mem),
            old(fa),
            final(mem),
            final(fa),
            owner_of(old(mem).seats@[root as int], page_no(va as int)),
        ),
        r matches Some(pd) ==> {
            let v = page_no(va as int);
            let n = missing_2m(old(mem).words@, root as int, v);
            let a = entry(final(mem).words@, root as int, idx4(v));
            let b = entry(final(mem).words@, addr(a), idx3(v));
            let c = entry(final(mem).words@, addr(b), idx2(v));
            &&& stepped(old(mem), old(fa), final(mem), final(fa), n)
            &&& present(a) && present(b) && addr(b) == pd
            &&& n > 0 ==> c == 0
            &&& n > 0 && editable(old(mem).seats@, root as int, v) ==> needs::nearer(
                old(mem),
                final(mem),
                root as int,
                v,
                1,
            )
            &&& n == 0 ==> *final(mem) == *old(mem) && *final(fa) == *old(fa)
        },
{
    let ghost v = page_no(va as int);
    let ghost m0 = *mem;
    let ghost f0 = *fa;
    proof {
        lemma_page_split(v);
        lemma_path(m0.words@, m0.seats@, root as int, v);
        lemma_step_zero(&m0, &f0);
        frames::lemma_free_bounds(f0.map@, frames::FRAME_COUNT as int);
        lemma_mask(0);
        lemma_grown_same(&m0, &f0, &m0, owner_of(m0.seats@[root as int], v));
    }
    let pdpt: u64 = match next_level(mem, fa, root, pml4_idx(va)) {
        Some(p) => p,
        None => {
            return None;
        },
    };
    let ghost m1 = *mem;
    let ghost f1 = *fa;
    proof {
        assert(stepped(&m0, &f0, &m1, &f1, f0.available() - f1.available()));
        if !present(entry(m0.words@, root as int, idx4(v))) {
            lemma_grown_grew(&m0, &f0, &m1, &f1, root as int, idx4(v), pdpt as int);
            if editable(m0.seats@, root as int, v) {
                needs::lemma_nearer_grew(
                    &m0,
                    &f0,
                    &m1,
                    &f1,
                    root as int,
                    v,
                    root as int,
                    idx4(v),
                    pdpt as int,
                );
            }
        }
        lemma_path(m1.words@, m1.seats@, root as int, v);
        frames::lemma_free_bounds(f1.map@, frames::FRAME_COUNT as int);
        lemma_step_zero(&m1, &f1);
    }
    let pd: u64 = match next_level(mem, fa, pdpt, pdpt_idx(va)) {
        Some(p) => p,
        None => {
            return None;
        },
    };
    proof {
        lemma_path(mem.words@, mem.seats@, root as int, v);
        let who = owner_of(m0.seats@[root as int], v);
        lemma_grown_same(&m1, &f1, &m1, who);
        if !present(entry(m1.words@, pdpt as int, idx3(v))) {
            lemma_grown_grew(&m1, &f1, mem, fa, pdpt as int, idx3(v), pd as int);
            if editable(m0.seats@, root as int, v) {
                needs::lemma_nearer_grew(
                    &m1,
                    &f1,
                    mem,
                    fa,
                    root as int,
                    v,
                    pdpt as int,
                    idx3(v),
                    pd as int,
                );
                if !present(entry(m0.words@, root as int, idx4(v))) {
                    needs::lemma_nearer_nearer(&m0, &m1, mem, root as int, v, 2, 1);
                }
            }
        }
        lemma_grown_grown(&m0, &f0, &m1, &f1, mem, fa, who);
        assert(stepped(&m1, &f1, mem, fa, f1.available() - fa.available()));
        lemma_step_step(
            &m0,
            &f0,
            &m1,
            &f1,
            mem,
            fa,
            f0.available() - f1.available(),
            f1.available() - fa.available(),
        );
    }
    Some(pd)
}

/// The tables from `root` down to the last level of `va`, added where they
/// are missing; a 2 MiB leaf in the way is cut up. None if the frames run out.
fn reach_pt(mem: &mut PhysMem, fa: &mut FrameAllocator, root: u64, va: u64) -> (r: Option<u64>)
    requires
        old(mem).wf(old(fa)),
        is_root(old(mem).seats@, root as int),
    ensures
        r is Some == can_take(old(fa), missing(old(mem).words@, root as int, page_no(va as int))),
        r is None ==> ran_out(old(mem), old(fa), final(mem), final(fa)),
        grown_for(
            old(mem),
            old(fa),
            final(mem),
            final(fa),
            owner_of(old(mem).seats@[root as int], page_no(va as int)),
        ),
        r matches Some(pt) ==> {
            let v = page_no(va as int);
            let a = entry(final(mem).words@, root as int, idx4(v));
            let b = entry(final(mem).words@, addr(a), idx3(v));
            let c = entry(final(mem).words@, addr(b), idx2(v));
            &&& stepped(
                old(mem),
                old(fa),
                final(mem),
                final(fa),
                missing(old(mem).words@, root as int, v),
            )
            &&& present(a) && present(b) && present(c) && !huge(c) && addr(c) == pt
            &&& editable(old(mem).seats@, root as int, v) ==> needs::nearer(
                old(mem),
                final(mem),
                root as int,
                v,
                0,
            )
        },
{
    let ghost v = page_no(va as int);
    let ghost m0 = *mem;
    let ghost f0 = *fa;
    let ghost n2 = missing_2m(mem.words@, root as int, v);
    proof {
        lemma_page_split(v);
        lemma_path(m0.words@, m0.seats@, root as int, v);
        lemma_mask(0);
        frames::lemma_free_bounds(f0.map@, frames::FRAME_COUNT as int);
    }
    let pd: u64 = match reach_pd(mem, fa, root, va) {
        Some(p) => p,
        None => {
            return None;
        },
    };
    let ghost m2 = *mem;
    let ghost f2 = *fa;
    proof {
        lemma_path(m2.words@, m2.seats@, root as int, v);
        lemma_step_zero(&m2, &f2);
        frames::lemma_free_bounds(f2.map@, frames::FRAME_COUNT as int);
    }
    let pde: u64 = read_entry(mem, pd, pd_idx(va));
    let got: Option<u64> = if pde & PTE_PRESENT != 0 && pde & PTE_HUGE != 0 {
        split_huge(mem, fa, pd, pd_idx(va))
    } else {
        next_level(mem, fa, pd, pd_idx(va))
    };
    match got {
        Some(pt) => {
            proof {
                lemma_path(mem.words@, mem.seats@, root as int, v);
                let who = owner_of(m0.seats@[root as int], v);
                lemma_grown_same(&m2, &f2, &m2, who);
                if !(present(pde) && !huge(pde)) {
                    lemma_grown_grew(&m2, &f2, mem, fa, pd as int, idx2(v), pt as int);
                    if editable(m0.seats@, root as int, v) {
                        needs::lemma_nearer_grew(
                            &m2,
                            &f2,
                            mem,
                            fa,
                            root as int,
                            v,
                            pd as int,
                            idx2(v),
                            pt as int,
                        );
                        if n2 > 0 {
                            needs::lemma_nearer_nearer(&m0, &m2, mem, root as int, v, 1, 0);
                        }
                    }
                } else {
                    needs::lemma_near(&m0, root as int, v, 0);
                }
                lemma_grown_grown(&m0, &f0, &m2, &f2, mem, fa, who);
                assert(stepped(&m2, &f2, mem, fa, f2.available() - fa.available()));
                lemma_step_step(&m0, &f0, &m2, &f2, mem, fa, n2, f2.available() - fa.available());
            }
            Some(pt)
        },
        None => None,
    }
}

/// What [`map_page_4k`] answers and does.
pub open spec fn page_mapped(
    mem0: &PhysMem,
    mem1: &PhysMem,
    fa0: &FrameAllocator,
    fa1: &FrameAllocator,
    root: u64,
    va: u64,
    pa: u64,
    flags: u64,
    r: bool,
) -> bool {
    &&& r == can_take(
        fa0,
        missing(mem0.words@, root as int, page_no(va as int)),
    )
    &&& r ==> mapped(
        mem0,
        fa0,
        mem1,
        fa1,
        root as int,
        page_no(va as int),
        (pa & ADDR_MASK) | flags,
    )
    &&& !r ==> ran_out(mem0, fa0, mem1, fa1)
    &&& grown_for(mem0, fa0, mem1, fa1, root as int)
}

/// Map the page of `va` under `root` to the frame of `pa`, with `flags`; a
/// 2 MiB leaf in the way is cut up first. False if the frames run out.
pub fn map_page_4k(
    mem: &mut PhysMem,
    fa: &mut FrameAllocator,
    root: u64,
    va: u64,
    pa: u64,
    flags: u64,
) -> (r: bool)
    requires
        old(mem).wf(old(fa)),
        editable(old(mem).seats@, root as int, page_no(va as int)),
    ensures
        page_mapped(old(mem), final(mem), old(fa), final(fa), root, va, pa, flags, r),
{
    let ghost v = page_no(va as int);
    let ghost m0 = *mem;
    let ghost f0 = *fa;
    proof {
        lemma_page_split(v);
    }
    let pt: u64 = match reach_pt(mem, fa, root, va) {
        Some(p) => p,
        None => {
            return false;
        },
    };
    let ghost m3 = *mem;
    let ghost f3 = *fa;
    proof {
        lemma_path(m3.words@, m3.seats@, root as int, v);
    }
    let w: u64 = (pa & ADDR_MASK) | flags;
    let at: usize = (pt / 8) as usize + pt_idx(va);
    mem.words[at] = w;
    proof {
        assert(mem.words@ == m3.words@.update(pt as int / 8 + idx1(v), w));
        lemma_write_entry(&m3, &f3, mem, pt as int, idx1(v), w);
        lemma_leaf_write(m3.words@, mem.words@, m3.seats@, pt as int, idx1(v));
        needs::lemma_nearer_written(&m0, &m3, mem, root as int, v);
        lemma_kept_kept(&m0, &f0, &m3, &f3, mem, &f3);
        lemma_places_places(&m0, &m3, mem);
        lemma_grown_same(&m3, &f3, mem, root as int);
        lemma_grown_grown(&m0, &f0, &m3, &f3, mem, &f3, root as int);
        lemma_path(mem.words@, mem.seats@, root as int, v);
        assert forall|r: int, x: int| #![trigger leaf(mem.words@, r, x)]
            is_root(m0.seats@, r) && 0 <= x < PAGES && !(x == v && owner_of(m0.seats@[r], x)
                == root) implies leaf(mem.words@, r, x) == leaf(m0.words@, r, x) by {
            assert(m3.seats@.dom().contains(r));
            assert(leaf(m3.words@, r, x) == leaf(m0.words@, r, x));
        }
    }
    true
}

/// How many tables a mapping of the page of `va` would add.
pub fn tables_missing(mem: &PhysMem, root: u64, va: u64) -> (r: u64)
    requires
        tables_wf(mem.words@, mem.seats@),
        is_root(mem.seats@, root as int),
    ensures
        r == missing(mem.words@, root as int, page_no(va as int)),
{
    let ghost v = page_no(va as int);
    proof {
        lemma_path(mem.words@, mem.seats@, root as int, v);
        lemma_page_split(v);
    }
    let e4: u64 = read_entry(mem, root, pml4_idx(va));
    if e4 & PTE_PRESENT == 0 {
        return 3;
    }
    let e3: u64 = read_entry(mem, e4 & ADDR_MASK, pdpt_idx(va));
    if e3 & PTE_PRESENT == 0 {
        return 2;
    }
    let e2: u64 = read_entry(mem, e3 & ADDR_MASK, pd_idx(va));
    if e2 & PTE_PRESENT == 0 || e2 & PTE_HUGE != 0 {
        1
    } else {
        0
    }
}

/// The flags of a user page.
pub open spec fn user_flags(write: bool, exec: bool) -> u64 {
    if write && exec {
        PTE_PRESENT | PTE_USER | PTE_WRITE
    } else if write {
        PTE_PRESENT | PTE_USER | PTE_WRITE | PTE_NX
    } else if exec {
        PTE_PRESENT | PTE_USER
    } else {
        PTE_PRESENT | PTE_USER | PTE_NX
    }
}

/// The entry word of a user page at `phys`.
pub open spec fn user_entry(phys: u64, write: bool, exec: bool) -> u64 {
    (phys & ADDR_MASK) | user_flags(write, exec)
}

/// A user page is present, belongs to user mode, has the permissions asked
/// for, and keeps its frame's address.
pub proof fn lemma_user_entry(phys: u64)
    by (bit_vector)
    requires
        phys % 4096 == 0,
        phys < 0x10_0000_0000_0000u64,
    ensures
        ((phys & 0x000F_FFFF_FFFF_F000u64) | (1u64 | 4u64)) & 1 != 0,
        ((phys & 0x000F_FFFF_FFFF_F000u64) | (1u64 | 4u64)) & 2 == 0,
        ((phys & 0x000F_FFFF_FFFF_F000u64) | (1u64 | 4u64)) & 4 != 0,
        ((phys & 0x000F_FFFF_FFFF_F000u64) | (1u64 | 4u64)) & 0x8000_0000_0000_0000u64 == 0,
        ((phys & 0x000F_FFFF_FFFF_F000u64) | (1u64 | 4u64)) & 0x000F_FFFF_FFFF_F000u64 == phys,
        ((phys & 0x000F_FFFF_FFFF_F000u64) | (1u64 | 4u64 | 0x8000_0000_0000_0000u64)) & 1 != 0,
        ((phys & 0x000F_FFFF_FFFF_F000u64) | (1u64 | 4u64 | 0x8000_0000_0000_0000u64)) & 2 == 0,
        ((phys & 0x000F_FFFF_FFFF_F000u64) | (1u64 | 4u64 | 0x8000_0000_0000_0000u64)) & 4 != 0,
        ((phys & 0x000F_FFFF_FFFF_F000u64) | (1u64 | 4u64 | 0x8000_0000_0000_0000u64))
            & 0x8000_0000_0000_0000u64 != 0,
        ((phys & 0x000F_FFFF_FFFF_F000u64) | (1u64 | 4u64 | 0x8000_0000_0000_0000u64))
            & 0x000F_FFFF_FFFF_F000u64 == phys,
        ((phys & 0x000F_FFFF_FFFF_F000u64) | (1u64 | 4u64 | 2u64 | 0x8000_0000_0000_0000u64)) & 1
            != 0,
        ((phys & 0x000F_FFFF_FFFF_F000u64) | (1u64 | 4u64 | 2u64 | 0x8000_0000_0000_0000u64)) & 2
            != 0,
        ((phys & 0x000F_FFFF_FFFF_F000u64) | (1u64 | 4u64 | 2u64 | 0x8000_0000_0000_0000u64)) & 4
            != 0,
        ((phys & 0x000F_FFFF_FFFF_F000u64) | (1u64 | 4u64 | 2u64 | 0x8000_0000_0000_0000u64))
            & 0x8000_0000_0000_0000u64 != 0,
        ((phys & 0x000F_FFFF_FFFF_F000u64) | (1u64 | 4u64 | 2u64 | 0x8000_0000_0000_0000u64))
            & 0x000F_FFFF_FFFF_F000u64 == phys,
{
}

/// A user page is present, wherever it lies.
pub proof fn lemma_user_present(phys: u64, write: bool, exec: bool)
    ensures
        present(user_entry(phys, write, exec)),
{
    assert(((phys & 0x000F_FFFF_FFFF_F000u64) | (1u64 | 4u64)) & 1 != 0) by (bit_vector);
    assert(((phys & 0x000F_FFFF_FFFF_F000u64) | (1u64 | 4u64 | 2u64)) & 1 != 0) by (bit_vector);
    assert(((phys & 0x000F_FFFF_FFFF_F000u64) | (1u64 | 4u64 | 0x8000_0000_0000_0000u64)) & 1 != 0)
        by (bit_vector);
    assert(((phys & 0x000F_FFFF_FFFF_F000u64) | (1u64 | 4u64 | 2u64 | 0x8000_0000_0000_0000u64)) & 1
        != 0) by (bit_vector);
}

/// Every user page is mapped writable or executable, never both, at the frame
/// it was asked for.
pub proof fn law_user_pages_w_xor_x(phys: u64, write: bool, exec: bool)
    requires
        phys % 4096 == 0,
        phys < 0x10_0000_0000_0000u64,
        !(write && exec),
    ensures
        present(user_entry(phys, write, exec)),
        user_entry(phys, write, exec) & PTE_USER != 0,
        writable(user_entry(phys, write, exec)) == write,
        executable(user_entry(phys, write, exec)) == exec,
        addr(user_entry(phys, write, exec)) == phys,
{
    lemma_user_entry(phys);
}

/// What a request for a user page is refused with, before any table is
/// touched.
pub open spec fn user_refusal(va: u64, phys: u64, write: bool, exec: bool) -> Option<&'static str> {
    if va % 4096 != 0 || phys % 4096 != 0 {
        Some("user map: unaligned va/phys")
    } else if va >= USER_HALF_LIMIT {
        Some("user map: va not in canonical lower half")
    } else if write && exec {
        Some("user map: W^X violation (writable+exec)")
    } else {
        None
    }
}

/// What [`map_user_page_4k`] answers and does.
pub open spec fn user_page_mapped(
    mem0: &PhysMem,
    mem1: &PhysMem,
    fa0: &FrameAllocator,
    fa1: &FrameAllocator,
    pml4_phys: u64,
    va: u64,
    phys: u64,
    writable: bool,
    exec: bool,
    r: Result<(), &'static str>,
) -> bool {
    &&& grown_for(mem0, fa0, mem1, fa1, pml4_phys as int)
    &&& ({
        let v = page_no(va as int);
        let need = missing(mem0.words@, pml4_phys as int, v);
        match user_refusal(va, phys, writable, exec) {
            Some(e) => r == Err::<(), &'static str>(e) && *mem1 == *mem0 && *fa1
                == *fa0,
            None => if can_take(fa0, need) {
                &&& r == Ok::<(), &'static str>(())
                &&& mapped(
                    mem0,
                    fa0,
                    mem1,
                    fa1,
                    pml4_phys as int,
                    v,
                    user_entry(phys, writable, exec),
                )
            } else {
                &&& r == Err::<(), &'static str>("frames exhausted (window map)")
                &&& ran_out(mem0, fa0, mem1, fa1)
            },
        }
    })
}

/// Map one page of the user half. The last error means that the frames ran
/// out under the tables; the kernel stops on it.
pub fn map_user_page_4k(
    mem: &mut PhysMem,
    fa: &mut FrameAllocator,
    pml4_phys: u64,
    va: u64,
    phys: u64,
    writable: bool,
    exec: bool,
) -> (r: Result<(), &'static str>)
    requires
        old(mem).wf(old(fa)),
        is_root(old(mem).seats@, pml4_phys as int),
    ensures
        user_page_mapped(old(mem), final(mem), old(fa), final(fa), pml4_phys, va, phys, writable, exec, r),
{
    proof {
        lemma_grown_same(mem, fa, mem, pml4_phys as int);
    }
    if va % PAGE != 0 || phys % PAGE != 0 {
        return Err("user map: unaligned va/phys");
    }
    if va >= USER_HALF_LIMIT {
        return Err("user map: va not in canonical lower half");
    }
    if writable && exec {
        return Err("user map: W^X violation (writable+exec)");
    }
    let flags: u64 = if writable {
        PTE_PRESENT | PTE_USER | PTE_WRITE | PTE_NX
    } else if exec {
        PTE_PRESENT | PTE_USER
    } else {
        PTE_PRESENT | PTE_USER | PTE_NX
    };
    proof {
        let v = page_no(va as int);
        assert(idx4(v) < 256);
        assert(is_table(mem.words@, mem.seats@, pml4_phys as int));
    }
    if map_page_4k(mem, fa, pml4_phys, va, phys, flags) {
        Ok(())
    } else {
        Err("frames exhausted (window map)")
    }
}

/// The entries that the walk of page `v` under `r` meets, level by level,
/// with zero where it does not get.
pub open spec fn slots(words: Seq<u64>, r: int, v: int) -> (u64, u64, u64, u64) {
    let a = entry(words, r, idx4(v));
    let b = if present(a) {
        entry(words, addr(a), idx3(v))
    } else {
        0
    };
    let c = if present(b) {
        entry(words, addr(b), idx2(v))
    } else {
        0
    };
    let d = if present(c) && !huge(c) {
        entry(words, addr(c), idx1(v))
    } else {
        0
    };
    (a, b, c, d)
}

/// The translation of a page is a function of the entries on its walk.
pub proof fn lemma_leaf_slots(words: Seq<u64>, r: int, v: int)
    ensures
        leaf(words, r, v) == ({
            let (a, b, c, d) = slots(words, r, v);
            if present(c) && huge(c) {
                Some(split_entry(c, idx1(v)))
            } else {
                as_leaf(d)
            }
        }),
{
    lemma_mask(0);
}

/// How many pages an entry of a table of level `l` covers.
pub open spec fn span(l: int) -> int {
    if l == 1 {
        1
    } else if l == 2 {
        512
    } else if l == 3 {
        0x4_0000
    } else {
        0x800_0000
    }
}

/// The first page of the `q`-th such span.
pub open spec fn span_start(l: int, q: int) -> int {
    if l == 1 {
        q
    } else if l == 2 {
        q * 512
    } else if l == 3 {
        q * 0x4_0000
    } else {
        q * 0x800_0000
    }
}

/// The number of the span that page `v` lies in.
pub open spec fn span_no(l: int, v: int) -> int {
    if l == 1 {
        v
    } else if l == 2 {
        v / 512
    } else if l == 3 {
        v / 0x4_0000
    } else {
        v / 0x800_0000
    }
}

/// Writing entry `i` of table `t` changes the walk of no page outside the
/// entry's span, and of no page of another address space.
#[verifier::spinoff_prover]
#[verifier::rlimit(40)]
pub proof fn lemma_slots_write(
    w0: Seq<u64>,
    w1: Seq<u64>,
    seats: Map<int, Seat>,
    t: int,
    i: int,
)
    requires
        tables_wf(w0, seats),
        seats.dom().contains(t),
        0 <= i < 512,
        w1.len() == w0.len(),
        forall|u: int, j: int|
            seats.dom().contains(u) && 0 <= j < 512 && !(u == t && j == i) ==> #[trigger] entry(
                w1,
                u,
                j,
            ) == entry(w0, u, j),
    ensures
        forall|r: int, v: int|
            is_root(seats, r) && 0 <= v < PAGES && !(span_no(seats[t].level, v) == seats[t].prefix
                * 512 + i && (if seats[t].level == 4 {
                r == t
            } else {
                owner_of(seats[r], v) == seats[t].owner
            })) ==> #[trigger] slots(w1, r, v) == slots(w0, r, v),
{
    assert forall|r: int, v: int|
        is_root(seats, r) && 0 <= v < PAGES && !(span_no(seats[t].level, v) == seats[t].prefix * 512
            + i && (if seats[t].level == 4 {
            r == t
        } else {
            owner_of(seats[r], v) == seats[t].owner
        })) implies #[trigger] slots(w1, r, v) == slots(w0, r, v) by {
        assert(is_table(w0, seats, t));
        lemma_mask(0);
        lemma_page_split(v);
        lemma_path(w0, seats, r, v);
        let a = entry(w0, r, idx4(v));
        assert(entry(w1, r, idx4(v)) == a);
        if present(a) {
            let b = entry(w0, addr(a), idx3(v));
            assert(entry(w1, addr(a), idx3(v)) == b);
            if present(b) {
                let c = entry(w0, addr(b), idx2(v));
                assert(entry(w1, addr(b), idx2(v)) == c);
                if present(c) && !huge(c) {
                    assert(entry(w1, addr(c), idx1(v)) == entry(w0, addr(c), idx1(v)));
                }
            }
        }
    }
}

/// `m1` is `m0` with the word of entry `i` of table `t` set to `w`.
pub open spec fn wrote(m0: &PhysMem, m1: &PhysMem, t: int, i: int, w: u64) -> bool {
    &&& m1.words@ == m0.words@.update(t / 8 + i, w)
    &&& m1.seats@ == m0.seats@
}

/// Writing a 2 MiB leaf, or nothing, into a second-level table keeps the
/// tables in order.
#[verifier::spinoff_prover]
#[verifier::rlimit(40)]
proof fn lemma_block_write(m0: &PhysMem, fa: &FrameAllocator, m1: &PhysMem, t: int, i: int, w: u64)
    requires
        m0.wf(fa),
        is_table(m0.words@, m0.seats@, t),
        m0.seats@[t].level == 2,
        0 <= i < 512,
        present(w) ==> huge(w),
        m0.seats@[m0.seats@[t].owner].upper == m0.seats@[t].owner || !present(
            entry(m0.words@, t, i),
        ) || huge(entry(m0.words@, t, i)),
        wrote(m0, m1, t, i, w),
    ensures
        m1.wf(fa),
{
    reveal(hangs);
    lemma_write_entry(m0, fa, m1, t, i, w);
    let seats = m0.seats@;
    assert forall|u: int| #[trigger] seats.dom().contains(u) implies is_table(
        m1.words@,
        seats,
        u,
    ) by {
        assert(is_table(m0.words@, seats, u));
    }
    assert forall|u: int, j: int|
        seats.dom().contains(u) && seats[u].level >= 2 && 0 <= j < 512 implies #[trigger] entry_ok(
        m1.words@,
        seats,
        u,
        j,
    ) by {
        if !(u == t && j == i) {
            assert(entry_ok(m0.words@, seats, u, j));
            assert(entry(m1.words@, u, j) == entry(m0.words@, u, j));
        }
    }
    assert forall|u: int| #[trigger] seats.dom().contains(u) implies hangs(m1.words@, seats, u) by {
        assert(hangs(m0.words@, seats, u));
        let p = seats[u].parent;
        let j = seats[u].prefix % 512;
        if seats[u].level < 4 && seats[seats[u].owner].upper != seats[u].owner {
            if p == t && j == i {
                assert(seats[u].owner == seats[t].owner);
            } else {
                assert(entry(m1.words@, p, j) == entry(m0.words@, p, j));
            }
        }
    }
}

/// Clearing the only link to table `c` and forgetting its seat keeps the
/// remaining tables in order.
#[verifier::spinoff_prover]
#[verifier::rlimit(40)]
proof fn lemma_unlink(
    m0: &PhysMem,
    fa: &FrameAllocator,
    m1: &PhysMem,
    t: int,
    i: int,
    c: int,
)
    requires
        m0.wf(fa),
        is_table(m0.words@, m0.seats@, t),
        m0.seats@[t].level >= 2,
        0 <= i < 512,
        m0.seats@[t].level == 4 ==> i < 256,
        present(entry(m0.words@, t, i)),
        !(m0.seats@[t].level == 2 && huge(entry(m0.words@, t, i))),
        addr(entry(m0.words@, t, i)) == c,
        m0.seats@[t].level >= 3 ==> table_empty(m0.words@, c),
        m1.words@ == m0.words@.update(t / 8 + i, 0),
        m1.seats@ == m0.seats@.remove(c),
    ensures
        m1.wf(fa),
        m0.seats@.dom().contains(c),
        c != t,
{
    reveal(hangs);
    let mid = PhysMem { words: m1.words, seats: m0.seats };
    lemma_mask(0);
    lemma_write_entry(m0, fa, &mid, t, i, 0);
    let s0 = m0.seats@;
    let s1 = m1.seats@;
    assert(entry_ok(m0.words@, s0, t, i));
    assert forall|u: int| #[trigger] s1.dom().contains(u) implies is_table(m1.words@, s1, u) by {
        assert(is_table(m0.words@, s0, u));
    }
    assert forall|u: int, j: int|
        s1.dom().contains(u) && s1[u].level >= 2 && 0 <= j < 512 implies #[trigger] entry_ok(
        m1.words@,
        s1,
        u,
        j,
    ) by {
        if !(u == t && j == i) {
            assert(entry_ok(m0.words@, s0, u, j));
            assert(is_table(m0.words@, s0, u));
            assert(entry(m1.words@, u, j) == entry(m0.words@, u, j));
        }
    }
    assert forall|u: int| #[trigger] s1.dom().contains(u) implies hangs(m1.words@, s1, u) by {
        assert(hangs(m0.words@, s0, u));
        assert(is_table(m0.words@, s0, c));
        let p = s0[u].parent;
        let j = s0[u].prefix % 512;
        if s0[u].level < 4 && s0[s0[u].owner].upper != s0[u].owner {
            if p == c {
                assert(!present(entry(m0.words@, c, j)));
            }
            assert(entry(m1.words@, p, j) == entry(m0.words@, p, j));
        }
    }
    assert forall|u: int| #[trigger] s1.dom().contains(u) implies fa.in_use(u) by {
        assert(s0.dom().contains(u));
    }
}

/// The leaf of page `v` under `root` sits on a frame that came from the
/// memory map: the number of that frame.
pub open spec fn held_frame(m: &PhysMem, fa: &FrameAllocator, root: int, v: int) -> Option<int> {
    match leaf(m.words@, root, v) {
        Some(e) => if fa.managed(addr(e)) {
            Some(addr(e) / 4096)
        } else {
            None
        },
        None => None,
    }
}

/// Page `v` of `root` accounts for frame `j`: it is mapped there, or the walk
/// to it goes through a table there.
pub open spec fn claims(m: &PhysMem, fa: &FrameAllocator, root: int, v: int, j: int) -> bool {
    let (a, b, c, d) = slots(m.words@, root, v);
    ||| held_frame(m, fa, root, v) == Some(j)
    ||| present(a) && addr(a) == j * 4096
    ||| present(b) && addr(b) == j * 4096
    ||| present(c) && !huge(c) && addr(c) == j * 4096
}

/// No user page of `root` is mapped onto a page table.
pub open spec fn no_table_mapped(m: &PhysMem, fa: &FrameAllocator, root: int) -> bool {
    forall|v: int|
        0 <= v < USER_PAGES ==> (#[trigger] held_frame(m, fa, root, v) matches Some(j)
            ==> !m.seats@.dom().contains(j * 4096))
}

/// The first `n` user pages of `root` sit on frames that are in use, each on
/// its own.
pub open spec fn sole_below(m: &PhysMem, fa: &FrameAllocator, root: int, n: int) -> bool {
    &&& forall|v: int|
        0 <= v < n ==> (#[trigger] held_frame(m, fa, root, v) matches Some(j) ==> frames::used(
            fa.map@,
            j,
        ))
    &&& forall|v: int, w: int|
        0 <= v < w < n && #[trigger] held_frame(m, fa, root, v) is Some && #[trigger] held_frame(
            m,
            fa,
            root,
            w,
        ) is Some ==> held_frame(m, fa, root, v) != held_frame(m, fa, root, w)
}

/// The frames of the first `v0` user pages of `root`, and of `n` in all, have
/// been given back.
pub open spec fn swept_frames(
    m0: &PhysMem,
    f0: &FrameAllocator,
    fa: &FrameAllocator,
    root: int,
    v0: int,
    n: int,
) -> bool {
    &&& fa.wf()
    &&& fa.same_pool(f0)
    &&& fa.available() == f0.available() + n
    &&& fa.free == f0.free + n
    &&& forall|j: int|
        0 <= j < frames::FRAME_COUNT && #[trigger] frames::used(fa.map@, j) ==> frames::used(
            f0.map@,
            j,
        )
    &&& forall|j: int|
        0 <= j < frames::FRAME_COUNT && frames::used(f0.map@, j) && !#[trigger] frames::used(
            fa.map@,
            j,
        ) ==> exists|v: int| 0 <= v < v0 && #[trigger] claims(m0, f0, root, v, j)
    &&& sole_below(m0, f0, root, v0)
    &&& forall|v: int|
        0 <= v < v0 ==> (#[trigger] held_frame(m0, f0, root, v) matches Some(j) ==> !frames::used(
            fa.map@,
            j,
        ))
}

/// The first `v0` user pages of `root` are gone from the tables, and the walk
/// of every other page is as it was.
pub open spec fn swept_tables(
    m0: &PhysMem,
    m: &PhysMem,
    fa: &FrameAllocator,
    root: int,
    v0: int,
) -> bool {
    &&& m.wf(fa)
    &&& is_root(m.seats@, root)
    &&& m.words@.len() == m0.words@.len()
    &&& forall|t: int| #[trigger] m.seats@.dom().contains(t) ==> m0.seats@.dom().contains(t)
        && m.seats@[t] == m0.seats@[t]
    &&& forall|r: int| is_root(m0.seats@, r) ==> #[trigger] is_root(m.seats@, r)
    &&& forall|r: int, v: int|
        is_root(m0.seats@, r) && 0 <= v < PAGES && !(owner_of(m0.seats@[r], v) == root && v < v0)
            ==> #[trigger] slots(m.words@, r, v) == slots(m0.words@, r, v)
    &&& forall|v: int| 0 <= v < v0 ==> #[trigger] leaf(m.words@, root, v) is None
    &&& data_same(m0, m)
}

/// Words outside the tables of `m0` are the same.
pub open spec fn data_same(m0: &PhysMem, m: &PhysMem) -> bool {
    forall|k: int| #![trigger m.words@[k]]
        0 <= k < m0.words@.len() && !m0.seats@.dom().contains(k / 512 * 4096) ==> m.words@[k]
            == m0.words@[k]
}

/// A page that holds no frame of the pool costs nothing.
proof fn lemma_frames_skip(
    m0: &PhysMem,
    f0: &FrameAllocator,
    fa: &FrameAllocator,
    root: int,
    v0: int,
    v1: int,
    n: int,
)
    requires
        swept_frames(m0, f0, fa, root, v0, n),
        v0 <= v1,
        forall|v: int| v0 <= v < v1 ==> #[trigger] held_frame(m0, f0, root, v) is None,
    ensures
        swept_frames(m0, f0, fa, root, v1, n),
{
    assert forall|j: int|
        0 <= j < frames::FRAME_COUNT && frames::used(f0.map@, j) && !#[trigger] frames::used(
            fa.map@,
            j,
        ) implies exists|v: int| 0 <= v < v1 && #[trigger] claims(m0, f0, root, v, j) by {
        let v = choose|v: int| 0 <= v < v0 && #[trigger] claims(m0, f0, root, v, j);
        assert(claims(m0, f0, root, v, j));
    }
}

/// Giving back the frame of the next page.
proof fn lemma_frames_page(
    m0: &PhysMem,
    f0: &FrameAllocator,
    fa: &FrameAllocator,
    f1: &FrameAllocator,
    root: int,
    v0: int,
    n: int,
    j0: int,
)
    requires
        swept_frames(m0, f0, fa, root, v0, n),
        0 <= v0,
        held_frame(m0, f0, root, v0) == Some(j0),
        0 <= j0 < frames::FRAME_COUNT,
        frames::used(fa.map@, j0),
        f1.wf(),
        f1.same_pool(fa),
        frames::gave_back(fa, f1, j0 * 4096),
    ensures
        swept_frames(m0, f0, f1, root, v0 + 1, n + 1),
{
    assert((j0 * 4096) / 4096 == j0);
    assert forall|j: int|
        0 <= j < frames::FRAME_COUNT && frames::used(f0.map@, j) && !#[trigger] frames::used(
            f1.map@,
            j,
        ) implies exists|v: int| 0 <= v < v0 + 1 && #[trigger] claims(m0, f0, root, v, j) by {
        if j == j0 {
            assert(claims(m0, f0, root, v0, j));
        } else {
            assert(!frames::used(fa.map@, j));
            let v = choose|v: int| 0 <= v < v0 && #[trigger] claims(m0, f0, root, v, j);
            assert(claims(m0, f0, root, v, j));
        }
    }
    assert forall|j: int|
        0 <= j < frames::FRAME_COUNT && #[trigger] frames::used(f1.map@, j) implies frames::used(
        f0.map@,
        j,
    ) by {
        assert(frames::used(fa.map@, j));
    }
    assert forall|v: int| 0 <= v < v0 + 1 implies (#[trigger] held_frame(m0, f0, root, v) matches Some(j) ==> !frames::used(
        f1.map@,
        j,
    )) by {
        if v < v0 {
            if let Some(j) = held_frame(m0, f0, root, v) {
                assert(!frames::used(fa.map@, j));
                assert(j != j0);
                assert(0 <= j < frames::FRAME_COUNT);
                assert(frames::used(fa.map@, j) == frames::used(f1.map@, j));
            }
        }
    }
    assert(sole_below(m0, f0, root, v0 + 1)) by {
        assert forall|v: int, w: int|
            0 <= v < w < v0 + 1 && #[trigger] held_frame(m0, f0, root, v) is Some
                && #[trigger] held_frame(m0, f0, root, w) is Some implies held_frame(
            m0,
            f0,
            root,
            v,
        ) != held_frame(m0, f0, root, w) by {
            if w == v0 {
                let j = held_frame(m0, f0, root, v)->0;
                assert(!frames::used(fa.map@, j));
            }
        }
    }
}

/// Giving back the frame of a table that a swept page went through.
proof fn lemma_frames_table(
    m0: &PhysMem,
    f0: &FrameAllocator,
    fa: &FrameAllocator,
    f1: &FrameAllocator,
    root: int,
    v0: int,
    n: int,
    v: int,
    j0: int,
)
    requires
        swept_frames(m0, f0, fa, root, v0, n),
        0 <= v < v0,
        claims(m0, f0, root, v, j0),
        0 <= j0 < frames::FRAME_COUNT,
        f1.wf(),
        f1.same_pool(fa),
        frames::gave_back(fa, f1, j0 * 4096),
    ensures
        swept_frames(m0, f0, f1, root, v0, n + 1),
{
    assert((j0 * 4096) / 4096 == j0);
    assert forall|j: int|
        0 <= j < frames::FRAME_COUNT && frames::used(f0.map@, j) && !#[trigger] frames::used(
            f1.map@,
            j,
        ) implies exists|w: int| 0 <= w < v0 && #[trigger] claims(m0, f0, root, w, j) by {
        if j == j0 {
            assert(claims(m0, f0, root, v, j));
        } else {
            assert(!frames::used(fa.map@, j));
        }
    }
    assert forall|j: int|
        0 <= j < frames::FRAME_COUNT && #[trigger] frames::used(f1.map@, j) implies frames::used(
        f0.map@,
        j,
    ) by {
        assert(frames::used(fa.map@, j));
    }
    assert forall|w: int| 0 <= w < v0 implies (#[trigger] held_frame(m0, f0, root, w) matches Some(j) ==> !frames::used(
        f1.map@,
        j,
    )) by {
        if let Some(j) = held_frame(m0, f0, root, w) {
            assert(!frames::used(fa.map@, j));
            assert(0 <= j < frames::FRAME_COUNT);
            if j != j0 {
                assert(frames::used(fa.map@, j) == frames::used(f1.map@, j));
            }
        }
    }
}

/// A held frame that is no longer in use was not in use before, or is held
/// twice.
proof fn lemma_not_sole(
    m0: &PhysMem,
    f0: &FrameAllocator,
    fa: &FrameAllocator,
    root: int,
    v0: int,
    n: int,
    j: int,
)
    requires
        m0.wf(f0),
        is_root(m0.seats@, root),
        no_table_mapped(m0, f0, root),
        swept_frames(m0, f0, fa, root, v0, n),
        0 <= v0 < USER_PAGES,
        held_frame(m0, f0, root, v0) == Some(j),
        0 <= j < frames::FRAME_COUNT,
        !frames::used(fa.map@, j),
    ensures
        !sole_below(m0, f0, root, USER_PAGES as int),
{
    if frames::used(f0.map@, j) {
        let v = choose|v: int| 0 <= v < v0 && #[trigger] claims(m0, f0, root, v, j);
        lemma_mask(0);
        lemma_path(m0.words@, m0.seats@, root, v);
        assert(claims(m0, f0, root, v, j));
        assert(held_frame(m0, f0, root, v) == Some(j));
        assert(held_frame(m0, f0, root, v) == held_frame(m0, f0, root, v0));
    } else {
        assert(held_frame(m0, f0, root, v0) is Some);
    }
}

/// Giving back a frame that is no table keeps memory in order.
pub proof fn lemma_wf_free(m: &PhysMem, fa: &FrameAllocator, f1: &FrameAllocator, base: int)
    requires
        m.wf(fa),
        f1.wf(),
        f1.same_pool(fa),
        base % 4096 == 0,
        0 <= base < frames::PHYS_LIMIT,
        (base / 4096 + 1) * 512 <= m.words@.len(),
        !m.seats@.dom().contains(base),
        frames::gave_back(fa, f1, base),
    ensures
        m.wf(f1),
{
    assert forall|t: int| #[trigger] m.seats@.dom().contains(t) implies f1.in_use(t) by {
        assert(is_table(m.words@, m.seats@, t));
        assert(t / 4096 != base / 4096);
        assert(frames::used(fa.map@, t / 4096) == frames::used(f1.map@, t / 4096));
    }
    assert forall|j: int|
        0 <= j < frames::FRAME_COUNT && !#[trigger] frames::used(f1.map@, j) implies (j + 1) * 512
        <= m.words@.len() by {
        if j != base / 4096 {
            assert(frames::used(fa.map@, j) == frames::used(f1.map@, j));
        }
    }
}

/// Pages without a leaf are swept as they stand.
proof fn lemma_tables_skip(
    m0: &PhysMem,
    m: &PhysMem,
    fa: &FrameAllocator,
    root: int,
    v0: int,
    v1: int,
)
    requires
        swept_tables(m0, m, fa, root, v0),
        is_root(m0.seats@, root),
        m0.seats@[root].owner == root,
        0 <= v0 <= v1 <= USER_PAGES,
        forall|v: int| v0 <= v < v1 ==> #[trigger] leaf(m0.words@, root, v) is None,
    ensures
        swept_tables(m0, m, fa, root, v1),
{
    assert forall|v: int| 0 <= v < v1 implies #[trigger] leaf(m.words@, root, v) is None by {
        if v >= v0 {
            assert(slots(m.words@, root, v) == slots(m0.words@, root, v));
            lemma_leaf_slots(m.words@, root, v);
            lemma_leaf_slots(m0.words@, root, v);
            assert(leaf(m0.words@, root, v) is None);
        }
    }
}

/// The walk of page `v` under `root` goes through table `t` at level `l`.
pub open spec fn on_walk(words: Seq<u64>, root: int, v: int, l: int, t: int) -> bool {
    let (a, b, c, d) = slots(words, root, v);
    if l == 4 {
        t == root
    } else if l == 3 {
        present(a) && addr(a) == t
    } else if l == 2 {
        present(b) && addr(b) == t
    } else {
        present(c) && !huge(c) && addr(c) == t
    }
}

/// Clearing entry `i` of table `t`, whose span ends at page `v1`, sweeps up
/// to there.
#[verifier::rlimit(50)]
#[verifier::spinoff_prover]
proof fn lemma_tables_clear(
    m0: &PhysMem,
    m: &PhysMem,
    m1: &PhysMem,
    fa: &FrameAllocator,
    root: int,
    v0: int,
    v1: int,
    t: int,
    i: int,
)
    requires
        swept_tables(m0, m, fa, root, v0),
        is_root(m0.seats@, root),
        m0.seats@[root].owner == root,
        is_table(m.words@, m.seats@, t),
        m.seats@[t].owner == root,
        0 <= i < 512,
        v1 == span_start(m.seats@[t].level, m.seats@[t].prefix * 512 + i + 1),
        v1 - span(m.seats@[t].level) <= v0 <= v1 <= USER_PAGES,
        0 <= v0,
        m1.wf(fa),
        m1.words@ == m.words@.update(t / 8 + i, 0),
        forall|u: int| #[trigger] m1.seats@.dom().contains(u) ==> m.seats@.dom().contains(u)
            && m1.seats@[u] == m.seats@[u],
        forall|r: int| is_root(m.seats@, r) ==> #[trigger] is_root(m1.seats@, r),
        forall|v: int|
            v1 - span(m.seats@[t].level) <= v < v1 ==> #[trigger] on_walk(
                m.words@,
                root,
                v,
                m.seats@[t].level,
                t,
            ),
    ensures
        swept_tables(m0, m1, fa, root, v1),
{
    let seats = m.seats@;
    let l = seats[t].level;
    let mid = PhysMem { words: m1.words, seats: m.seats };
    assert(forall|u: int, j: int|
        seats.dom().contains(u) && 0 <= j < 512 && !(u == t && j == i) ==> #[trigger] entry(
            m1.words@,
            u,
            j,
        ) == entry(m.words@, u, j)) by {
        lemma_write_entry(m, fa, &mid, t, i, 0);
    }
    assert(entry(m1.words@, t, i) == 0);
    lemma_slots_write(m.words@, m1.words@, seats, t, i);
    lemma_mask(0);
    assert forall|r: int, v: int|
        is_root(m0.seats@, r) && 0 <= v < PAGES && !(owner_of(m0.seats@[r], v) == root && v
            < v1) implies #[trigger] slots(m1.words@, r, v) == slots(m0.words@, r, v) by {
        assert(is_root(m.seats@, r));
        assert(slots(m.words@, r, v) == slots(m0.words@, r, v));
        assert(span_no(l, v) == seats[t].prefix * 512 + i ==> v < v1);
    }
    assert forall|v: int| 0 <= v < v1 implies #[trigger] leaf(m1.words@, root, v) is None by {
        lemma_leaf_slots(m1.words@, root, v);
        lemma_leaf_slots(m.words@, root, v);
        lemma_page_split(v);
        if span_no(l, v) == seats[t].prefix * 512 + i {
            assert(v1 - span(l) <= v);
            lemma_path(m.words@, seats, root, v);
            assert(on_walk(m.words@, root, v, l, t));
            let s0 = slots(m.words@, root, v);
            let s1 = slots(m1.words@, root, v);
            assert(is_table(m.words@, seats, t));
            if l == 4 {
                assert(s1.0 == 0);
            } else {
                assert(s1.0 == s0.0);
                if present(s0.0) {
                    if l == 3 {
                        assert(s1.1 == 0);
                    } else {
                        assert(s1.1 == s0.1);
                        if present(s0.1) {
                            if l == 2 {
                                assert(s1.2 == 0);
                            } else {
                                assert(s1.2 == s0.2);
                                if present(s0.2) {
                                    assert(s1.3 == 0);
                                }
                            }
                        }
                    }
                }
            }
        } else {
            assert(slots(m1.words@, root, v) == slots(m.words@, root, v));
            assert(v < v1 - span(l));
            assert(leaf(m.words@, root, v) is None);
        }
    }
    assert(data_same(m0, m1)) by {
        assert forall|k: int| #![trigger m1.words@[k]]
            0 <= k < m0.words@.len() && !m0.seats@.dom().contains(
                k / 512 * 4096,
            ) implies m1.words@[k] == m0.words@[k] by {
            assert(m.words@[k] == m0.words@[k]);
            if k == t / 8 + i {
                assert(k / 512 * 4096 == t);
            }
        }
    }
}

/// What a failed teardown answers; the kernel stops on it.
pub open spec fn teardown_failed() -> Result<u64, &'static str> {
    Err("paging: user-half teardown free failed")
}

/// The state in which the teardown of `root` starts.
pub open spec fn teardown_start(m0: &PhysMem, f0: &FrameAllocator, root: int) -> bool {
    &&& m0.wf(f0)
    &&& f0.ready
    &&& is_root(m0.seats@, root)
    &&& no_table_mapped(m0, f0, root)
}

/// Every page below `v0` is swept, `n` frames are back.
#[verifier::opaque]
pub open spec fn swept(
    m0: &PhysMem,
    f0: &FrameAllocator,
    m: &PhysMem,
    fa: &FrameAllocator,
    root: int,
    v0: int,
    n: int,
) -> bool {
    &&& teardown_start(m0, f0, root)
    &&& swept_frames(m0, f0, fa, root, v0, n)
    &&& swept_tables(m0, m, fa, root, v0)
    &&& 0 <= n
    &&& f0.available() + n <= frames::FRAME_COUNT
}

/// What a sweep keeps for the next step.
proof fn lemma_swept(
    m0: &PhysMem,
    f0: &FrameAllocator,
    m: &PhysMem,
    fa: &FrameAllocator,
    root: int,
    v0: int,
    n: int,
)
    requires
        swept(m0, f0, m, fa, root, v0, n),
        0 <= v0 <= USER_PAGES,
    ensures
        teardown_start(m0, f0, root),
        m.wf(fa),
        is_root(m.seats@, root),
        is_table(m0.words@, m0.seats@, root),
        v0 < USER_PAGES ==> slots(m.words@, root, v0) == slots(m0.words@, root, v0),
{
    reveal(swept);
    assert(is_table(m0.words@, m0.seats@, root));
    if v0 < USER_PAGES {
        assert(slots(m.words@, root, v0) == slots(m0.words@, root, v0));
    }
}

/// Frames were only given back, never taken.
pub open spec fn only_freed(pre: &FrameAllocator, post: &FrameAllocator) -> bool {
    forall|j: int|
        0 <= j < frames::FRAME_COUNT && #[trigger] frames::used(post.map@, j) ==> frames::used(
            pre.map@,
            j,
        )
}

/// The tables of level `l` that the walks of the first `v0` pages of `root`
/// went through are back in the pool.
pub open spec fn tables_back(
    m0: &PhysMem,
    fa: &FrameAllocator,
    root: int,
    l: int,
    v0: int,
) -> bool {
    forall|v: int, t: int|
        0 <= v < v0 && #[trigger] on_walk(m0.words@, root, v, l, t) ==> !frames::used(
            fa.map@,
            t / 4096,
        )
}

/// Tables that are back stay back while frames are only given back.
proof fn lemma_back_stays(
    m0: &PhysMem,
    f0: &FrameAllocator,
    fa: &FrameAllocator,
    f1: &FrameAllocator,
    root: int,
    l: int,
    v0: int,
)
    requires
        teardown_start(m0, f0, root),
        1 <= l <= 3,
        v0 <= USER_PAGES,
        tables_back(m0, fa, root, l, v0),
        only_freed(fa, f1),
    ensures
        tables_back(m0, f1, root, l, v0),
{
    assert forall|v: int, t: int|
        0 <= v < v0 && #[trigger] on_walk(m0.words@, root, v, l, t) implies !frames::used(
        f1.map@,
        t / 4096,
    ) by {
        lemma_mask(0);
        lemma_path(m0.words@, m0.seats@, root, v);
        assert(!frames::used(fa.map@, t / 4096));
    }
}

/// Give back the frame that page `v0` holds, if it came from the pool.
fn release_page(
    fa: &mut FrameAllocator,
    frame: u64,
    n: u64,
    Ghost(m0): Ghost<PhysMem>,
    Ghost(f0): Ghost<FrameAllocator>,
    Ghost(m): Ghost<PhysMem>,
    Ghost(root): Ghost<int>,
    Ghost(vt): Ghost<int>,
    Ghost(v0): Ghost<int>,
) -> (r: Result<u64, &'static str>)
    requires
        teardown_start(&m0, &f0, root),
        swept_frames(&m0, &f0, old(fa), root, v0, n as int),
        swept_tables(&m0, &m, old(fa), root, vt),
        f0.available() + n <= frames::FRAME_COUNT,
        0 <= v0 < USER_PAGES,
        leaf(m0.words@, root, v0) is Some,
        frame as int == addr(leaf(m0.words@, root, v0)->0),
    ensures
        r matches Ok(k) ==> {
            &&& swept_frames(&m0, &f0, final(fa), root, v0 + 1, k as int)
            &&& swept_tables(&m0, &m, final(fa), root, vt)
            &&& f0.available() + k <= frames::FRAME_COUNT
        },
        only_freed(old(fa), final(fa)),
        r is Err ==> r == teardown_failed() && !sole_below(&m0, &f0, root, USER_PAGES as int),
{
    proof {
        lemma_mask(leaf(m0.words@, root, v0)->0);
    }
    let ghost before = *fa;
    if !frames::is_managed(fa, frame) {
        proof {
            assert(held_frame(&m0, &f0, root, v0) is None);
            lemma_frames_skip(&m0, &f0, fa, root, v0, v0 + 1, n as int);
        }
        return Ok(n);
    }
    let ghost j = frame as int / 4096;
    assert(held_frame(&m0, &f0, root, v0) == Some(j));
    match frames::free(fa, frame) {
        Ok(_) => {
            proof {
                assert(j * 4096 == frame);
                lemma_frames_page(&m0, &f0, &before, fa, root, v0, n as int, j);
                assert(!m.seats@.dom().contains(frame as int));
                assert(!frames::used(fa.origin@, j));
                lemma_wf_free(&m, &before, fa, frame as int);
                frames::lemma_free_bounds(fa.map@, frames::FRAME_COUNT as int);
            }
            Ok(n + 1)
        },
        Err(_) => {
            proof {
                lemma_not_sole(&m0, &f0, &before, root, v0, n as int, j);
            }
            Err("paging: user-half teardown free failed")
        },
    }
}

/// No entry of the table at `t` leads anywhere.
pub open spec fn table_empty(words: Seq<u64>, t: int) -> bool {
    forall|j: int| 0 <= j < 512 ==> !present(#[trigger] entry(words, t, j))
}

/// Unlink table `c`, whose pages are all swept, from entry `i` of table `t`,
/// and give back its frame.
#[verifier::spinoff_prover]
#[verifier::rlimit(40)]
fn drop_table(
    mem: &mut PhysMem,
    fa: &mut FrameAllocator,
    t: u64,
    i: usize,
    c: u64,
    n: u64,
    Ghost(m0): Ghost<PhysMem>,
    Ghost(f0): Ghost<FrameAllocator>,
    Ghost(root): Ghost<int>,
    Ghost(v1): Ghost<int>,
) -> (r: u64)
    requires
        swept(&m0, &f0, old(mem), old(fa), root, v1, n as int),
        is_table(old(mem).words@, old(mem).seats@, t as int),
        2 <= old(mem).seats@[t as int].level,
        old(mem).seats@[t as int].owner == root,
        i < 512,
        old(mem).seats@[t as int].level == 4 ==> i < 256 && t == root,
        v1 == span_start(
            old(mem).seats@[t as int].level,
            old(mem).seats@[t as int].prefix * 512 + i + 1,
        ),
        span(old(mem).seats@[t as int].level) <= v1 <= USER_PAGES,
        present(entry(old(mem).words@, t as int, i as int)),
        !(old(mem).seats@[t as int].level == 2 && huge(
            entry(old(mem).words@, t as int, i as int),
        )),
        c as int == addr(entry(old(mem).words@, t as int, i as int)),
        old(mem).seats@[t as int].level >= 3 ==> table_empty(old(mem).words@, c as int),
        forall|v: int|
            v1 - span(old(mem).seats@[t as int].level) <= v < v1 ==> #[trigger] on_walk(
                old(mem).words@,
                root,
                v,
                old(mem).seats@[t as int].level,
                t as int,
            ),
        claims(
            &m0,
            &f0,
            root,
            v1 - span(old(mem).seats@[t as int].level),
            c as int / 4096,
        ),
    ensures
        only_freed(old(fa), final(fa)),
        !final(fa).in_use(c as int),
        r == n + 1,
        swept(&m0, &f0, final(mem), final(fa), root, v1, r as int),
        final(mem).seats@ == old(mem).seats@.remove(c as int),
        final(mem).words@ == old(mem).words@.update(t as int / 8 + i as int, 0),
{
    proof {
        reveal(swept);
    }
    let ghost m = *mem;
    let ghost before = *fa;
    let ghost l = m.seats@[t as int].level;
    proof {
        assert(entry_ok(m.words@, m.seats@, t as int, i as int));
        assert(is_table(m.words@, m.seats@, c as int));
        assert(is_table(m.words@, m.seats@, root));
    }
    let at: usize = (t / 8) as usize + i;
    mem.words[at] = 0;
    proof {
        mem.seats@ = m.seats@.remove(c as int);
        lemma_unlink(&m, fa, mem, t as int, i as int, c as int);
        assert forall|r: int| is_root(m.seats@, r) implies #[trigger] is_root(mem.seats@, r) by {
            assert(m.seats@[c as int].level < 4);
        }
        lemma_tables_clear(&m0, &m, mem, fa, root, v1, v1, t as int, i as int);
        assert(fa.in_use(c as int));
    }
    let freed = frames::free(fa, c);
    proof {
        let j = c as int / 4096;
        assert(j * 4096 == c);
        lemma_frames_table(&m0, &f0, &before, fa, root, v1, n as int, v1 - span(l), j);
        lemma_wf_free(mem, &before, fa, c as int);
        frames::lemma_free_bounds(fa.map@, frames::FRAME_COUNT as int);
    }
    n + 1
}

/// Sweep page `i` of the last-level table `pt`, which covers block `blk`.
#[verifier::spinoff_prover]
#[verifier::rlimit(60)]
fn sweep_page(
    mem: &mut PhysMem,
    fa: &mut FrameAllocator,
    pt: u64,
    i: usize,
    k: u64,
    Ghost(m0): Ghost<PhysMem>,
    Ghost(f0): Ghost<FrameAllocator>,
    Ghost(root): Ghost<int>,
    Ghost(blk): Ghost<int>,
) -> (r: Result<u64, &'static str>)
    requires
        i < 512,
        0 <= blk < USER_PAGES / 512,
        swept(&m0, &f0, old(mem), old(fa), root, blk * 512 + i, k as int),
        m0.seats@[root].owner == root,
        on_walk(m0.words@, root, blk * 512, 1, pt as int),
    ensures
        r matches Ok(n) ==> {
            &&& swept(&m0, &f0, final(mem), final(fa), root, blk * 512 + i + 1, n as int)
            &&& final(mem).seats@ == old(mem).seats@
            &&& forall|u: int, j: int|
                old(mem).seats@.dom().contains(u) && u != pt && 0 <= j < 512 ==> #[trigger] entry(
                    final(mem).words@,
                    u,
                    j,
                ) == entry(old(mem).words@, u, j)
        },
        only_freed(old(fa), final(fa)),
        r is Err ==> r == teardown_failed() && !sole_below(&m0, &f0, root, USER_PAGES as int),
{
    proof {
        reveal(swept);
        lemma_mask(0);
    }
    let ghost v = blk * 512 + i;
    let ghost m = *mem;
    proof {
        lemma_page_split(v);
        lemma_page_split(blk * 512);
        lemma_path(m0.words@, m0.seats@, root, v);
        assert(slots(m.words@, root, v) == slots(m0.words@, root, v));
        assert(on_walk(m0.words@, root, v, 1, pt as int));
        assert(on_walk(m.words@, root, v, 1, pt as int));
        lemma_path(m.words@, m.seats@, root, v);
        lemma_leaf_slots(m0.words@, root, v);
    }
    let e1: u64 = read_entry(mem, pt, i);
    if e1 & PTE_PRESENT == 0 {
        proof {
            lemma_frames_skip(&m0, &f0, fa, root, v, v + 1, k as int);
            lemma_tables_skip(&m0, mem, fa, root, v, v + 1);
        }
        return Ok(k);
    }
    match release_page(
        fa,
        e1 & ADDR_MASK,
        k,
        Ghost(m0),
        Ghost(f0),
        Ghost(*mem),
        Ghost(root),
        Ghost(v),
        Ghost(v),
    ) {
        Ok(n) => {
            let at: usize = (pt / 8) as usize + i;
            mem.words[at] = 0;
            proof {
                lemma_write_entry(&m, fa, mem, pt as int, i as int, 0);
                lemma_leaf_write(m.words@, mem.words@, m.seats@, pt as int, i as int);
                lemma_tables_clear(&m0, &m, mem, fa, root, v, v + 1, pt as int, i as int);
            }
            Ok(n)
        },
        Err(e) => Err(e),
    }
}

/// Sweep the 512 pages of the last-level table `pt`, which covers block `blk`.
#[verifier::spinoff_prover]
#[verifier::rlimit(40)]
fn sweep_pt(
    mem: &mut PhysMem,
    fa: &mut FrameAllocator,
    pt: u64,
    n: u64,
    Ghost(m0): Ghost<PhysMem>,
    Ghost(f0): Ghost<FrameAllocator>,
    Ghost(root): Ghost<int>,
    Ghost(blk): Ghost<int>,
) -> (r: Result<u64, &'static str>)
    requires
        0 <= blk < USER_PAGES / 512,
        swept(&m0, &f0, old(mem), old(fa), root, blk * 512, n as int),
        on_walk(m0.words@, root, blk * 512, 1, pt as int),
    ensures
        r matches Ok(k) ==> {
            &&& swept(&m0, &f0, final(mem), final(fa), root, blk * 512 + 512, k as int)
            &&& final(mem).seats@ == old(mem).seats@
            &&& forall|u: int, j: int|
                old(mem).seats@.dom().contains(u) && u != pt && 0 <= j < 512 ==> #[trigger] entry(
                    final(mem).words@,
                    u,
                    j,
                ) == entry(old(mem).words@, u, j)
        },
        only_freed(old(fa), final(fa)),
        r is Err ==> r == teardown_failed() && !sole_below(&m0, &f0, root, USER_PAGES as int),
{
    proof {
        reveal(swept);
    }
    let ghost start = *mem;
    let mut k: u64 = n;
    let mut i: usize = 0;
    proof {
        assert(is_table(m0.words@, m0.seats@, root));
    }
    while i < 512
        invariant
            i <= 512,
            0 <= blk < USER_PAGES / 512,
            swept(&m0, &f0, mem, fa, root, blk * 512 + i, k as int),
            m0.seats@[root].owner == root,
            only_freed(old(fa), fa),
            mem.seats@ == start.seats@,
            on_walk(m0.words@, root, blk * 512, 1, pt as int),
            forall|u: int, j: int|
                start.seats@.dom().contains(u) && u != pt && 0 <= j < 512 ==> #[trigger] entry(
                    mem.words@,
                    u,
                    j,
                ) == entry(start.words@, u, j),
        decreases 512 - i,
    {
        match sweep_page(mem, fa, pt, i, k, Ghost(m0), Ghost(f0), Ghost(root), Ghost(blk)) {
            Ok(k1) => {
                k = k1;
            },
            Err(e) => {
                return Err(e);
            },
        }
        i = i + 1;
    }
    Ok(k)
}

/// Give back the 512 frames of the 2 MiB leaf `pde` that covers block `blk`,
/// and clear its entry in table `pd`.
#[verifier::spinoff_prover]
#[verifier::rlimit(40)]
fn sweep_block(
    mem: &mut PhysMem,
    fa: &mut FrameAllocator,
    pd: u64,
    at: usize,
    pde: u64,
    n: u64,
    Ghost(m0): Ghost<PhysMem>,
    Ghost(f0): Ghost<FrameAllocator>,
    Ghost(root): Ghost<int>,
    Ghost(blk): Ghost<int>,
) -> (r: Result<u64, &'static str>)
    requires
        0 <= blk < USER_PAGES / 512,
        at < 512,
        blk % 512 == at,
        swept(&m0, &f0, old(mem), old(fa), root, blk * 512, n as int),
        on_walk(m0.words@, root, blk * 512, 2, pd as int),
        slots(m0.words@, root, blk * 512).2 == pde,
        present(pde),
        huge(pde),
    ensures
        r matches Ok(k) ==> {
            &&& swept(&m0, &f0, final(mem), final(fa), root, blk * 512 + 512, k as int)
            &&& kept_above(old(mem), final(mem), 2, pd as int, at as int)
            &&& !present(entry(final(mem).words@, pd as int, at as int))
        },
        only_freed(old(fa), final(fa)),
        r is Err ==> r == teardown_failed() && !sole_below(&m0, &f0, root, USER_PAGES as int),
{
    proof {
        reveal(swept);
    }
    let ghost m = *mem;
    let mut k: u64 = n;
    let mut i: usize = 0;
    let base: u64 = pde & ADDR_MASK;
    let flags: u64 = pde & !ADDR_MASK & !PTE_HUGE;
    proof {
        lemma_mask(pde);
        lemma_mask(0);
    }
    while i < 512
        invariant
            i <= 512,
            0 <= blk < USER_PAGES / 512,
            teardown_start(&m0, &f0, root),
            only_freed(old(fa), fa),
            *mem == m,
            swept_frames(&m0, &f0, fa, root, blk * 512 + i, k as int),
            swept_tables(&m0, mem, fa, root, blk * 512),
            f0.available() + k <= frames::FRAME_COUNT,
            slots(m0.words@, root, blk * 512).2 == pde,
            present(pde),
            huge(pde),
            base == addr(pde),
            base <= 0x000F_FFFF_FFFF_F000,
            flags == pde & !ADDR_MASK & !PTE_HUGE,
        decreases 512 - i,
    {
        let ghost v = blk * 512 + i;
        proof {
            lemma_page_split(v);
            lemma_page_split(blk * 512);
            lemma_leaf_slots(m0.words@, root, v);
            assert(slots(m0.words@, root, v).2 == pde);
        }
        let e: u64 = (base + i as u64 * PAGE) | flags;
        assert(leaf(m0.words@, root, v) == Some(e));
        match release_page(
            fa,
            e & ADDR_MASK,
            k,
            Ghost(m0),
            Ghost(f0),
            Ghost(*mem),
            Ghost(root),
            Ghost(blk * 512),
            Ghost(v),
        ) {
            Ok(k1) => {
                k = k1;
            },
            Err(e) => {
                return Err(e);
            },
        }
        i = i + 1;
    }
    proof {
        let v = blk * 512;
        lemma_page_split(v);
        assert(is_table(m0.words@, m0.seats@, root));
        assert(slots(m.words@, root, v) == slots(m0.words@, root, v));
        lemma_path(m.words@, m.seats@, root, v);
        lemma_walk_stays(&m, &m, fa, root, 2, pd as int, at as int, blk);
    }
    let slot: usize = (pd / 8) as usize + at;
    mem.words[slot] = 0;
    proof {
        let v = blk * 512;
        lemma_write_entry(&m, fa, mem, pd as int, at as int, 0);
        lemma_block_write(&m, fa, mem, pd as int, at as int, 0);
        lemma_tables_clear(&m0, &m, mem, fa, root, v, v + 512, pd as int, at as int);
        frames::lemma_free_bounds(f0.map@, frames::FRAME_COUNT as int);
    }
    Ok(k)
}

/// Pages of a span whose walk stops at an empty entry have no leaf.
proof fn lemma_gap(
    m0: &PhysMem,
    f0: &FrameAllocator,
    m: &PhysMem,
    fa: &FrameAllocator,
    root: int,
    v0: int,
    v1: int,
    n: int,
)
    requires
        swept(m0, f0, m, fa, root, v0, n),
        0 <= v0 <= v1 <= USER_PAGES,
        forall|v: int|
            v0 <= v < v1 ==> {
                let s = #[trigger] slots(m0.words@, root, v);
                !present(s.0) || !present(s.1) || !present(s.2)
            },
    ensures
        swept(m0, f0, m, fa, root, v1, n),
{
    reveal(swept);
    lemma_mask(0);
    assert(is_table(m0.words@, m0.seats@, root));
    assert forall|v: int| v0 <= v < v1 implies #[trigger] leaf(m0.words@, root, v) is None by {
        lemma_leaf_slots(m0.words@, root, v);
        assert(slots(m0.words@, root, v) == slots(m0.words@, root, v));
    }
    assert forall|v: int| v0 <= v < v1 implies #[trigger] held_frame(m0, f0, root, v) is None by {
        assert(leaf(m0.words@, root, v) is None);
    }
    lemma_frames_skip(m0, f0, fa, root, v0, v1, n);
    lemma_tables_skip(m0, m, fa, root, v0, v1);
}

/// Tables of level `l` and above are as they were, but for entry `i` of `t`.
pub open spec fn kept_above(m: &PhysMem, m1: &PhysMem, l: int, t: int, i: int) -> bool {
    &&& forall|u: int|
        m.seats@.dom().contains(u) && m.seats@[u].level >= l ==> #[trigger] m1.seats@.dom().contains(
            u,
        )
    &&& forall|u: int| #[trigger] m1.seats@.dom().contains(u) ==> m.seats@.dom().contains(u)
        && m1.seats@[u] == m.seats@[u]
    &&& forall|u: int, j: int|
        m.seats@.dom().contains(u) && m.seats@[u].level >= l && 0 <= j < 512 && !(u == t && j == i)
            ==> #[trigger] entry(m1.words@, u, j) == entry(m.words@, u, j)
}

/// The pages of one span share the upper part of their walk.
proof fn lemma_same_upper(words: Seq<u64>, root: int, l: int, p: int)
    requires
        2 <= l <= 4,
        0 <= p,
        span_start(l, p + 1) <= PAGES,
    ensures
        forall|x: int|
            span_start(l, p) <= x < span_start(l, p + 1) ==> {
                let s = #[trigger] slots(words, root, x);
                let z = slots(words, root, span_start(l, p));
                &&& s.0 == z.0
                &&& l <= 3 ==> s.1 == z.1
                &&& l <= 2 ==> s.2 == z.2
            },
{
    assert forall|x: int| span_start(l, p) <= x < span_start(l, p + 1) implies {
        let s = #[trigger] slots(words, root, x);
        let z = slots(words, root, span_start(l, p));
        &&& s.0 == z.0
        &&& l <= 3 ==> s.1 == z.1
        &&& l <= 2 ==> s.2 == z.2
    } by {
        lemma_page_split(x);
        lemma_page_split(span_start(l, p));
        if l == 2 {
            assert(x / 512 == p);
            assert((p * 512) / 512 == p);
            assert(idx4(x) == p / 0x4_0000 && idx3(x) == p / 512 % 512 && idx2(x) == p % 512);
        } else if l == 3 {
            assert(x / 0x4_0000 == p);
            assert((p * 0x4_0000) / 0x4_0000 == p);
            assert(idx4(x) == p / 512 && idx3(x) == p % 512);
        } else {
            assert(x / 0x800_0000 == p);
            assert((p * 0x800_0000) / 0x800_0000 == p);
        }
    }
}

/// A table on the walk of the first page of an entry's span is on the walk of
/// them all, as long as the tables above it stand.
proof fn lemma_walk_stays(
    m: &PhysMem,
    m1: &PhysMem,
    fa: &FrameAllocator,
    root: int,
    l: int,
    t: int,
    i: int,
    p: int,
)
    requires
        m.wf(fa),
        is_root(m.seats@, root),
        2 <= l <= 4,
        0 <= p,
        span_start(l, p + 1) <= PAGES,
        on_walk(m.words@, root, span_start(l, p), l, t),
        kept_above(m, m1, l, t, i),
    ensures
        forall|x: int|
            span_start(l, p) <= x < span_start(l, p + 1) ==> #[trigger] on_walk(m1.words@, root, x, l, t),
{
    assert forall|x: int| span_start(l, p) <= x < span_start(l, p + 1) implies #[trigger] on_walk(
        m1.words@,
        root,
        x,
        l,
        t,
    ) by {
        lemma_same_upper(m.words@, root, l, p);
        assert(slots(m.words@, root, x).0 == slots(m.words@, root, span_start(l, p)).0);
        lemma_page_split(x);
        lemma_mask(0);
        lemma_path(m.words@, m.seats@, root, x);
        let a = entry(m.words@, root, idx4(x));
        if l <= 3 {
            assert(entry(m1.words@, root, idx4(x)) == a);
        }
        if l == 2 {
            let b = entry(m.words@, addr(a), idx3(x));
            assert(entry(m1.words@, addr(a), idx3(x)) == b);
        }
    }
}

/// Sweep entry `i` of the second-level table `pd`: block `blk`.
#[verifier::rlimit(50)]
#[verifier::spinoff_prover]
fn sweep_pde(
    mem: &mut PhysMem,
    fa: &mut FrameAllocator,
    pd: u64,
    i: usize,
    n: u64,
    Ghost(m0): Ghost<PhysMem>,
    Ghost(f0): Ghost<FrameAllocator>,
    Ghost(root): Ghost<int>,
    Ghost(blk): Ghost<int>,
) -> (r: Result<u64, &'static str>)
    requires
        0 <= blk < USER_PAGES / 512,
        i < 512,
        blk % 512 == i,
        swept(&m0, &f0, old(mem), old(fa), root, blk * 512, n as int),
        on_walk(m0.words@, root, blk * 512, 2, pd as int),
        tables_back(&m0, old(fa), root, 1, blk * 512),
    ensures
        only_freed(old(fa), final(fa)),
        r is Ok ==> tables_back(&m0, final(fa), root, 1, blk * 512 + 512),
        r matches Ok(k) ==> {
            &&& swept(&m0, &f0, final(mem), final(fa), root, blk * 512 + 512, k as int)
            &&& kept_above(old(mem), final(mem), 2, pd as int, i as int)
            &&& !present(entry(final(mem).words@, pd as int, i as int))
        },
        r is Err ==> r == teardown_failed() && !sole_below(&m0, &f0, root, USER_PAGES as int),
{
    let ghost v = blk * 512;
    let ghost m = *mem;
    proof {
        lemma_mask(0);
        lemma_swept(&m0, &f0, mem, fa, root, v, n as int);
        lemma_page_split(v);
        lemma_path(m0.words@, m0.seats@, root, v);
        assert(on_walk(m.words@, root, v, 2, pd as int));
        lemma_path(m.words@, m.seats@, root, v);
        lemma_same_upper(m0.words@, root, 2, blk);
    }
    let pde: u64 = read_entry(mem, pd, i);
    assert(pde == slots(m0.words@, root, v).2);
    if pde & PTE_PRESENT == 0 {
        proof {
            lemma_gap(&m0, &f0, mem, fa, root, v, v + 512, n as int);
            assert forall|x: int, y: int|
                0 <= x < v + 512 && #[trigger] on_walk(m0.words@, root, x, 1, y) implies !frames::used(
                fa.map@,
                y / 4096,
            ) by {
                if x >= v {
                    assert(slots(m0.words@, root, x).2 == pde);
                }
            }
        }
        return Ok(n);
    }
    if pde & PTE_HUGE != 0 {
        let res = sweep_block(
            mem,
            fa,
            pd,
            i,
            pde,
            n,
            Ghost(m0),
            Ghost(f0),
            Ghost(root),
            Ghost(blk),
        );
        proof {
            lemma_back_stays(&m0, &f0, old(fa), fa, root, 1, v);
            assert forall|x: int, y: int|
                0 <= x < v + 512 && #[trigger] on_walk(m0.words@, root, x, 1, y) implies !frames::used(
                fa.map@,
                y / 4096,
            ) by {
                if x >= v {
                    assert(slots(m0.words@, root, x).2 == pde);
                }
            }
        }
        return res;
    }
    let pt: u64 = pde & ADDR_MASK;
    assert(on_walk(m0.words@, root, v, 1, pt as int));
    match sweep_pt(mem, fa, pt, n, Ghost(m0), Ghost(f0), Ghost(root), Ghost(blk)) {
        Ok(k) => {
            let ghost mid = *mem;
            let ghost mid_fa = *fa;
            proof {
                lemma_swept(&m0, &f0, mem, fa, root, v + 512, k as int);
                assert(kept_above(&m, &mid, 2, pd as int, i as int));
                lemma_walk_stays(&m, &mid, &*old(fa), root, 2, pd as int, i as int, blk);
                assert(entry(mem.words@, pd as int, i as int) == pde);
                lemma_mask(pde);
                assert(claims(&m0, &f0, root, v, pt as int / 4096));
            }
            let k1: u64 = drop_table(
                mem,
                fa,
                pd,
                i,
                pt,
                k,
                Ghost(m0),
                Ghost(f0),
                Ghost(root),
                Ghost(v + 512),
            );
            proof {
                let tmp = PhysMem { words: mem.words, seats: mid.seats };
                lemma_write_entry(&mid, &mid_fa, &tmp, pd as int, i as int, 0);
                lemma_back_stays(&m0, &f0, old(fa), fa, root, 1, v);
                assert forall|x: int, y: int|
                    0 <= x < v + 512 && #[trigger] on_walk(
                        m0.words@,
                        root,
                        x,
                        1,
                        y,
                    ) implies !frames::used(fa.map@, y / 4096) by {
                    if x >= v {
                        assert(slots(m0.words@, root, x).2 == pde);
                    }
                }
            }
            Ok(k1)
        },
        Err(e) => Err(e),
    }
}

/// Sweep the second-level table `pd`, which covers the `g`-th span of 2^18
/// pages.
#[verifier::spinoff_prover]
#[verifier::rlimit(40)]
fn sweep_pd(
    mem: &mut PhysMem,
    fa: &mut FrameAllocator,
    pd: u64,
    n: u64,
    Ghost(m0): Ghost<PhysMem>,
    Ghost(f0): Ghost<FrameAllocator>,
    Ghost(root): Ghost<int>,
    Ghost(g): Ghost<int>,
) -> (r: Result<u64, &'static str>)
    requires
        0 <= g < USER_PAGES / 0x4_0000,
        swept(&m0, &f0, old(mem), old(fa), root, g * 0x4_0000, n as int),
        on_walk(m0.words@, root, g * 0x4_0000, 2, pd as int),
        tables_back(&m0, old(fa), root, 1, g * 0x4_0000),
    ensures
        only_freed(old(fa), final(fa)),
        r is Ok ==> tables_back(&m0, final(fa), root, 1, g * 0x4_0000 + 0x4_0000),
        r matches Ok(k) ==> {
            &&& swept(&m0, &f0, final(mem), final(fa), root, g * 0x4_0000 + 0x4_0000, k as int)
            &&& kept_above(old(mem), final(mem), 3, -1, 0)
            &&& table_empty(final(mem).words@, pd as int)
        },
        r is Err ==> r == teardown_failed() && !sole_below(&m0, &f0, root, USER_PAGES as int),
{
    let ghost start = *mem;
    let mut k: u64 = n;
    let mut i: usize = 0;
    proof {
        lemma_swept(&m0, &f0, mem, fa, root, g * 0x4_0000, n as int);
        lemma_path(m0.words@, m0.seats@, root, g * 0x4_0000);
        lemma_mask(0);
        lemma_same_upper(m0.words@, root, 3, g);
        lemma_path(mem.words@, mem.seats@, root, g * 0x4_0000);
    }
    while i < 512
        invariant
            i <= 512,
            0 <= g < USER_PAGES / 0x4_0000,
            swept(&m0, &f0, mem, fa, root, g * 0x4_0000 + i * 512, k as int),
            forall|x: int|
                g * 0x4_0000 <= x < (g + 1) * 0x4_0000 ==> #[trigger] slots(m0.words@, root, x).1
                    == slots(m0.words@, root, g * 0x4_0000).1,
            on_walk(m0.words@, root, g * 0x4_0000, 2, pd as int),
            kept_above(&start, mem, 3, -1, 0),
            only_freed(old(fa), fa),
            tables_back(&m0, fa, root, 1, g * 0x4_0000 + i * 512),
            mem.seats@.dom().contains(pd as int),
            mem.seats@[pd as int].level == 2,
            forall|j: int| 0 <= j < i ==> !present(#[trigger] entry(mem.words@, pd as int, j)),
        decreases 512 - i,
    {
        let ghost blk = g * 512 + i;
        let ghost m = *mem;
        assert(slots(m0.words@, root, blk * 512).1 == slots(m0.words@, root, g * 0x4_0000).1);
        match sweep_pde(mem, fa, pd, i, k, Ghost(m0), Ghost(f0), Ghost(root), Ghost(blk)) {
            Ok(k1) => {
                k = k1;
            },
            Err(e) => {
                return Err(e);
            },
        }
        assert(kept_above(&start, mem, 3, -1, 0)) by {
            assert forall|u: int, j: int|
                start.seats@.dom().contains(u) && start.seats@[u].level >= 3 && 0 <= j < 512 && !(u
                    == -1 && j == 0) implies #[trigger] entry(mem.words@, u, j) == entry(
                start.words@,
                u,
                j,
            ) by {
                assert(m.seats@.dom().contains(u));
                assert(entry(m.words@, u, j) == entry(start.words@, u, j));
            }
        }
        assert(mem.seats@.dom().contains(pd as int));
        assert forall|j: int| 0 <= j <= i implies !present(
            #[trigger] entry(mem.words@, pd as int, j),
        ) by {
            if j < i {
                assert(entry(mem.words@, pd as int, j) == entry(m.words@, pd as int, j));
            }
        }
        i = i + 1;
    }
    Ok(k)
}

/// Sweep entry `i` of the third-level table `pdpt`: the `g`-th span of 2^18
/// pages.
#[verifier::rlimit(50)]
#[verifier::spinoff_prover]
fn sweep_pdpte(
    mem: &mut PhysMem,
    fa: &mut FrameAllocator,
    pdpt: u64,
    i: usize,
    n: u64,
    Ghost(m0): Ghost<PhysMem>,
    Ghost(f0): Ghost<FrameAllocator>,
    Ghost(root): Ghost<int>,
    Ghost(g): Ghost<int>,
) -> (r: Result<u64, &'static str>)
    requires
        0 <= g < USER_PAGES / 0x4_0000,
        i < 512,
        g % 512 == i,
        swept(&m0, &f0, old(mem), old(fa), root, g * 0x4_0000, n as int),
        on_walk(m0.words@, root, g * 0x4_0000, 3, pdpt as int),
        tables_back(&m0, old(fa), root, 1, g * 0x4_0000),
        tables_back(&m0, old(fa), root, 2, g * 0x4_0000),
    ensures
        only_freed(old(fa), final(fa)),
        r is Ok ==> tables_back(&m0, final(fa), root, 1, g * 0x4_0000 + 0x4_0000),
        r is Ok ==> tables_back(&m0, final(fa), root, 2, g * 0x4_0000 + 0x4_0000),
        r matches Ok(k) ==> {
            &&& swept(&m0, &f0, final(mem), final(fa), root, g * 0x4_0000 + 0x4_0000, k as int)
            &&& kept_above(old(mem), final(mem), 3, pdpt as int, i as int)
            &&& !present(entry(final(mem).words@, pdpt as int, i as int))
        },
        r is Err ==> r == teardown_failed() && !sole_below(&m0, &f0, root, USER_PAGES as int),
{
    let ghost v = g * 0x4_0000;
    let ghost m = *mem;
    proof {
        lemma_mask(0);
        lemma_swept(&m0, &f0, mem, fa, root, v, n as int);
        lemma_page_split(v);
        lemma_path(m0.words@, m0.seats@, root, v);
        assert(on_walk(m.words@, root, v, 3, pdpt as int));
        lemma_path(m.words@, m.seats@, root, v);
        lemma_same_upper(m0.words@, root, 3, g);
    }
    let e3: u64 = read_entry(mem, pdpt, i);
    assert(e3 == slots(m0.words@, root, v).1);
    if e3 & PTE_PRESENT == 0 {
        proof {
            lemma_gap(&m0, &f0, mem, fa, root, v, v + 0x4_0000, n as int);
            assert forall|x: int, y: int, l: int|
                (l == 1 || l == 2) && 0 <= x < v + 0x4_0000 && #[trigger] on_walk(
                    m0.words@,
                    root,
                    x,
                    l,
                    y,
                ) implies !frames::used(fa.map@, y / 4096) by {
                if x >= v {
                    assert(slots(m0.words@, root, x).1 == e3);
                }
            }
        }
        return Ok(n);
    }
    let pd: u64 = e3 & ADDR_MASK;
    assert(on_walk(m0.words@, root, v, 2, pd as int));
    match sweep_pd(mem, fa, pd, n, Ghost(m0), Ghost(f0), Ghost(root), Ghost(g)) {
        Ok(k) => {
            let ghost mid = *mem;
            let ghost mid_fa = *fa;
            proof {
                lemma_swept(&m0, &f0, mem, fa, root, v + 0x4_0000, k as int);
                assert(kept_above(&m, &mid, 3, pdpt as int, i as int));
                assert(mid.seats@.dom().contains(pdpt as int));
                lemma_walk_stays(&m, &mid, &*old(fa), root, 3, pdpt as int, i as int, g);
                assert(entry(mem.words@, pdpt as int, i as int) == e3);
                lemma_mask(e3);
                assert(claims(&m0, &f0, root, v, pd as int / 4096));
            }
            let k1: u64 = drop_table(
                mem,
                fa,
                pdpt,
                i,
                pd,
                k,
                Ghost(m0),
                Ghost(f0),
                Ghost(root),
                Ghost(v + 0x4_0000),
            );
            proof {
                let tmp = PhysMem { words: mem.words, seats: mid.seats };
                lemma_write_entry(&mid, &mid_fa, &tmp, pdpt as int, i as int, 0);
                lemma_back_stays(&m0, &f0, &mid_fa, fa, root, 1, v + 0x4_0000);
                lemma_back_stays(&m0, &f0, old(fa), fa, root, 2, v);
                assert forall|x: int, y: int|
                    0 <= x < v + 0x4_0000 && #[trigger] on_walk(
                        m0.words@,
                        root,
                        x,
                        2,
                        y,
                    ) implies !frames::used(fa.map@, y / 4096) by {
                    if x >= v {
                        assert(slots(m0.words@, root, x).1 == e3);
                    }
                }
            }
            Ok(k1)
        },
        Err(e) => Err(e),
    }
}

/// Sweep the third-level table `pdpt`, which covers the `q`-th span of 2^27
/// pages.
#[verifier::spinoff_prover]
#[verifier::rlimit(40)]
fn sweep_pdpt(
    mem: &mut PhysMem,
    fa: &mut FrameAllocator,
    pdpt: u64,
    n: u64,
    Ghost(m0): Ghost<PhysMem>,
    Ghost(f0): Ghost<FrameAllocator>,
    Ghost(root): Ghost<int>,
    Ghost(q): Ghost<int>,
) -> (r: Result<u64, &'static str>)
    requires
        0 <= q < 256,
        swept(&m0, &f0, old(mem), old(fa), root, q * 0x800_0000, n as int),
        on_walk(m0.words@, root, q * 0x800_0000, 3, pdpt as int),
        tables_back(&m0, old(fa), root, 1, q * 0x800_0000),
        tables_back(&m0, old(fa), root, 2, q * 0x800_0000),
    ensures
        only_freed(old(fa), final(fa)),
        r is Ok ==> tables_back(&m0, final(fa), root, 1, q * 0x800_0000 + 0x800_0000),
        r is Ok ==> tables_back(&m0, final(fa), root, 2, q * 0x800_0000 + 0x800_0000),
        r matches Ok(k) ==> {
            &&& swept(&m0, &f0, final(mem), final(fa), root, q * 0x800_0000 + 0x800_0000, k as int)
            &&& kept_above(old(mem), final(mem), 4, -1, 0)
            &&& table_empty(final(mem).words@, pdpt as int)
        },
        r is Err ==> r == teardown_failed() && !sole_below(&m0, &f0, root, USER_PAGES as int),
{
    let ghost start = *mem;
    let mut k: u64 = n;
    let mut i: usize = 0;
    proof {
        lemma_swept(&m0, &f0, mem, fa, root, q * 0x800_0000, n as int);
        lemma_path(m0.words@, m0.seats@, root, q * 0x800_0000);
        lemma_mask(0);
        lemma_same_upper(m0.words@, root, 4, q);
        lemma_path(mem.words@, mem.seats@, root, q * 0x800_0000);
    }
    while i < 512
        invariant
            i <= 512,
            0 <= q < 256,
            swept(&m0, &f0, mem, fa, root, q * 0x800_0000 + i * 0x4_0000, k as int),
            forall|x: int|
                q * 0x800_0000 <= x < (q + 1) * 0x800_0000 ==> #[trigger] slots(
                    m0.words@,
                    root,
                    x,
                ).0 == slots(m0.words@, root, q * 0x800_0000).0,
            on_walk(m0.words@, root, q * 0x800_0000, 3, pdpt as int),
            kept_above(&start, mem, 4, -1, 0),
            only_freed(old(fa), fa),
            tables_back(&m0, fa, root, 1, q * 0x800_0000 + i * 0x4_0000),
            tables_back(&m0, fa, root, 2, q * 0x800_0000 + i * 0x4_0000),
            mem.seats@.dom().contains(pdpt as int),
            mem.seats@[pdpt as int].level == 3,
            forall|j: int| 0 <= j < i ==> !present(#[trigger] entry(mem.words@, pdpt as int, j)),
        decreases 512 - i,
    {
        let ghost g = q * 512 + i;
        let ghost m = *mem;
        assert(slots(m0.words@, root, g * 0x4_0000).0 == slots(m0.words@, root, q * 0x800_0000).0);
        match sweep_pdpte(mem, fa, pdpt, i, k, Ghost(m0), Ghost(f0), Ghost(root), Ghost(g)) {
            Ok(k1) => {
                k = k1;
            },
            Err(e) => {
                return Err(e);
            },
        }
        assert(kept_above(&start, mem, 4, -1, 0)) by {
            assert forall|u: int, j: int|
                start.seats@.dom().contains(u) && start.seats@[u].level >= 4 && 0 <= j < 512 && !(u
                    == -1 && j == 0) implies #[trigger] entry(mem.words@, u, j) == entry(
                start.words@,
                u,
                j,
            ) by {
                assert(m.seats@.dom().contains(u));
                assert(entry(m.words@, u, j) == entry(start.words@, u, j));
            }
        }
        assert(mem.seats@.dom().contains(pdpt as int));
        assert forall|j: int| 0 <= j <= i implies !present(
            #[trigger] entry(mem.words@, pdpt as int, j),
        ) by {
            if j < i {
                assert(entry(mem.words@, pdpt as int, j) == entry(m.words@, pdpt as int, j));
            }
        }
        i = i + 1;
    }
    Ok(k)
}

/// Tear down the user half of `pml4_phys`: every page goes from the tables,
/// every table of the half goes back to the pool, and so does every mapped
/// frame that came from it; a device page is left alone. The error means that
/// a frame could not be given back; the kernel stops on it.
#[verifier::spinoff_prover]
#[verifier::rlimit(40)]
pub fn destroy_user_half(mem: &mut PhysMem, fa: &mut FrameAllocator, pml4_phys: u64) -> (r: Result<
    u64,
    &'static str,
>)
    requires
        teardown_start(old(mem), old(fa), pml4_phys as int),
    ensures
        r is Ok <==> sole_below(old(mem), old(fa), pml4_phys as int, USER_PAGES as int),
        r is Err ==> r == teardown_failed(),
        r matches Ok(n) ==> {
            &&& swept_frames(
                old(mem),
                old(fa),
                final(fa),
                pml4_phys as int,
                USER_PAGES as int,
                n as int,
            )
            &&& swept_tables(
                old(mem),
                final(mem),
                final(fa),
                pml4_phys as int,
                USER_PAGES as int,
            )
            &&& forall|l: int|
                1 <= l <= 3 ==> #[trigger] tables_back(
                    old(mem),
                    final(fa),
                    pml4_phys as int,
                    l,
                    USER_PAGES as int,
                )
            &&& forall|i: int|
                0 <= i < 256 ==> !present(
                    #[trigger] entry(final(mem).words@, pml4_phys as int, i),
                )
        },
{
    let ghost m0 = *mem;
    let ghost f0 = *fa;
    let ghost root = pml4_phys as int;
    let mut k: u64 = 0;
    let mut i: usize = 0;
    proof {
        lemma_mask(0);
        assert(is_table(m0.words@, m0.seats@, root));
        frames::lemma_free_bounds(f0.map@, frames::FRAME_COUNT as int);
        assert(swept(&m0, &f0, mem, fa, root, 0, 0)) by {
            reveal(swept);
        }
    }
    while i < 256
        invariant
            i <= 256,
            root == pml4_phys,
            swept(&m0, &f0, mem, fa, root, i * 0x800_0000, k as int),
            forall|l: int|
                1 <= l <= 3 ==> #[trigger] tables_back(&m0, fa, root, l, i * 0x800_0000),
            m0 == *old(mem),
            f0 == *old(fa),
            m0.seats@[root].owner == root,
            m0.seats@[root].prefix == 0,
            0u64 & 1 == 0,
            forall|x: int|
                0 <= x < i ==> !present(#[trigger] entry(mem.words@, pml4_phys as int, x)),
        decreases 256 - i,
    {
        let ghost v = i * 0x800_0000;
        let ghost m = *mem;
        proof {
            lemma_swept(&m0, &f0, mem, fa, root, v, k as int);
            lemma_page_split(v);
            lemma_path(m.words@, m.seats@, root, v);
            lemma_path(m0.words@, m0.seats@, root, v);
            assert(idx4(v) == i);
            lemma_same_upper(m0.words@, root, 4, i as int);
        }
        let e4: u64 = read_entry(mem, pml4_phys, i);
        if e4 & PTE_PRESENT == 0 {
            proof {
                lemma_gap(&m0, &f0, mem, fa, root, v, v + 0x800_0000, k as int);
                assert forall|l: int| 1 <= l <= 3 implies #[trigger] tables_back(
                    &m0,
                    fa,
                    root,
                    l,
                    v + 0x800_0000,
                ) by {
                    assert forall|x: int, y: int|
                        0 <= x < v + 0x800_0000 && #[trigger] on_walk(
                            m0.words@,
                            root,
                            x,
                            l,
                            y,
                        ) implies !frames::used(fa.map@, y / 4096) by {
                        if x >= v {
                            assert(slots(m0.words@, root, x).0 == e4);
                        } else {
                            assert(tables_back(&m0, fa, root, l, v));
                        }
                    }
                }
            }
        } else {
            let pdpt: u64 = e4 & ADDR_MASK;
            let ghost pre_fa = *fa;
            assert(tables_back(&m0, fa, root, 1, v) && tables_back(&m0, fa, root, 2, v)
                && tables_back(&m0, fa, root, 3, v));
            assert(on_walk(m0.words@, root, v, 3, pdpt as int));
            match sweep_pdpt(mem, fa, pdpt, k, Ghost(m0), Ghost(f0), Ghost(root), Ghost(i as int)) {
                Ok(k1) => {
                    k = k1;
                },
                Err(e) => {
                    return Err(e);
                },
            }
            let ghost mid = *mem;
            let ghost mid_fa = *fa;
            proof {
                lemma_swept(&m0, &f0, mem, fa, root, v + 0x800_0000, k as int);
                assert(is_table(mid.words@, mid.seats@, root));
                assert(entry(mem.words@, root, i as int) == e4);
                lemma_mask(e4);
                assert(claims(&m0, &f0, root, v, pdpt as int / 4096));
                assert forall|x: int|
                    v <= x < v + 0x800_0000 implies #[trigger] on_walk(
                    mid.words@,
                    root,
                    x,
                    4,
                    root,
                ) by {}
            }
            k = drop_table(
                mem,
                fa,
                pml4_phys,
                i,
                pdpt,
                k,
                Ghost(m0),
                Ghost(f0),
                Ghost(root),
                Ghost(v + 0x800_0000),
            );
            proof {
                lemma_back_stays(&m0, &f0, &mid_fa, fa, root, 1, v + 0x800_0000);
                lemma_back_stays(&m0, &f0, &mid_fa, fa, root, 2, v + 0x800_0000);
                lemma_back_stays(&m0, &f0, &pre_fa, fa, root, 3, v);
                assert forall|x: int, y: int|
                    0 <= x < v + 0x800_0000 && #[trigger] on_walk(
                        m0.words@,
                        root,
                        x,
                        3,
                        y,
                    ) implies !frames::used(fa.map@, y / 4096) by {
                    if x >= v {
                        assert(slots(m0.words@, root, x).0 == e4);
                    }
                }
                assert forall|x: int| 0 <= x < i + 1 implies !present(
                    #[trigger] entry(mem.words@, pml4_phys as int, x),
                ) by {
                    if x < i {
                        assert(entry(mid.words@, root, x) == entry(m.words@, root, x));
                    }
                }
            }
        }
        i = i + 1;
    }
    proof {
        reveal(swept);
    }
    Ok(k)
}

/// The entry that translates `va` under `root`; a page of a 2 MiB leaf has
/// the entry that the leaf would be cut into.
pub fn translate(mem: &PhysMem, root: u64, va: u64) -> (r: Option<u64>)
    requires
        tables_wf(mem.words@, mem.seats@),
        is_root(mem.seats@, root as int),
    ensures
        r == leaf(mem.words@, root as int, page_no(va as int)),
{
    let ghost v = page_no(va as int);
    proof {
        lemma_path(mem.words@, mem.seats@, root as int, v);
        lemma_page_split(v);
    }
    let e4: u64 = read_entry(mem, root, pml4_idx(va));
    if e4 & PTE_PRESENT == 0 {
        return None;
    }
    let e3: u64 = read_entry(mem, e4 & ADDR_MASK, pdpt_idx(va));
    if e3 & PTE_PRESENT == 0 {
        return None;
    }
    let e2: u64 = read_entry(mem, e3 & ADDR_MASK, pd_idx(va));
    if e2 & PTE_PRESENT == 0 {
        return None;
    }
    if e2 & PTE_HUGE != 0 {
        proof {
            lemma_mask(e2);
        }
        return Some(
            ((e2 & ADDR_MASK) + pt_idx(va) as u64 * PAGE) | (e2 & !ADDR_MASK & !PTE_HUGE),
        );
    }
    let e1: u64 = read_entry(mem, e2 & ADDR_MASK, pt_idx(va));
    if e1 & PTE_PRESENT == 0 {
        None
    } else {
        Some(e1)
    }
}

/// The 512 pages around page `v` of `root` are now the 2 MiB entry `w`, the
/// tables on the way were added, and nothing else changed.
pub open spec fn mapped_2m(
    pre: &PhysMem,
    pre_fa: &FrameAllocator,
    post: &PhysMem,
    post_fa: &FrameAllocator,
    root: int,
    v: int,
    w: u64,
) -> bool {
    &&& post.wf(post_fa)
    &&& tables_grown(pre, pre_fa, post)
    &&& data_kept(pre, pre_fa, post)
    &&& frames_spent(pre_fa, post_fa, missing_2m(pre.words@, root, v))
    &&& needs::blocked(pre, post, root, v)
    &&& forall|r: int, x: int| #![trigger leaf(post.words@, r, x)]
        is_root(pre.seats@, r) && 0 <= x < PAGES && !(x / 512 == v / 512 && owner_of(
            pre.seats@[r],
            x,
        ) == root) ==> leaf(post.words@, r, x) == leaf(pre.words@, r, x)
    &&& forall|x: int|
        0 <= x < PAGES && x / 512 == v / 512 ==> #[trigger] leaf(post.words@, root, x) == (
        if present(w) {
            Some(split_entry(w, idx1(x)))
        } else {
            None
        })
}

proof fn lemma_huge_entry(w: u64)
    by (bit_vector)
    ensures
        (w | 0x80u64) & 0x80 != 0,
{
}

/// What [`map_2m`] answers and does.
pub open spec fn large_page_mapped(
    mem0: &PhysMem,
    mem1: &PhysMem,
    fa0: &FrameAllocator,
    fa1: &FrameAllocator,
    root: u64,
    va: u64,
    pa: u64,
    flags: u64,
    r: bool,
) -> bool {
    &&& r == can_take(
        fa0,
        missing_2m(mem0.words@, root as int, page_no(va as int)),
    )
    &&& r ==> mapped_2m(
        mem0,
        fa0,
        mem1,
        fa1,
        root as int,
        page_no(va as int),
        (pa & ADDR_MASK) | flags | PTE_HUGE,
    )
    &&& !r ==> ran_out(mem0, fa0, mem1, fa1)
    &&& grown_for(mem0, fa0, mem1, fa1, root as int)
}

/// Map the 2 MiB around `va` under `root` to those at `pa`, with `flags`.
/// False if the frames run out. A last-level table that hung there is lost, so
/// there must be none under a root that borrows its upper half.
pub fn map_2m(
    mem: &mut PhysMem,
    fa: &mut FrameAllocator,
    root: u64,
    va: u64,
    pa: u64,
    flags: u64,
) -> (r: bool)
    requires
        old(mem).wf(old(fa)),
        editable(old(mem).seats@, root as int, page_no(va as int)),
        old(mem).seats@[root as int].upper == root || ({
            let c = slots(old(mem).words@, root as int, page_no(va as int)).2;
            !present(c) || huge(c)
        }),
    ensures
        large_page_mapped(old(mem), final(mem), old(fa), final(fa), root, va, pa, flags, r),
{
    let ghost v = page_no(va as int);
    let ghost m0 = *mem;
    let ghost f0 = *fa;
    proof {
        lemma_page_split(v);
        lemma_mask(0);
    }
    let pd: u64 = match reach_pd(mem, fa, root, va) {
        Some(p) => p,
        None => {
            return false;
        },
    };
    let ghost m2 = *mem;
    let ghost f2 = *fa;
    proof {
        lemma_path(m2.words@, m2.seats@, root as int, v);
    }
    let w: u64 = (pa & ADDR_MASK) | flags | PTE_HUGE;
    let at: usize = (pd / 8) as usize + pd_idx(va);
    mem.words[at] = w;
    proof {
        lemma_huge_entry((pa & ADDR_MASK) | flags);
        assert(wrote(&m2, mem, pd as int, idx2(v), w));
        lemma_write_entry(&m2, &f2, mem, pd as int, idx2(v), w);
        if missing_2m(m0.words@, root as int, v) == 0 {
            needs::lemma_near(&m0, root as int, v, 1);
        }
        needs::lemma_blocked(&m0, &m2, mem, root as int, v, pd as int);
        lemma_block_write(&m2, &f2, mem, pd as int, idx2(v), w);
        lemma_slots_write(m2.words@, mem.words@, m2.seats@, pd as int, idx2(v));
        lemma_kept_kept(&m0, &f0, &m2, &f2, mem, &f2);
        lemma_grown_same(&m2, &f2, mem, root as int);
        lemma_grown_grown(&m0, &f0, &m2, &f2, mem, &f2, root as int);
        assert forall|r: int, x: int| #![trigger leaf(mem.words@, r, x)]
            is_root(m0.seats@, r) && 0 <= x < PAGES && !(x / 512 == v / 512 && owner_of(
                m0.seats@[r],
                x,
            ) == root) implies leaf(mem.words@, r, x) == leaf(m0.words@, r, x) by {
            assert(m2.seats@.dom().contains(r));
            assert(leaf(m2.words@, r, x) == leaf(m0.words@, r, x));
            assert(slots(mem.words@, r, x) == slots(m2.words@, r, x));
            lemma_leaf_slots(mem.words@, r, x);
            lemma_leaf_slots(m2.words@, r, x);
        }
        assert forall|x: int| 0 <= x < PAGES && x / 512 == v / 512 implies #[trigger] leaf(
            mem.words@,
            root as int,
            x,
        ) == (if present(w) {
            Some(split_entry(w, idx1(x)))
        } else {
            None
        }) by {
            lemma_page_split(x);
            assert(idx4(x) == idx4(v) && idx3(x) == idx3(v) && idx2(x) == idx2(v));
            let a = entry(m2.words@, root as int, idx4(v));
            assert(entry(mem.words@, root as int, idx4(v)) == a);
            let b = entry(m2.words@, addr(a), idx3(v));
            assert(entry(mem.words@, addr(a), idx3(v)) == b);
        }
    }
    true
}

/// What [`unmap_page`] answers and does.
pub open spec fn unmapped(
    mem0: &PhysMem,
    mem1: &PhysMem,
    fa: &FrameAllocator,
    root: u64,
    va: u64,
    r: Option<u64>,
) -> bool {
    &&& mem1.wf(fa)
    &&& mem1.seats@ == mem0.seats@
    &&& r == (match pte_at(mem0.words@, root as int, page_no(va as int)) {
        Some(e) => Some(e & ADDR_MASK),
        None => None,
    })
    &&& r is None ==> *mem1 == *mem0
    &&& r is Some ==> {
        &&& leaf(mem1.words@, root as int, page_no(va as int)) is None
        &&& same_leaves_but(mem0, mem1, root as int, page_no(va as int))
        &&& data_kept(mem0, fa, mem1)
    }
}

/// Clear the 4 KiB entry of `va` under `root` and give the address that was
/// in it.
pub fn unmap_page(mem: &mut PhysMem, fa: &FrameAllocator, root: u64, va: u64) -> (r: Option<u64>)
    requires
        old(mem).wf(fa),
        editable(old(mem).seats@, root as int, page_no(va as int)),
    ensures
        unmapped(old(mem), final(mem), fa, root, va, r),
{
    let ghost v = page_no(va as int);
    let ghost m0 = *mem;
    proof {
        lemma_page_split(v);
        lemma_path(m0.words@, m0.seats@, root as int, v);
        lemma_mask(0);
    }
    let at: usize = match find_pte(mem, root, va) {
        None => {
            return None;
        },
        Some(s) => s,
    };
    let e: u64 = mem.words[at];
    if e & PTE_PRESENT == 0 {
        return None;
    }
    mem.words[at] = 0;
    proof {
        let a = entry(m0.words@, root as int, idx4(v));
        let b = entry(m0.words@, addr(a), idx3(v));
        let c = entry(m0.words@, addr(b), idx2(v));
        let pt = addr(c);
        assert(mem.words@ == m0.words@.update(pt / 8 + idx1(v), 0));
        lemma_write_entry(&m0, fa, mem, pt, idx1(v), 0);
        lemma_leaf_write(m0.words@, mem.words@, m0.seats@, pt, idx1(v));
        assert(entry(mem.words@, root as int, idx4(v)) == a);
        assert(entry(mem.words@, addr(a), idx3(v)) == b);
        assert(entry(mem.words@, addr(b), idx2(v)) == c);
        assert(entry(mem.words@, addr(c), idx1(v)) == 0);
    }
    Some(e & ADDR_MASK)
}

/// Copy the upper half of the table at word `src` to the table at word `base`.
fn copy_upper(mem: &mut PhysMem, base: usize, src: usize)
    requires
        base % 512 == 0,
        src % 512 == 0,
        base != src,
        base + 512 <= old(mem).words@.len(),
        src + 512 <= old(mem).words@.len(),
    ensures
        final(mem).seats@ == old(mem).seats@,
        final(mem).words@.len() == old(mem).words@.len(),
        forall|j: int|
            0 <= j < old(mem).words@.len() ==> #[trigger] final(mem).words@[j] == (if base + 256
                <= j < base + 512 {
                old(mem).words@[j - base + src]
            } else {
                old(mem).words@[j]
            }),
{
    let n: usize = mem.words.len();
    let mut i: usize = 256;
    while i < 512
        invariant
            256 <= i <= 512,
            base % 512 == 0,
            src % 512 == 0,
            base != src,
            n == mem.words@.len(),
            base + 512 <= n,
            src + 512 <= n,
            mem.seats@ == old(mem).seats@,
            mem.words@.len() == old(mem).words@.len(),
            forall|j: int|
                0 <= j < old(mem).words@.len() ==> #[trigger] mem.words@[j] == (if base + 256 <= j
                    < base + i {
                    old(mem).words@[j - base + src]
                } else {
                    old(mem).words@[j]
                }),
        decreases 512 - i,
    {
        let e: u64 = mem.words[src + i];
        mem.words[base + i] = e;
        i = i + 1;
    }
}

/// What stands in entry `j` of a new root.
pub open spec fn root_entry(w0: Seq<u64>, lender: Option<u64>, j: int) -> u64 {
    match lender {
        Some(k) => if j >= 256 {
            entry(w0, k as int, j)
        } else {
            0
        },
        None => 0,
    }
}

/// Seating a new root in a fresh frame keeps the tables in order.
#[verifier::spinoff_prover]
#[verifier::rlimit(40)]
proof fn lemma_new_root(
    m0: &PhysMem,
    f0: &FrameAllocator,
    m: &PhysMem,
    fa: &FrameAllocator,
    f: int,
    lender: Option<u64>,
)
    requires
        m0.wf(f0),
        lender matches Some(k) ==> is_root(m0.seats@, k as int) && m0.seats@[k as int].upper == k,
        fa.wf(),
        frames::took(f0, fa, f),
        frames_spent(f0, fa, 1),
        f / 8 + 512 <= m.words@.len(),
        !m0.seats@.dom().contains(f),
        m.words@.len() == m0.words@.len(),
        m.seats@ == m0.seats@.insert(
            f,
            (Seat {
                owner: f,
                upper: match lender {
                    Some(k) => k as int,
                    None => f,
                },
                parent: f,
                level: 4,
                prefix: 0,
            }),
        ),
        forall|j: int| 0 <= j < 512 ==> #[trigger] entry(m.words@, f, j) == root_entry(
            m0.words@,
            lender,
            j,
        ),
        forall|k: int|
            0 <= k < m0.words@.len() && !(f / 8 <= k < f / 8 + 512) ==> #[trigger] m.words@[k]
                == m0.words@[k],
    ensures
        m.wf(fa),
        tables_grown(m0, f0, m),
        data_kept(m0, f0, m),
        same_leaves(m0, m),
        lender is Some ==> user_empty(m.words@, f),
        forall|v: int|
            0 <= v < PAGES ==> #[trigger] leaf(m.words@, f, v) == (match lender {
                Some(k) => if v >= USER_PAGES {
                    leaf(m0.words@, k as int, v)
                } else {
                    None
                },
                None => None,
            }),
{
    let s0 = m0.seats@;
    let s1 = m.seats@;
    lemma_mask(0);
    lemma_apart(m0.words@, m.words@, s0, f);
    assert forall|t: int| #[trigger] s1.dom().contains(t) implies is_table(
        m.words@,
        s1,
        t,
    ) by {
        if t != f {
            assert(is_table(m0.words@, s0, t));
        }
    }
    assert forall|t: int, i: int|
        s1.dom().contains(t) && s1[t].level >= 2 && 0 <= i < 512 implies #[trigger] entry_ok(
        m.words@,
        s1,
        t,
        i,
    ) by {
        if t == f {
            assert(entry(m.words@, f, i) == entry(m.words@, f, i));
            if let Some(k) = lender {
                if i >= 256 {
                    assert(entry_ok(m0.words@, s0, k as int, i));
                }
            }
        } else {
            assert(entry_ok(m0.words@, s0, t, i));
            assert(entry(m.words@, t, i) == entry(m0.words@, t, i));
        }
    }
    assert forall|t: int| #[trigger] s1.dom().contains(t) implies hangs(
        m.words@,
        s1,
        t,
    ) by {
        reveal(hangs);
        if t != f {
            assert(hangs(m.words@, s0, t));
        }
    }
    assert forall|t: int| #[trigger] s1.dom().contains(t) implies fa.in_use(t) by {
        if t != f {
            assert(s0.dom().contains(t));
        }
    }
    assert forall|k: int| #![trigger m.words@[k]]
        0 <= k < m0.words@.len() && frames::used(f0.map@, k / 512) && !s0.dom().contains(
            k / 512 * 4096,
        ) && k / 512 < frames::FRAME_COUNT implies m.words@[k] == m0.words@[k] by {
        if f / 8 <= k < f / 8 + 512 {
            assert(k / 512 == f / 4096);
        }
    }
    assert forall|v: int| 0 <= v < PAGES implies #[trigger] leaf(m.words@, f, v) == (
    match lender {
        Some(k) => if v >= USER_PAGES {
            leaf(m0.words@, k as int, v)
        } else {
            None
        },
        None => None,
    }) by {
        lemma_page_split(v);
        assert(entry(m.words@, f, idx4(v)) == entry(m.words@, f, idx4(v)));
        if let Some(k) = lender {
            lemma_path(m0.words@, s0, k as int, v);
            if v >= USER_PAGES {
                assert(idx4(v) >= 256);
                let a = entry(m0.words@, k as int, idx4(v));
                assert(entry(m.words@, f, idx4(v)) == a);
                if present(a) {
                    let b = entry(m0.words@, addr(a), idx3(v));
                    assert(entry(m.words@, addr(a), idx3(v)) == b);
                    if present(b) {
                        let c = entry(m0.words@, addr(b), idx2(v));
                        assert(entry(m.words@, addr(b), idx2(v)) == c);
                        if present(c) && !huge(c) {
                            assert(entry(m.words@, addr(c), idx1(v)) == entry(
                                m0.words@,
                                addr(c),
                                idx1(v),
                            ));
                        }
                    }
                }
            } else {
                assert(idx4(v) < 256);
            }
        }
    }
}

/// The upper half of the root `f` has the entries of the root `k`.
pub open spec fn upper_lent(words: Seq<u64>, f: int, k: int) -> bool {
    forall|j: int| 256 <= j < 512 ==> #[trigger] entry(words, f, j) == entry(words, k, j)
}

/// What [`new_root`] answers and does.
pub open spec fn root_made(
    mem0: &PhysMem,
    mem1: &PhysMem,
    fa0: &FrameAllocator,
    fa1: &FrameAllocator,
    lender: Option<u64>,
    r: Option<u64>,
) -> bool {
    &&& mem1.wf(fa1)
    &&& r is None <==> !can_take(fa0, 1)
    &&& r is None ==> *mem1 == *mem0 && *fa1 == *fa0
    &&& r matches Some(f) ==> {
        &&& frames::took(fa0, fa1, f as int)
        &&& frames_spent(fa0, fa1, 1)
        &&& tables_grown(mem0, fa0, mem1)
        &&& data_kept(mem0, fa0, mem1)
        &&& same_leaves(mem0, mem1)
        &&& lender is Some ==> user_empty(mem1.words@, f as int)
        &&& lender is None ==> forall|w: int|
            0 <= w < PAGES ==> #[trigger] missing(mem1.words@, f as int, w) == 3
        &&& lender matches Some(k) ==> upper_lent(mem1.words@, f as int, k as int)
        &&& !mem0.seats@.dom().contains(f as int)
        &&& is_root(mem1.seats@, f as int)
        &&& mem1.seats@ == mem0.seats@.insert(
            f as int,
            mem1.seats@[f as int],
        )
        &&& mem1.seats@[f as int].upper == (match lender {
            Some(k) => k as int,
            None => f as int,
        })
        &&& forall|v: int|
            0 <= v < PAGES ==> #[trigger] leaf(mem1.words@, f as int, v) == (match lender {
                Some(k) => if v >= USER_PAGES {
                    leaf(mem0.words@, k as int, v)
                } else {
                    None
                },
                None => None,
            })
    }
}

/// A new root whose upper half is a copy of `lender`'s, or is empty if there
/// is no lender.
pub fn new_root(mem: &mut PhysMem, fa: &mut FrameAllocator, lender: Option<u64>) -> (r: Option<u64>)
    requires
        old(mem).wf(old(fa)),
        lender matches Some(k) ==> is_root(old(mem).seats@, k as int)
            && old(mem).seats@[k as int].upper == k,
    ensures
        root_made(old(mem), final(mem), old(fa), final(fa), lender, r),
{
    let ghost m0 = *mem;
    let ghost f0 = *fa;
    proof {
        frames::lemma_free_bounds(f0.map@, frames::FRAME_COUNT as int);
    }
    let f: u64 = match new_table(mem, fa) {
        None => {
            return None;
        },
        Some(f) => f,
    };
    let ghost m1 = *mem;
    let base: usize = (f / 8) as usize;
    if let Some(k) = lender {
        proof {
            assert(is_table(m0.words@, m0.seats@, k as int));
        }
        let src: usize = (k / 8) as usize;
        copy_upper(mem, base, src);
    }
    proof {
        let up = match lender {
            Some(k) => k as int,
            None => f as int,
        };
        let seat = Seat { owner: f as int, upper: up, parent: f as int, level: 4, prefix: 0 };
        mem.seats@ = m0.seats@.insert(f as int, seat);
        assert forall|j: int| 0 <= j < 512 implies #[trigger] entry(mem.words@, f as int, j)
            == root_entry(m0.words@, lender, j) by {
            assert(entry(m1.words@, f as int, j) == 0);
            if let Some(k) = lender {
                assert(m1.words@[k as int / 8 + j] == m0.words@[k as int / 8 + j]);
                assert(mem.words@[base + j] == (if j >= 256 {
                    m1.words@[k as int / 8 + j]
                } else {
                    m1.words@[base + j]
                }));
            }
        }
        if lender is None {
            lemma_mask(0);
            assert forall|w: int| 0 <= w < PAGES implies #[trigger] missing(
                mem.words@,
                f as int,
                w,
            ) == 3 by {
                lemma_page_split(w);
                assert(entry(mem.words@, f as int, idx4(w)) == 0);
            }
        }
        lemma_new_root(&m0, &f0, mem, fa, f as int, lender);
        if let Some(k) = lender {
            assert forall|j: int| 256 <= j < 512 implies #[trigger] entry(mem.words@, f as int, j)
                == entry(mem.words@, k as int, j) by {
                assert(entry(mem.words@, f as int, j) == root_entry(m0.words@, lender, j));
                assert(m1.words@[k as int / 8 + j] == m0.words@[k as int / 8 + j]);
                assert(mem.words@[k as int / 8 + j] == m1.words@[k as int / 8 + j]);
            }
        }
    }
    Some(f)
}

/// No table hangs in the user half of `root`.
pub open spec fn user_empty(words: Seq<u64>, root: int) -> bool {
    forall|i: int| 0 <= i < 256 ==> !present(#[trigger] entry(words, root, i))
}

/// A root with an empty user half owns no other table.
pub proof fn lemma_nothing_owned(m: &PhysMem, root: int, t: int)
    requires
        tables_wf(m.words@, m.seats@),
        is_root(m.seats@, root),
        m.seats@[root].upper != root,
        user_empty(m.words@, root),
        m.seats@.dom().contains(t),
        m.seats@[t].owner == root,
    ensures
        t == root,
    decreases 4 - m.seats@[t].level,
{
    reveal(hangs);
    let seats = m.seats@;
    assert(is_table(m.words@, seats, t));
    assert(hangs(m.words@, seats, t));
    if seats[t].level < 4 {
        let p = seats[t].parent;
        let i = seats[t].prefix % 512;
        assert(is_table(m.words@, seats, p));
        if seats[p].level == 4 {
            let up = seats[p].upper;
            assert(is_table(m.words@, seats, up));
            assert(p == root);
            assert(i < 256);
            assert(present(entry(m.words@, root, i)));
        } else {
            lemma_nothing_owned(m, root, p);
        }
    }
}

/// Forget a root that borrows its upper half and has no user page left, and
/// give back its frame.
pub fn drop_root(mem: &mut PhysMem, fa: &mut FrameAllocator, root: u64) -> (r: Result<
    (),
    &'static str,
>)
    requires
        old(mem).wf(old(fa)),
        old(fa).ready,
        is_root(old(mem).seats@, root as int),
        old(mem).seats@[root as int].upper != root,
        user_empty(old(mem).words@, root as int),
    ensures
        r == Ok::<(), &'static str>(()),
        final(mem).wf(final(fa)),
        final(mem).words@ == old(mem).words@,
        final(mem).seats@ == old(mem).seats@.remove(root as int),
        final(fa).same_pool(old(fa)),
        frames::gave_back(old(fa), final(fa), root as int),
{
    reveal(hangs);
    let ghost m0 = *mem;
    let ghost f0 = *fa;
    proof {
        assert(is_table(m0.words@, m0.seats@, root as int));
        assert(fa.in_use(root as int));
        let s0 = m0.seats@;
        let s1 = s0.remove(root as int);
        mem.seats@ = s1;
        assert forall|t: int| #[trigger] s1.dom().contains(t) implies is_table(
            mem.words@,
            s1,
            t,
        ) by {
            assert(is_table(m0.words@, s0, t));
        }
        assert forall|t: int, i: int|
            s1.dom().contains(t) && s1[t].level >= 2 && 0 <= i < 512 implies #[trigger] entry_ok(
            mem.words@,
            s1,
            t,
            i,
        ) by {
            assert(entry_ok(m0.words@, s0, t, i));
            assert(is_table(m0.words@, s0, t));
        }
        assert forall|t: int| #[trigger] s1.dom().contains(t) implies hangs(mem.words@, s1, t) by {
            assert(hangs(m0.words@, s0, t));
            if s0[t].level < 4 {
                if s0[t].owner == root {
                    lemma_nothing_owned(&m0, root as int, t);
                }
            }
        }
        assert forall|t: int| #[trigger] s1.dom().contains(t) implies fa.in_use(t) by {
            assert(s0.dom().contains(t));
        }
    }
    let r = frames::free(fa, root);
    proof {
        lemma_wf_free(mem, &f0, fa, root as int);
    }
    r
}

/// The entries on the way to page `v` of `root`, from the root down, as far
/// as the walk goes; zero below.
pub open spec fn chain(words: Seq<u64>, root: int, v: int) -> Seq<u64> {
    let a = entry(words, root, idx4(v));
    let b = entry(words, addr(a), idx3(v));
    let c = entry(words, addr(b), idx2(v));
    let d = entry(words, addr(c), idx1(v));
    if !present(a) {
        seq![a, 0, 0, 0]
    } else if !present(b) || huge(b) {
        seq![a, b, 0, 0]
    } else if !present(c) || huge(c) {
        seq![a, b, c, 0]
    } else {
        seq![a, b, c, d]
    }
}

/// Read the entries on the way to `va`.
pub fn walk_chain(mem: &PhysMem, pml4_phys: u64, va: u64) -> (r: [u64; 4])
    requires
        tables_wf(mem.words@, mem.seats@),
        is_root(mem.seats@, pml4_phys as int),
    ensures
        r@ == chain(mem.words@, pml4_phys as int, page_no(va as int)),
{
    let ghost v = page_no(va as int);
    proof {
        lemma_path(mem.words@, mem.seats@, pml4_phys as int, v);
        lemma_page_split(v);
    }
    let mut out: [u64; 4] = [0, 0, 0, 0];
    let e4: u64 = read_entry(mem, pml4_phys, pml4_idx(va));
    out[0] = e4;
    if e4 & PTE_PRESENT == 0 {
        assert(out@ =~= chain(mem.words@, pml4_phys as int, v));
        return out;
    }
    let e3: u64 = read_entry(mem, e4 & ADDR_MASK, pdpt_idx(va));
    out[1] = e3;
    if e3 & PTE_PRESENT == 0 || e3 & PTE_HUGE != 0 {
        assert(out@ =~= chain(mem.words@, pml4_phys as int, v));
        return out;
    }
    let e2: u64 = read_entry(mem, e3 & ADDR_MASK, pd_idx(va));
    out[2] = e2;
    if e2 & PTE_PRESENT == 0 || e2 & PTE_HUGE != 0 {
        assert(out@ =~= chain(mem.words@, pml4_phys as int, v));
        return out;
    }
    out[3] = read_entry(mem, e2 & ADDR_MASK, pt_idx(va));
    assert(out@ =~= chain(mem.words@, pml4_phys as int, v));
    out
}

} // verus!
