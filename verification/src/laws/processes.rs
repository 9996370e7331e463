//! Processes from their first moment to their last.

use crate::kernel::Kernel;
use crate::laws::calls;
use crate::laws::calls::has;
use crate::laws::memory;
use crate::laws::pool;
use crate::cap::Cap;
use crate::paging;
use crate::proc;
use crate::proc::{ProcTable, Process};
use vstd::prelude::*;

verus! {

/// The process with number `pid` is in the table.
pub open spec fn lives(t: ProcTable, pid: u64) -> bool {
    exists|i: int|
        0 <= i < t.slots@.len() && (#[trigger] t.slots@[i]) is Some && t.slots@[i]->0.id == pid
}

/// `p` is in the table.
pub open spec fn listed(t: ProcTable, p: Process) -> bool {
    exists|i: int| 0 <= i < t.slots@.len() && #[trigger] t.slots@[i] == Some(p)
}

/// A new process has a number that no process had, no capability, nobody to
/// tell of its end, and an address space of its own: a frame that was free,
/// with an empty user half and the kernel in its upper half. Every other
/// process stays as it is.
#[verifier::rlimit(40)]
pub proof fn law_new_process_has_nothing(
    k0: &Kernel,
    k1: &Kernel,
    name: &'static str,
    pid: u64,
    x: u64,
) -> (p: Process)
    requires
        k0.wf(),
        proc::create_answer(k0, k1, name, Ok(pid)),
    ensures
        !lives(k0.procs, pid),
        listed(k1.procs, p),
        p.id == pid,
        p.name == name,
        p.exit_notif.0 == 0xFFFF_FFFF,
        forall|n: int| 0 <= n < 16 ==> (#[trigger] p.caps.slots@[n]).obj is Empty,
        forall|q: Process| #[trigger] listed(k0.procs, q) ==> listed(k1.procs, q),
        forall|q: Process| #[trigger]
            listed(k1.procs, q) && q.id != pid ==> listed(k0.procs, q),
        p.pml4_phys % 4096 == 0,
        pool::free(&k0.fa, p.pml4_phys as int / 4096),
        !pool::free(&k1.fa, p.pml4_phys as int / 4096),
        x < 0x8000_0000_0000 ==> memory::walk(k1.pg.mem.words@, p.pml4_phys as int, x) is None,
        x >= 0xFFFF_8000_0000_0000 ==> memory::walk(k1.pg.mem.words@, p.pml4_phys as int, x)
            == memory::walk(k0.pg.mem.words@, k0.pg.kernel_root as int, x),
        k1.procs.created == k0.procs.created + 1,
{
    let i = choose|i: int|
        {
            &&& #[trigger] proc::first_free(k0.procs.slots@, i)
            &&& k1.procs.slots@ == k0.procs.slots@.update(i, k1.procs.slots@[i])
            &&& k1.procs.slots@[i] is Some
            &&& k1.procs.slots@[i]->0.id == k0.procs.next_pid
            &&& k1.procs.slots@[i]->0.name == name
            &&& k1.procs.slots@[i]->0.exit_notif == (u32::MAX, 0u64)
            &&& forall|s: int|
                0 <= s < crate::cap::CAP_SLOTS ==> #[trigger] k1.procs.slots@[i]->0.caps.slots@[s]
                    == Cap::empty()
            &&& crate::frames::took(&k0.fa, &k1.fa, k1.procs.slots@[i]->0.pml4_phys as int)
            &&& forall|v: int|
                0 <= v < paging::PAGES ==> #[trigger] paging::leaf(
                    k1.pg.mem.words@,
                    k1.procs.slots@[i]->0.pml4_phys as int,
                    v,
                ) == (if v >= paging::USER_PAGES {
                    paging::leaf(k0.pg.mem.words@, k0.pg.kernel_root as int, v)
                } else {
                    None
                })
        };
    let p = k1.procs.slots@[i]->0;
    assert(k1.procs.slots@[i] == Some(p));
    let f = p.pml4_phys as int / 4096;
    pool::lemma_free(&k0.fa);
    pool::lemma_free(&k1.fa);
    assert(pool::frame(f));
    assert(pool::free(&k0.fa, f) == !crate::frames::used(k0.fa.map@, f));
    assert(pool::free(&k1.fa, f) == !crate::frames::used(k1.fa.map@, f));
    assert(k1.wf());
    assert(paging::is_root(k1.pg.mem.seats@, p.pml4_phys as int));
    memory::law_entry_is_what_is_found(&k1.pg.mem, p.pml4_phys, x);
    memory::law_entry_is_what_is_found(&k0.pg.mem, k0.pg.kernel_root, x);
    let v = paging::page_no(x as int);
    assert(0 <= v < paging::PAGES);
    assert(paging::leaf(k1.pg.mem.words@, p.pml4_phys as int, v) == paging::leaf(
        k1.pg.mem.words@,
        p.pml4_phys as int,
        v,
    ));
    assert forall|q: Process| #[trigger] listed(k0.procs, q) implies listed(k1.procs, q) by {
        let j = choose|j: int| 0 <= j < k0.procs.slots@.len() && #[trigger] k0.procs.slots@[j] == Some(q);
        assert(k1.procs.slots@[j] == Some(q));
    }
    assert forall|q: Process| #[trigger] listed(k1.procs, q) && q.id != pid implies listed(
        k0.procs,
        q,
    ) by {
        let j = choose|j: int| 0 <= j < k1.procs.slots@.len() && #[trigger] k1.procs.slots@[j] == Some(q);
        assert(k0.procs.slots@[j] == Some(q));
    }
    p
}

/// A process that was destroyed is gone; every other process stays, and so
/// does what it finds in its memory. The frame of its root is free again, and
/// no frame was taken.
#[verifier::rlimit(40)]
pub proof fn law_destroyed_process_is_gone(
    k0: &Kernel,
    k1: &Kernel,
    pid: u64,
    live: u64,
    n: u64,
    p: Process,
    r: u64,
    x: u64,
)
    requires
        k0.wf(),
        proc::destroyed(k0, k1, pid, live, Ok(n)),
        listed(k0.procs, p),
        p.id == pid,
        paging::is_root(k0.pg.mem.seats@, r as int),
        r != p.pml4_phys,
    ensures
        !lives(k1.procs, pid),
        live != p.pml4_phys,
        forall|q: Process| q.id != pid ==> (#[trigger] listed(k1.procs, q) <==> listed(k0.procs, q)),
        memory::walk(k1.pg.mem.words@, r as int, x) == memory::walk(k0.pg.mem.words@, r as int, x),
        pool::free(&k1.fa, p.pml4_phys as int / 4096),
        forall|j: int| pool::frame(j) && #[trigger] pool::free(&k0.fa, j) ==> pool::free(&k1.fa, j),
        k1.fa.free == k0.fa.free + n,
{
    let i = proc::find(k0.procs.slots@, pid)->0;
    proc::lemma_find_bounds(k0.procs.slots@, pid);
    let h = choose|h: int| 0 <= h < k0.procs.slots@.len() && #[trigger] k0.procs.slots@[h] == Some(p);
    assert(k0.procs.slots@[h] is Some && k0.procs.slots@[i] is Some);
    assert(i == h);
    assert forall|q: Process| q.id != pid implies (#[trigger] listed(k1.procs, q) <==> listed(
        k0.procs,
        q,
    )) by {
        if listed(k0.procs, q) {
            let j = choose|j: int| 0 <= j < k0.procs.slots@.len() && #[trigger] k0.procs.slots@[j] == Some(q);
            assert(k1.procs.slots@[j] == Some(q));
        }
        if listed(k1.procs, q) {
            let j = choose|j: int| 0 <= j < k1.procs.slots@.len() && #[trigger] k1.procs.slots@[j] == Some(q);
            assert(k0.procs.slots@[j] == Some(q));
        }
    }
    assert(!lives(k1.procs, pid)) by {
        if lives(k1.procs, pid) {
            let j = choose|j: int|
                0 <= j < k1.procs.slots@.len() && (#[trigger] k1.procs.slots@[j]) is Some
                    && k1.procs.slots@[j]->0.id == pid;
            assert(k0.procs.slots@[j] is Some && k0.procs.slots@[i] is Some);
        }
    }
    memory::law_entry_is_what_is_found(&k0.pg.mem, r, x);
    assert(paging::is_root(k1.pg.mem.seats@, r as int));
    memory::law_entry_is_what_is_found(&k1.pg.mem, r, x);
    let v = paging::page_no(x as int);
    assert(paging::leaf(k1.pg.mem.words@, r as int, v) == paging::leaf(
        k0.pg.mem.words@,
        r as int,
        v,
    ));
    pool::lemma_free(&k0.fa);
    pool::lemma_free(&k1.fa);
    let f = p.pml4_phys as int / 4096;
    assert(paging::is_table(k0.pg.mem.words@, k0.pg.mem.seats@, p.pml4_phys as int));
    assert(pool::frame(f));
    assert(proc::goes_back(k0, p.pml4_phys as int, f));
    assert(!crate::frames::used(k1.fa.map@, f));
    assert forall|j: int| pool::frame(j) && #[trigger] pool::free(&k0.fa, j) implies pool::free(
        &k1.fa,
        j,
    ) by {
        assert(crate::frames::used(k1.fa.map@, j) == (crate::frames::used(k0.fa.map@, j)
            && !proc::goes_back(k0, p.pml4_phys as int, j)));
    }
}

/// Frame `j` is one that the walk for address `y` goes through or ends at.
pub open spec fn on_the_way(words: Seq<u64>, root: int, y: u64, j: int) -> bool {
    let a = words[root / 8 + ((y >> 39) & 0x1FF)];
    let b = words[memory::base(a) / 8 + ((y >> 30) & 0x1FF)];
    let c = words[memory::base(b) / 8 + ((y >> 21) & 0x1FF)];
    ||| a & 1 != 0 && memory::base(a) == 4096 * j
    ||| a & 1 != 0 && b & 1 != 0 && memory::base(b) == 4096 * j
    ||| a & 1 != 0 && b & 1 != 0 && c & 1 != 0 && c & 0x80 == 0 && memory::base(c) == 4096 * j
    ||| memory::walk(words, root, y) matches Some(f) && f.phys / 4096 == j
}

/// What a process had of the memory map comes back when it is destroyed: every
/// frame that a user address of it led to, the tables on the way, and its
/// root. Nothing else becomes free.
#[verifier::rlimit(60)]
pub proof fn law_destroyed_process_gives_its_memory_back(
    k0: &Kernel,
    k1: &Kernel,
    pid: u64,
    live: u64,
    n: u64,
    p: Process,
    y: u64,
    j: int,
)
    requires
        k0.wf(),
        proc::destroyed(k0, k1, pid, live, Ok(n)),
        listed(k0.procs, p),
        p.id == pid,
        pool::frame(j),
    ensures
        y < 0x8000_0000_0000 && on_the_way(k0.pg.mem.words@, p.pml4_phys as int, y, j)
            && pool::ours(&k0.fa, j) ==> pool::free(&k1.fa, j),
        pool::free(&k1.fa, j) && !pool::free(&k0.fa, j) ==> 4096 * j == p.pml4_phys || exists|z: u64|
            z < 0x8000_0000_0000 && #[trigger] on_the_way(
                k0.pg.mem.words@,
                p.pml4_phys as int,
                z,
                j,
            ),
{
    let i = proc::find(k0.procs.slots@, pid)->0;
    proc::lemma_find_bounds(k0.procs.slots@, pid);
    let h = choose|h: int| 0 <= h < k0.procs.slots@.len() && #[trigger] k0.procs.slots@[h] == Some(p);
    assert(k0.procs.slots@[h] is Some && k0.procs.slots@[i] is Some);
    assert(i == h);
    let root = p.pml4_phys as int;
    assert(paging::is_root(k0.pg.mem.seats@, root));
    pool::lemma_free(&k0.fa);
    pool::lemma_free(&k1.fa);
    assert(pool::free(&k1.fa, j) == !crate::frames::used(k1.fa.map@, j));
    assert(pool::free(&k0.fa, j) == !crate::frames::used(k0.fa.map@, j));
    assert(pool::ours(&k0.fa, j) == !crate::frames::used(k0.fa.origin@, j));
    assert(crate::frames::used(k1.fa.map@, j) == (crate::frames::used(k0.fa.map@, j)
        && !proc::goes_back(k0, root, j)));
    if y < 0x8000_0000_0000 && on_the_way(k0.pg.mem.words@, root, y, j) && pool::ours(&k0.fa, j) {
        lemma_claims(k0, p.pml4_phys, y, j);
        let v = paging::page_no(y as int);
        assert(paging::claims(&k0.pg.mem, &k0.fa, root, v, j));
        assert(proc::goes_back(k0, root, j));
    }
    if pool::free(&k1.fa, j) && !pool::free(&k0.fa, j) && 4096 * j != root {
        let v = choose|v: int|
            0 <= v < paging::USER_PAGES && #[trigger] paging::claims(
                &k0.pg.mem,
                &k0.fa,
                root,
                v,
                j,
            );
        let z = (v * 4096) as u64;
        assert(paging::page_no(z as int) == v);
        lemma_claims(k0, p.pml4_phys, z, j);
        assert(on_the_way(k0.pg.mem.words@, root, z, j));
    }
}

#[verifier::rlimit(60)]
proof fn lemma_claims(k: &Kernel, root: u64, y: u64, j: int)
    requires
        k.wf(),
        paging::is_root(k.pg.mem.seats@, root as int),
        pool::frame(j),
    ensures
        ({
            let v = paging::page_no(y as int);
            &&& paging::claims(&k.pg.mem, &k.fa, root as int, v, j) ==> on_the_way(
                k.pg.mem.words@,
                root as int,
                y,
                j,
            )
            &&& on_the_way(k.pg.mem.words@, root as int, y, j) && pool::ours(&k.fa, j)
                ==> paging::claims(&k.pg.mem, &k.fa, root as int, v, j)
        }),
{
    let v = paging::page_no(y as int);
    let w = k.pg.mem.words@;
    let a = w[root as int / 8 + ((y >> 39) & 0x1FF)];
    let b = w[memory::base(a) / 8 + ((y >> 30) & 0x1FF)];
    paging::lemma_indices(y);
    memory::law_entry_is_what_is_found(&k.pg.mem, root, y);
    pool::lemma_free(&k.fa);
    assert(pool::ours(&k.fa, j) == !crate::frames::used(k.fa.origin@, j));
    assert(0u64 & 1 == 0) by (bit_vector);
    if paging::leaf(w, root as int, v) is Some {
        let e = paging::leaf(w, root as int, v)->0;
        paging::lemma_mask(e);
        assert((memory::base(e) + y % 4096) / 4096 == memory::base(e) / 4096);
    }
}

/// The entry is for the process in slot `i`.
pub open spec fn is_for(
    s: Seq<Option<Process>>,
    owners: Seq<u64>,
    e: (u64, usize),
    i: int,
) -> bool {
    &&& 0 <= i < s.len()
    &&& s[i] is Some
    &&& e.0 == s[i]->0.id
    &&& e.1 == proc::count_of(owners, e.0) as usize
}

pub open spec fn has_slot(s: Seq<Option<Process>>, owners: Seq<u64>, e: (u64, usize)) -> bool {
    exists|i: int| #[trigger] is_for(s, owners, e, i)
}

#[verifier::rlimit(40)]
proof fn lemma_pairs(s: Seq<Option<Process>>, owners: Seq<u64>)
    ensures
        forall|k: int|
            0 <= k < proc::live_pairs(s, owners).len() ==> has_slot(
                s,
                owners,
                #[trigger] proc::live_pairs(s, owners)[k],
            ),
        forall|i: int|
            0 <= i < s.len() && (#[trigger] s[i]) is Some ==> exists|k: int|
                0 <= k < proc::live_pairs(s, owners).len() && (#[trigger] proc::live_pairs(
                    s,
                    owners,
                )[k]).0 == s[i]->0.id,
    decreases s.len(),
{
    if s.len() > 0 {
        let t = s.drop_last();
        lemma_pairs(t, owners);
        let a = proc::live_pairs(t, owners);
        let r = proc::live_pairs(s, owners);
        assert(r.len() >= a.len());
        assert(forall|k: int| 0 <= k < a.len() ==> #[trigger] r[k] == a[k]);
        assert forall|k: int| 0 <= k < r.len() implies has_slot(s, owners, #[trigger] r[k]) by {
            if k < a.len() {
                assert(r[k] == a[k]);
                assert(has_slot(t, owners, a[k]));
                let i = choose|i: int| #[trigger] is_for(t, owners, a[k], i);
                assert(is_for(s, owners, r[k], i));
            } else {
                assert(is_for(s, owners, r[k], s.len() - 1));
            }
        }
        assert forall|i: int| 0 <= i < s.len() && (#[trigger] s[i]) is Some implies exists|k: int|
            0 <= k < r.len() && (#[trigger] r[k]).0 == s[i]->0.id by {
            if i < t.len() {
                assert(t[i] == s[i]);
                let k = choose|k: int| 0 <= k < a.len() && (#[trigger] a[k]).0 == t[i]->0.id;
                assert(r[k] == a[k]);
            } else {
                assert(r[r.len() - 1].0 == s[i]->0.id);
            }
        }
    }
}

/// The list of processes names processes that live, no more than were asked
/// for, and each that lives while there is room; beside each stands how many
/// threads it has: none, one that is its last, or more.
#[verifier::rlimit(40)]
pub proof fn law_list_names_the_living(
    t: ProcTable,
    owners: &[u64],
    max: usize,
    r: Vec<(u64, usize)>,
    k: int,
    j: int,
)
    requires
        t.wf(),
        owners@.len() <= 64,
        proc::live_listed(&t, owners, max, r),
    ensures
        r@.len() <= max,
        0 <= k < r@.len() ==> {
            &&& lives(t, r@[k].0)
            &&& r@[k].1 <= owners@.len()
            &&& r@[k].1 == 0 <==> forall|i: int| 0 <= i < owners@.len() ==> #[trigger] owners@[i] != r@[k].0
            &&& calls::last_of(owners@, r@[k].0, j) ==> r@[k].1 == 1
        },
        forall|i: int|
            0 <= i < t.slots@.len() && (#[trigger] t.slots@[i]) is Some && r@.len() < max
                ==> exists|h: int| 0 <= h < r@.len() && (#[trigger] r@[h]).0 == t.slots@[i]->0.id,
{
    lemma_pairs(t.slots@, owners@);
    let all = proc::live_pairs(t.slots@, owners@);
    if 0 <= k < r@.len() {
        assert(r@[k] == all[k]);
        assert(has_slot(t.slots@, owners@, all[k]));
        let i = choose|i: int| #[trigger] is_for(t.slots@, owners@, all[k], i);
        assert(t.slots@[i] is Some);
        calls::lemma_count(owners@, r@[k].0);
    }
    assert forall|i: int|
        0 <= i < t.slots@.len() && (#[trigger] t.slots@[i]) is Some && r@.len() < max implies exists|
        h: int,
    | 0 <= h < r@.len() && (#[trigger] r@[h]).0 == t.slots@[i]->0.id by {
        let h = choose|h: int| 0 <= h < all.len() && (#[trigger] all[h]).0 == t.slots@[i]->0.id;
        assert(r@[h] == all[h]);
    }
}

} // verus!
