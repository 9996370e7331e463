//! The process table.

use vstd::prelude::*;
use crate::cap;
use crate::cap::CapSpace;
use crate::frames;
use crate::kernel::Kernel;
use crate::needs;
use crate::paging;
use crate::paging::{PAGE, PAGES, USER_HALF_LIMIT};
use crate::rest;
use crate::views;

verus! {

pub const MAX_PROCESSES: usize = 32;

/// A process: its number, name, address space, capabilities, and where its
/// end is announced (`u32::MAX` for nowhere).
#[derive(Clone, Copy)]
pub struct Process {
    pub id: u64,
    pub name: &'static str,
    pub pml4_phys: u64,
    pub caps: CapSpace,
    pub exit_notif: (u32, u64),
}

impl Process {
    /// All but the capabilities are the same.
    pub open spec fn same_but_caps(&self, other: &Process) -> bool {
        &&& self.id == other.id
        &&& self.name == other.name
        &&& self.pml4_phys == other.pml4_phys
        &&& self.exit_notif == other.exit_notif
    }
}

/// The entry of process `pid`.
pub open spec fn find(slots: Seq<Option<Process>>, pid: u64) -> Option<int>
    decreases slots.len(),
{
    if slots.len() == 0 {
        None
    } else if slots.last() matches Some(p) && p.id == pid && find(slots.drop_last(), pid) is None {
        Some(slots.len() - 1)
    } else {
        find(slots.drop_last(), pid)
    }
}

/// How many of the entries are in use.
pub open spec fn live(slots: Seq<Option<Process>>) -> int
    decreases slots.len(),
{
    if slots.len() == 0 {
        0
    } else {
        live(slots.drop_last()) + (if slots.last() is Some {
            1int
        } else {
            0int
        })
    }
}

/// The table.
pub struct ProcTable {
    pub slots: Vec<Option<Process>>,
    pub next_pid: u64,
    pub created: u64,
}

impl ProcTable {
    /// The table has its size; numbers start at one, are handed out in order
    /// and never twice.
    pub open spec fn wf(&self) -> bool {
        &&& self.slots@.len() == MAX_PROCESSES
        &&& 1 <= self.next_pid
        &&& self.created < self.next_pid
        &&& forall|i: int|
            0 <= i < self.slots@.len() ==> (#[trigger] self.slots@[i] matches Some(p) ==> 1 <= p.id
                < self.next_pid)
        &&& forall|i: int, j: int|
            0 <= i < j < self.slots@.len() && #[trigger] self.slots@[i] is Some
                && #[trigger] self.slots@[j] is Some ==> self.slots@[i]->0.id != self.slots@[j]->0.id
    }

    /// A table without processes.
    pub fn new() -> (t: ProcTable)
        ensures
            t.wf(),
            t.next_pid == 1,
            t.created == 0,
            forall|i: int| 0 <= i < MAX_PROCESSES ==> #[trigger] t.slots@[i] is None,
    {
        let mut slots: Vec<Option<Process>> = Vec::new();
        let mut i: usize = 0;
        while i < MAX_PROCESSES
            invariant
                i <= MAX_PROCESSES,
                slots@.len() == i,
                forall|j: int| 0 <= j < i ==> #[trigger] slots@[j] is None,
            decreases MAX_PROCESSES - i,
        {
            slots.push(None);
            i = i + 1;
        }
        ProcTable { slots, next_pid: 1, created: 0 }
    }
}

/// Where a process is found, and where none is.
pub proof fn lemma_find_bounds(slots: Seq<Option<Process>>, pid: u64)
    ensures
        find(slots, pid) matches Some(i) ==> 0 <= i < slots.len() && (slots[i] matches Some(p)
            && p.id == pid),
        find(slots, pid) is None ==> forall|i: int|
            0 <= i < slots.len() ==> !(#[trigger] slots[i] matches Some(p) && p.id == pid),
    decreases slots.len(),
{
    if slots.len() > 0 {
        lemma_find_bounds(slots.drop_last(), pid);
        let s = slots.drop_last();
        if find(slots, pid) is None {
            assert forall|i: int| 0 <= i < slots.len() implies !(#[trigger] slots[i] matches Some(p)
                && p.id == pid) by {
                if i < slots.len() - 1 {
                    assert(s[i] == slots[i]);
                }
            }
        }
    }
}

/// With distinct numbers, the entry that has a number is the one found.
pub proof fn lemma_find(slots: Seq<Option<Process>>, pid: u64, i: int)
    requires
        0 <= i < slots.len(),
        slots[i] matches Some(p) && p.id == pid,
        forall|a: int, b: int|
            0 <= a < b < slots.len() && #[trigger] slots[a] is Some && #[trigger] slots[b] is Some
                ==> slots[a]->0.id != slots[b]->0.id,
    ensures
        find(slots, pid) == Some(i),
{
    lemma_find_bounds(slots, pid);
    match find(slots, pid) {
        None => {
            assert(slots[i] is Some);
        },
        Some(k) => {
            assert(slots[k] is Some && slots[i] is Some);
        },
    }
}

/// Tables whose entries have the same numbers find the same.
pub proof fn lemma_find_same(a: Seq<Option<Process>>, b: Seq<Option<Process>>, pid: u64)
    requires
        a.len() == b.len(),
        forall|i: int|
            0 <= i < a.len() ==> (#[trigger] a[i] is Some <==> #[trigger] b[i] is Some) && (a[i] is Some
                ==> a[i]->0.id == b[i]->0.id),
    ensures
        find(a, pid) == find(b, pid),
    decreases a.len(),
{
    if a.len() > 0 {
        let x = a.drop_last();
        let y = b.drop_last();
        assert forall|i: int| 0 <= i < x.len() implies (#[trigger] x[i] is Some <==> #[trigger] y[i] is Some)
            && (x[i] is Some ==> x[i]->0.id == y[i]->0.id) by {
            assert(a[i] == x[i] && b[i] == y[i]);
        }
        lemma_find_same(x, y, pid);
        assert(a[a.len() - 1] == a.last() && b[b.len() - 1] == b.last());
    }
}

/// The entry of process `pid`.
pub fn lookup(t: &ProcTable, pid: u64) -> (r: Option<usize>)
    requires
        t.wf(),
    ensures
        (match r {
            Some(i) => Some(i as int),
            None => None,
        }) == find(t.slots@, pid),
        r matches Some(i) ==> i < t.slots@.len() && (t.slots@[i as int] matches Some(p) && p.id
            == pid),
{
    proof {
        lemma_find_bounds(t.slots@, pid);
    }
    let mut i: usize = 0;
    while i < MAX_PROCESSES
        invariant
            i <= MAX_PROCESSES,
            t.wf(),
            forall|j: int|
                0 <= j < i ==> !(#[trigger] t.slots@[j] matches Some(p) && p.id == pid),
        decreases MAX_PROCESSES - i,
    {
        if let Some(p) = t.slots[i] {
            if p.id == pid {
                proof {
                    lemma_find(t.slots@, pid, i as int);
                }
                return Some(i);
            }
        }
        i = i + 1;
    }
    proof {
        if let Some(k) = find(t.slots@, pid) {
            assert(t.slots@[k] is Some);
        }
    }
    None
}

/// The root of a process.
pub fn pml4_of(t: &ProcTable, pid: u64) -> (r: Option<u64>)
    requires
        t.wf(),
    ensures
        r == (match find(t.slots@, pid) {
            Some(i) => Some(t.slots@[i]->0.pml4_phys),
            None => None,
        }),
{
    match lookup(t, pid) {
        None => None,
        Some(i) => match t.slots[i] {
            None => None,
            Some(p) => Some(p.pml4_phys),
        },
    }
}

/// How many tables are added where `n` pages from page `first` on are mapped
/// under `root`, in order.
pub open spec fn run_need(k: &Kernel, root: int, first: int, n: int) -> int {
    needs::tables_for(k.pg.mem.words@, root, needs::run_of(first, n), n)
}

/// The free frames go round for the tables of `i` pages from page `first` on,
/// and not for those of one page more.
pub open spec fn run_broke(k: &Kernel, root: int, first: int, i: int) -> bool {
    run_need(k, root, first, i) <= k.fa.available() < run_need(k, root, first, i + 1)
}

/// Map `n` user pages from `va` on to the frames from `phys` on, in order.
/// False if the frames run out under the tables; the pages mapped until then
/// stay.
pub fn map_user_run(
    k: &mut Kernel,
    root: u64,
    va: u64,
    phys: u64,
    n: u64,
    writable: bool,
    exec: bool,
) -> (r: bool)
    requires
        old(k).wf(),
        views::process_root(&old(k).pg.mem, old(k).pg.kernel_root as int, root as int),
        va % 4096 == 0,
        phys % 4096 == 0,
        va + n * 4096 <= USER_HALF_LIMIT,
        phys + n * 4096 <= u64::MAX,
        !(writable && exec),
    ensures
        final(k).wf(),
        final(k).procs == old(k).procs,
        final(k).pg.kernel_root == old(k).pg.kernel_root,
        final(k).pg.live_root == old(k).pg.live_root,
        final(k).pg.apic_base == old(k).pg.apic_base,
        final(k).pg.skipped_high == old(k).pg.skipped_high,
        views::edited(
            &old(k).pg.mem,
            &old(k).fa,
            &final(k).pg.mem,
            &final(k).fa,
            root as int,
        ),
        paging::grown_for(
            &old(k).pg.mem,
            &old(k).fa,
            &final(k).pg.mem,
            &final(k).fa,
            root as int,
        ),
        r ==> views::view(final(k).pg.mem.words@, root as int) == cap::with_user_run(
            views::view(old(k).pg.mem.words@, root as int),
            va as int,
            phys as int,
            n as int,
            writable,
            exec,
        ) && cap::run_entries(
            final(k).pg.mem.words@,
            root as int,
            va as int,
            phys as int,
            n as int,
            writable,
            exec,
        ),
        !r ==> final(k).fa.available() == 0,
        !r ==> exists|i: int|
            0 <= i < n && views::view(final(k).pg.mem.words@, root as int)
                == #[trigger] cap::with_user_run(
                views::view(old(k).pg.mem.words@, root as int),
                va as int,
                phys as int,
                i,
                writable,
                exec,
            ) && cap::run_entries(
                final(k).pg.mem.words@,
                root as int,
                va as int,
                phys as int,
                i,
                writable,
                exec,
            ) && run_broke(old(k), root as int, va as int / 4096, i),
        r == (run_need(old(k), root as int, va as int / 4096, n as int) <= old(k).fa.available()),
        r ==> paging::frames_spent(
            &old(k).fa,
            &final(k).fa,
            run_need(old(k), root as int, va as int / 4096, n as int),
        ),
        n == 1 ==> r == paging::can_take(
            &old(k).fa,
            paging::missing(old(k).pg.mem.words@, root as int, va as int / 4096),
        ),
        n == 1 && r ==> paging::mapped(
            &old(k).pg.mem,
            &old(k).fa,
            &final(k).pg.mem,
            &final(k).fa,
            root as int,
            va as int / 4096,
            paging::user_entry(phys, writable, exec),
        ),
{
    proof {
        lemma_run_none(k, root as int, va as int, phys as int, writable, exec);
    }
    let mut i: u64 = 0;
    while i < n
        invariant
            i <= n,
            old(k).wf(),
            k.wf(),
            k.procs == old(k).procs,
            k.pg.kernel_root == old(k).pg.kernel_root,
            k.pg.live_root == old(k).pg.live_root,
            k.pg.apic_base == old(k).pg.apic_base,
            k.pg.skipped_high == old(k).pg.skipped_high,
            views::process_root(&k.pg.mem, k.pg.kernel_root as int, root as int),
            views::process_root(&old(k).pg.mem, old(k).pg.kernel_root as int, root as int),
            va % 4096 == 0,
            phys % 4096 == 0,
            va + n * 4096 <= USER_HALF_LIMIT,
            phys + n * 4096 <= u64::MAX,
            !(writable && exec),
            i == 0 ==> *k == *old(k),
            i == 1 && n == 1 ==> paging::can_take(
                &old(k).fa,
                paging::missing(old(k).pg.mem.words@, root as int, va as int / 4096),
            ) && paging::mapped(
                &old(k).pg.mem,
                &old(k).fa,
                &k.pg.mem,
                &k.fa,
                root as int,
                va as int / 4096,
                paging::user_entry(phys, writable, exec),
            ),
            run_mapped(old(k), k, root as int, va as int, phys as int, i as int, writable, exec),
        decreases n - i,
    {
        let ghost pre = *k;
        let page: u64 = va + i * PAGE;
        let frame: u64 = phys + i * PAGE;
        let ok: bool = map_one(k, root, page, frame, writable, exec);
        proof {
            lemma_run_step(
                old(k),
                &pre,
                k,
                root,
                va,
                phys,
                i as int,
                n as int,
                writable,
                exec,
                ok,
            );
        }
        if !ok {
            return false;
        }
        i = i + 1;
    }
    proof {
        lemma_run_done(
            old(k),
            k,
            root as int,
            va as int,
            phys as int,
            n as int,
            writable,
            exec,
        );
    }
    true
}

/// `i` pages from page `first` on were mapped under `root`, and the frames of
/// their tables were spent.
#[verifier::opaque]
pub open spec fn run_so_far(k0: &Kernel, k: &Kernel, root: int, first: int, i: int) -> bool {
    &&& needs::brought(&k0.pg.mem, &k.pg.mem, root, needs::run_of(first, i), i)
    &&& paging::frames_spent(&k0.fa, &k.fa, run_need(k0, root, first, i))
}

/// What stands once `i` pages of a run were mapped.
#[verifier::opaque]
pub open spec fn run_mapped(
    k0: &Kernel,
    k: &Kernel,
    root: int,
    va: int,
    phys: int,
    i: int,
    writable: bool,
    exec: bool,
) -> bool {
    &&& views::edited(&k0.pg.mem, &k0.fa, &k.pg.mem, &k.fa, root)
    &&& paging::grown_for(&k0.pg.mem, &k0.fa, &k.pg.mem, &k.fa, root)
    &&& run_so_far(k0, k, root, va / 4096, i)
    &&& views::view(k.pg.mem.words@, root) == cap::with_user_run(
        views::view(k0.pg.mem.words@, root),
        va,
        phys,
        i,
        writable,
        exec,
    )
    &&& cap::run_entries(k.pg.mem.words@, root, va, phys, i, writable, exec)
}

proof fn lemma_run_none(k: &Kernel, root: int, va: int, phys: int, writable: bool, exec: bool)
    requires
        k.wf(),
    ensures
        run_mapped(k, k, root, va, phys, 0, writable, exec),
{
    reveal(run_mapped);
    reveal(run_so_far);
    let view0 = views::view(k.pg.mem.words@, root);
    views::lemma_edited_same(&k.pg.mem, &k.fa, root);
    paging::lemma_grown_same(&k.pg.mem, &k.fa, &k.pg.mem, root);
    needs::lemma_brought_none(&k.pg.mem, root, needs::run_of(va / 4096, 0));
    assert(cap::with_user_run(view0, va, phys, 0, writable, exec) =~= view0);
}

proof fn lemma_run_done(
    k0: &Kernel,
    k: &Kernel,
    root: int,
    va: int,
    phys: int,
    n: int,
    writable: bool,
    exec: bool,
)
    requires
        run_mapped(k0, k, root, va, phys, n, writable, exec),
    ensures
        views::edited(&k0.pg.mem, &k0.fa, &k.pg.mem, &k.fa, root),
        paging::grown_for(&k0.pg.mem, &k0.fa, &k.pg.mem, &k.fa, root),
        views::view(k.pg.mem.words@, root) == cap::with_user_run(
            views::view(k0.pg.mem.words@, root),
            va,
            phys,
            n,
            writable,
            exec,
        ),
        cap::run_entries(k.pg.mem.words@, root, va, phys, n, writable, exec),
        paging::frames_spent(&k0.fa, &k.fa, run_need(k0, root, va / 4096, n)),
        run_need(k0, root, va / 4096, n) <= k0.fa.available(),
{
    reveal(run_mapped);
    reveal(run_so_far);
    frames::lemma_free_bounds(k.fa.map@, frames::FRAME_COUNT as int);
}

/// One page more of a run, or the lack of frames for it.
#[verifier::spinoff_prover]
#[verifier::rlimit(40)]
proof fn lemma_run_step(
    k0: &Kernel,
    k1: &Kernel,
    k2: &Kernel,
    root: u64,
    va: u64,
    phys: u64,
    i: int,
    n: int,
    writable: bool,
    exec: bool,
    ok: bool,
)
    requires
        k0.wf(),
        k1.wf(),
        k2.wf(),
        0 <= i < n,
        va % 4096 == 0,
        phys % 4096 == 0,
        va + n * 4096 <= USER_HALF_LIMIT,
        phys + n * 4096 <= u64::MAX,
        views::process_root(&k0.pg.mem, k0.pg.kernel_root as int, root as int),
        views::process_root(&k1.pg.mem, k1.pg.kernel_root as int, root as int),
        run_mapped(k0, k1, root as int, va as int, phys as int, i, writable, exec),
        views::edited(&k1.pg.mem, &k1.fa, &k2.pg.mem, &k2.fa, root as int),
        paging::grown_for(&k1.pg.mem, &k1.fa, &k2.pg.mem, &k2.fa, root as int),
        paging::places_kept(k1.pg.mem.seats@, k1.pg.mem.words@, k2.pg.mem.words@),
        ok == paging::can_take(
            &k1.fa,
            paging::missing(k1.pg.mem.words@, root as int, va as int / 4096 + i),
        ),
        ok ==> {
            let e = paging::user_entry((phys + i * 4096) as u64, writable, exec);
            &&& views::view(k2.pg.mem.words@, root as int) == views::view(
                k1.pg.mem.words@,
                root as int,
            ).insert(va as int / 4096 + i, e)
            &&& paging::mapped(
                &k1.pg.mem,
                &k1.fa,
                &k2.pg.mem,
                &k2.fa,
                root as int,
                va as int / 4096 + i,
                e,
            )
        },
        !ok ==> views::view(k2.pg.mem.words@, root as int) == views::view(
            k1.pg.mem.words@,
            root as int,
        ),
    ensures
        ok ==> run_mapped(k0, k2, root as int, va as int, phys as int, i + 1, writable, exec),
        !ok ==> {
            &&& views::edited(&k0.pg.mem, &k0.fa, &k2.pg.mem, &k2.fa, root as int)
            &&& paging::grown_for(&k0.pg.mem, &k0.fa, &k2.pg.mem, &k2.fa, root as int)
            &&& views::view(k2.pg.mem.words@, root as int) == cap::with_user_run(
                views::view(k0.pg.mem.words@, root as int),
                va as int,
                phys as int,
                i,
                writable,
                exec,
            )
            &&& cap::run_entries(
                k2.pg.mem.words@,
                root as int,
                va as int,
                phys as int,
                i,
                writable,
                exec,
            )
            &&& run_broke(k0, root as int, va as int / 4096, i)
            &&& k0.fa.available() < run_need(k0, root as int, va as int / 4096, n)
        },
{
    reveal(run_mapped);
    let r = root as int;
    let v = va as int / 4096 + i;
    let e = paging::user_entry((phys + i * 4096) as u64, writable, exec);
    views::lemma_edited_edited(
        &k0.pg.mem,
        &k0.fa,
        &k1.pg.mem,
        &k1.fa,
        &k2.pg.mem,
        &k2.fa,
        r,
    );
    paging::lemma_grown_grown(
        &k0.pg.mem,
        &k0.fa,
        &k1.pg.mem,
        &k1.fa,
        &k2.pg.mem,
        &k2.fa,
        r,
    );
    frames::lemma_free_bounds(k1.fa.map@, frames::FRAME_COUNT as int);
    lemma_run_next(k0, k1, k2, r, v, i, n);
    lemma_run_stays(k1, k2, r, va, phys, i, e, writable, exec);
    if ok {
        paging::lemma_user_present((phys + i * 4096) as u64, writable, exec);
        assert(views::view(k2.pg.mem.words@, r) =~= cap::with_user_run(
            views::view(k0.pg.mem.words@, r),
            va as int,
            phys as int,
            i + 1,
            writable,
            exec,
        ));
    }
}

/// The page after a run: the tables that it adds, or the lack of frames for
/// them.
proof fn lemma_run_next(
    k0: &Kernel,
    k1: &Kernel,
    k2: &Kernel,
    root: int,
    v: int,
    i: int,
    n: int,
)
    requires
        0 <= i < n,
        i <= v < PAGES,
        paging::editable(k0.pg.mem.seats@, root, v),
        paging::seats_kept(&k0.pg.mem, &k1.pg.mem),
        run_so_far(k0, k1, root, v - i, i),
        ({
            let need = paging::missing(k1.pg.mem.words@, root, v);
            ||| {
                &&& paging::frames_spent(&k1.fa, &k2.fa, need)
                &&& needs::nearer(&k1.pg.mem, &k2.pg.mem, root, v, 0)
            }
            ||| k1.fa.available() < need
        }),
    ensures
        k1.fa.available() < paging::missing(k1.pg.mem.words@, root, v) ==> {
            &&& run_broke(k0, root, v - i, i)
            &&& k0.fa.available() < run_need(k0, root, v - i, n)
        },
        k1.fa.available() >= paging::missing(k1.pg.mem.words@, root, v) ==> run_so_far(
            k0,
            k2,
            root,
            v - i,
            i + 1,
        ),
{
    reveal(run_so_far);
    let words = k0.pg.mem.words@;
    let short = needs::run_of(v - i, i);
    let long = needs::run_of(v - i, i + 1);
    let all = needs::run_of(v - i, n);
    needs::lemma_tables_prefix(words, root, short, long, i);
    needs::lemma_tables_prefix(words, root, long, all, i + 1);
    needs::lemma_brought_prefix(&k0.pg.mem, &k1.pg.mem, root, short, long, i);
    needs::lemma_brought_next(&k0.pg.mem, &k1.pg.mem, root, long, i);
    needs::lemma_tables_grow(words, root, all, i + 1, n);
    frames::lemma_free_bounds(k1.fa.map@, frames::FRAME_COUNT as int);
    if k1.fa.available() >= paging::missing(k1.pg.mem.words@, root, v) {
        needs::lemma_brought_one(&k0.pg.mem, &k1.pg.mem, &k2.pg.mem, root, long, i);
    }
}

/// Mapping the page after a run, or failing to, leaves the entries of the run.
proof fn lemma_run_stays(
    pre: &Kernel,
    post: &Kernel,
    root: int,
    va: u64,
    phys: u64,
    i: int,
    e: u64,
    writable: bool,
    exec: bool,
)
    requires
        paging::is_root(pre.pg.mem.seats@, root),
        va + i * 4096 <= USER_HALF_LIMIT,
        i >= 0,
        cap::run_entries(
            pre.pg.mem.words@,
            root,
            va as int,
            phys as int,
            i,
            writable,
            exec,
        ),
        paging::tables_wf(pre.pg.mem.words@, pre.pg.mem.seats@),
        paging::tables_wf(post.pg.mem.words@, post.pg.mem.seats@),
        paging::places_kept(pre.pg.mem.seats@, pre.pg.mem.words@, post.pg.mem.words@),
        ({
            let v0 = views::view(pre.pg.mem.words@, root);
            let v1 = views::view(post.pg.mem.words@, root);
            v1 == v0 || v1 == v0.insert(va as int / 4096 + i, e)
        }),
    ensures
        cap::run_entries(
            post.pg.mem.words@,
            root,
            va as int,
            phys as int,
            i,
            writable,
            exec,
        ),
{
    assert forall|v: int|
        va as int / 4096 <= v < va as int / 4096 + i implies #[trigger] paging::pte_at(
        post.pg.mem.words@,
        root,
        v,
    ) == Some(
        paging::user_entry((phys + (v - va as int / 4096) * 4096) as u64, writable, exec),
    ) by {
        let v0 = views::view(pre.pg.mem.words@, root);
        let v1 = views::view(post.pg.mem.words@, root);
        assert(paging::pte_at(pre.pg.mem.words@, root, v) is Some);
        assert(v1.dom().contains(v) == v0.dom().contains(v));
        assert(v0.dom().contains(v) ==> v1[v] == v0[v]);
        paging::lemma_pte_stays(
            pre.pg.mem.seats@,
            pre.pg.mem.words@,
            post.pg.mem.words@,
            root,
            v,
        );
    }
}

/// Map one user page of a process. False if the frames run out under the
/// tables.
pub fn map_one(
    k: &mut Kernel,
    root: u64,
    va: u64,
    phys: u64,
    writable: bool,
    exec: bool,
) -> (r: bool)
    requires
        old(k).wf(),
        views::process_root(&old(k).pg.mem, old(k).pg.kernel_root as int, root as int),
        paging::user_refusal(va, phys, writable, exec) is None,
    ensures
        final(k).wf(),
        final(k).procs == old(k).procs,
        final(k).pg.kernel_root == old(k).pg.kernel_root,
        final(k).pg.live_root == old(k).pg.live_root,
        final(k).pg.apic_base == old(k).pg.apic_base,
        final(k).pg.skipped_high == old(k).pg.skipped_high,
        views::process_root(&final(k).pg.mem, final(k).pg.kernel_root as int, root as int),
        views::edited(
            &old(k).pg.mem,
            &old(k).fa,
            &final(k).pg.mem,
            &final(k).fa,
            root as int,
        ),
        paging::grown_for(
            &old(k).pg.mem,
            &old(k).fa,
            &final(k).pg.mem,
            &final(k).fa,
            root as int,
        ),
        r == paging::can_take(
            &old(k).fa,
            paging::missing(old(k).pg.mem.words@, root as int, va as int / 4096),
        ),
        r ==> views::view(final(k).pg.mem.words@, root as int) == views::view(
            old(k).pg.mem.words@,
            root as int,
        ).insert(va as int / 4096, paging::user_entry(phys, writable, exec)),
        r ==> paging::mapped(
            &old(k).pg.mem,
            &old(k).fa,
            &final(k).pg.mem,
            &final(k).fa,
            root as int,
            va as int / 4096,
            paging::user_entry(phys, writable, exec),
        ),
        !r ==> final(k).fa.available() == 0,
        !r ==> views::view(final(k).pg.mem.words@, root as int) == views::view(
            old(k).pg.mem.words@,
            root as int,
        ),
        paging::places_kept(
            old(k).pg.mem.seats@,
            old(k).pg.mem.words@,
            final(k).pg.mem.words@,
        ),
{
    let ghost v = paging::page_no(va as int);
    proof {
        assert(v == va as int / 4096);
        crate::frames::lemma_free_bounds(k.fa.map@, crate::frames::FRAME_COUNT as int);
        paging::lemma_user_present(phys, writable, exec);
    }
    let res = paging::map_user_page_4k(
        &mut k.pg.mem,
        &mut k.fa,
        root,
        va,
        phys,
        writable,
        exec,
    );
    proof {
        lemma_grown_kernel(old(k), k);
        paging::lemma_grown_tables(
            &old(k).pg.mem,
            &old(k).fa,
            &k.pg.mem,
            &k.fa,
            root as int,
        );
        assert(old(k).pg.mem.seats@.dom().contains(root as int));
        if res is Ok {
            let w0 = old(k).pg.mem.words@;
            let w1 = k.pg.mem.words@;
            assert forall|x: int| 0 <= x < PAGES && x != v implies #[trigger] paging::leaf(
                w1,
                root as int,
                x,
            ) == paging::leaf(w0, root as int, x) by {}
            assert(views::view(w1, root as int) =~= views::view(w0, root as int).insert(
                v,
                paging::user_entry(phys, writable, exec),
            ));
        } else {
            assert(views::view(k.pg.mem.words@, root as int) =~= views::view(
                old(k).pg.mem.words@,
                root as int,
            ));
        }
    }
    res.is_ok()
}

/// Adding tables keeps the kernel in order.
pub proof fn lemma_grown_kernel(pre: &Kernel, post: &Kernel)
    requires
        pre.wf(),
        post.procs == pre.procs,
        post.pg.kernel_root == pre.pg.kernel_root,
        post.fa.ready,
        post.pg.mem.wf(&post.fa),
        paging::seats_kept(&pre.pg.mem, &post.pg.mem),
    ensures
        post.wf(),
{
    assert(pre.pg.mem.seats@.dom().contains(pre.pg.kernel_root as int));
    assert forall|i: int|
        0 <= i < post.procs.slots@.len() && #[trigger] post.procs.slots@[i] is Some implies views::process_root(
        &post.pg.mem,
        post.pg.kernel_root as int,
        post.procs.slots@[i]->0.pml4_phys as int,
    ) by {
        assert(pre.procs.slots@[i] is Some);
        let root = pre.procs.slots@[i]->0.pml4_phys as int;
        assert(views::process_root(&pre.pg.mem, pre.pg.kernel_root as int, root));
        assert(pre.pg.mem.seats@.dom().contains(root));
    }
}

/// The first unused entry is `i`.
pub open spec fn first_free(slots: Seq<Option<Process>>, i: int) -> bool {
    &&& 0 <= i < slots.len()
    &&& slots[i] is None
    &&& forall|j: int| 0 <= j < i ==> #[trigger] slots[j] is Some
}

/// Every entry is in use.
pub open spec fn full(slots: Seq<Option<Process>>) -> bool {
    forall|j: int| 0 <= j < slots.len() ==> #[trigger] slots[j] is Some
}

/// Only the frame at `f` and what stands in it differ; it was taken and given
/// back.
pub open spec fn frame_borrowed(pre: &Kernel, post: &Kernel) -> bool {
    &&& post.fa.same_pool(&pre.fa)
    &&& post.fa.free == pre.fa.free
    &&& post.fa.available() == pre.fa.available()
    &&& forall|j: int|
        0 <= j < crate::frames::FRAME_COUNT ==> #[trigger] crate::frames::used(post.fa.map@, j)
            == crate::frames::used(pre.fa.map@, j)
    &&& post.pg.mem.seats@ == pre.pg.mem.seats@
    &&& paging::same_leaves(&pre.pg.mem, &post.pg.mem)
    &&& paging::data_kept(&pre.pg.mem, &pre.fa, &post.pg.mem)
}

/// What [`create`] answers and does.
pub open spec fn create_answer(
    k0: &Kernel,
    k1: &Kernel,
    name: &'static str,
    r: Result<u64, &'static str>,
) -> bool {
    &&& k1.wf()
    &&& k1.pg.kernel_root == k0.pg.kernel_root
    &&& k1.pg.live_root == k0.pg.live_root
    &&& k1.pg.apic_base == k0.pg.apic_base
    &&& k1.pg.skipped_high == k0.pg.skipped_high
    &&& rest::kept(k0, k1)
    &&& if !paging::can_take(&k0.fa, 1) {
        &&& r == Err::<u64, &'static str>("frame exhaustion: no PML4 root for a process")
        &&& *k1 == *k0
    } else if full(k0.procs.slots@) {
        &&& r == Err::<u64, &'static str>("process table full (MAX_PROCESSES)")
        &&& k1.procs == k0.procs
        &&& frame_borrowed(k0, k1)
    } else {
        &&& r == Ok::<u64, &'static str>(k0.procs.next_pid)
        &&& created(k0, k1, name)
    }
}

/// Create a process with an empty user half and no capabilities.
pub fn create(k: &mut Kernel, name: &'static str) -> (r: Result<u64, &'static str>)
    requires
        old(k).wf(),
        old(k).procs.next_pid < u64::MAX,
    ensures
        create_answer(old(k), final(k), name, r),
{
    let ghost k0 = *k;
    let root: u64 = match views::build_process_pml4(&mut k.pg, &mut k.fa) {
        None => {
            proof {
                rest::lemma_same(&k0, k);
            }
            return Err("frame exhaustion: no PML4 root for a process");
        },
        Some(f) => f,
    };
    proof {
        lemma_grown_kernel(&k0, k);
    }
    let mut i: usize = 0;
    while i < MAX_PROCESSES && k.procs.slots[i].is_some()
        invariant
            i <= MAX_PROCESSES,
            k.procs.wf(),
            forall|j: int| 0 <= j < i ==> #[trigger] k.procs.slots@[j] is Some,
        decreases MAX_PROCESSES - i,
    {
        i = i + 1;
    }
    if i == MAX_PROCESSES {
        let ghost k1 = *k;
        match paging::drop_root(&mut k.pg.mem, &mut k.fa, root) {
            Err(_) => {
                return Err("create: PML4 root free rejected");
            },
            Ok(_) => {},
        }
        proof {
            assert(k.pg.mem.seats@ =~= k0.pg.mem.seats@);
            assert forall|j: int|
                0 <= j < crate::frames::FRAME_COUNT implies #[trigger] crate::frames::used(
                k.fa.map@,
                j,
            ) == crate::frames::used(k0.fa.map@, j) by {
                if j != root as int / 4096 {
                    assert(crate::frames::used(k1.fa.map@, j) == crate::frames::used(k.fa.map@, j));
                    assert(crate::frames::used(k0.fa.map@, j) == crate::frames::used(
                        k1.fa.map@,
                        j,
                    ));
                }
            }
            lemma_grown_kernel(&k0, k);
            rest::lemma_borrowed(&k0, k);
        }
        return Err("process table full (MAX_PROCESSES)");
    }
    let id: u64 = k.procs.next_pid;
    k.procs.next_pid = id + 1;
    k.procs.slots.set(
        i,
        Some(
            Process {
                id,
                name,
                pml4_phys: root,
                caps: CapSpace::new(),
                exit_notif: (u32::MAX, 0),
            },
        ),
    );
    k.procs.created = k.procs.created + 1;
    proof {
        let s0 = k0.procs.slots@;
        let s1 = k.procs.slots@;
        assert forall|a: int| 0 <= a < s1.len() implies (#[trigger] s1[a] matches Some(p) ==> 1
            <= p.id < k.procs.next_pid) by {
            if a != i {
                assert(s1[a] == s0[a]);
            }
        }
        assert forall|a: int, b: int|
            0 <= a < b < s1.len() && #[trigger] s1[a] is Some && #[trigger] s1[b] is Some implies {
            &&& s1[a]->0.id != s1[b]->0.id
            &&& s1[a]->0.pml4_phys != s1[b]->0.pml4_phys
        } by {
            if a != i {
                assert(s1[a] == s0[a]);
                lemma_root_known(&k0, a);
            }
            if b != i {
                assert(s1[b] == s0[b]);
                lemma_root_known(&k0, b);
            }
        }
        assert forall|a: int| 0 <= a < s1.len() && #[trigger] s1[a] is Some implies views::process_root(
            &k.pg.mem,
            k.pg.kernel_root as int,
            s1[a]->0.pml4_phys as int,
        ) by {
            if a != i {
                assert(s1[a] == s0[a]);
                lemma_root_known(&k0, a);
                let rt = s0[a]->0.pml4_phys as int;
                assert(k0.pg.mem.seats@.dom().contains(rt));
            }
        }
        assert(s1 =~= s0.update(i as int, s1[i as int]));
        assert(first_free(s0, i as int));
        assert(created(&k0, k, name));
        rest::lemma_created(&k0, k, name);
    }
    Ok(id)
}

proof fn lemma_root_known(k: &Kernel, i: int)
    requires
        k.wf(),
        0 <= i < k.procs.slots@.len(),
        k.procs.slots@[i] is Some,
    ensures
        views::process_root(
            &k.pg.mem,
            k.pg.kernel_root as int,
            k.procs.slots@[i]->0.pml4_phys as int,
        ),
        k.pg.mem.seats@.dom().contains(k.procs.slots@[i]->0.pml4_phys as int),
{
}

/// A process was added: it has the next number, a fresh root with an empty
/// user half and the kernel's upper half, and empty slots. Nothing else
/// changed.
pub open spec fn created(pre: &Kernel, post: &Kernel, name: &'static str) -> bool {
    exists|i: int|
        {
            &&& #[trigger] first_free(pre.procs.slots@, i)
            &&& post.procs.slots@ == pre.procs.slots@.update(i, post.procs.slots@[i])
            &&& post.procs.slots@[i] matches Some(p) && {
                &&& p.id == pre.procs.next_pid
                &&& p.name == name
                &&& p.exit_notif == (u32::MAX, 0u64)
                &&& forall|s: int|
                    0 <= s < cap::CAP_SLOTS ==> #[trigger] p.caps.slots@[s] == cap::Cap::empty()
                &&& crate::frames::took(&pre.fa, &post.fa, p.pml4_phys as int)
                &&& !pre.pg.mem.seats@.dom().contains(p.pml4_phys as int)
                &&& paging::upper_lent(
                    post.pg.mem.words@,
                    p.pml4_phys as int,
                    post.pg.kernel_root as int,
                )
                &&& post.pg.mem.seats@ == pre.pg.mem.seats@.insert(
                    p.pml4_phys as int,
                    post.pg.mem.seats@[p.pml4_phys as int],
                )
                &&& forall|v: int|
                    0 <= v < PAGES ==> #[trigger] paging::leaf(
                        post.pg.mem.words@,
                        p.pml4_phys as int,
                        v,
                    ) == (if v >= paging::USER_PAGES {
                        paging::leaf(pre.pg.mem.words@, pre.pg.kernel_root as int, v)
                    } else {
                        None
                    })
            }
            &&& post.procs.next_pid == pre.procs.next_pid + 1
            &&& post.procs.created == pre.procs.created + 1
            &&& paging::frames_spent(&pre.fa, &post.fa, 1)
            &&& paging::same_leaves(&pre.pg.mem, &post.pg.mem)
            &&& paging::data_kept(&pre.pg.mem, &pre.fa, &post.pg.mem)
        }
}

/// An entry of the table is as it was, with its capabilities, or it was free
/// and holds at most a process with a number from `first` on.
pub open spec fn entry_kept(was: Option<Process>, now: Option<Process>, first: u64) -> bool {
    match was {
        Some(p) => now is Some && now->0.same_but_caps(&p) && now->0.caps.slots@ == p.caps.slots@,
        None => now is Some ==> now->0.id >= first,
    }
}

/// The processes of `pre` stand in `post` as they were, with their
/// capabilities. Every other process was made since, and each number that was
/// handed out since is counted.
pub open spec fn kept(pre: &ProcTable, post: &ProcTable) -> bool {
    &&& post.slots@.len() == pre.slots@.len()
    &&& pre.next_pid <= post.next_pid
    &&& post.created - pre.created == post.next_pid - pre.next_pid
    &&& forall|j: int|
        0 <= j < pre.slots@.len() ==> entry_kept(
            pre.slots@[j],
            #[trigger] post.slots@[j],
            pre.next_pid,
        )
}

/// What was kept over two stretches was kept over both.
pub proof fn lemma_kept_kept(a: &ProcTable, b: &ProcTable, c: &ProcTable)
    requires
        kept(a, b),
        kept(b, c),
    ensures
        kept(a, c),
{
    assert forall|j: int| 0 <= j < a.slots@.len() implies entry_kept(
        a.slots@[j],
        #[trigger] c.slots@[j],
        a.next_pid,
    ) by {
        assert(entry_kept(a.slots@[j], b.slots@[j], a.next_pid));
        assert(entry_kept(b.slots@[j], c.slots@[j], b.next_pid));
    }
}

/// A process that is made leaves the others.
pub proof fn lemma_kept_created(pre: &Kernel, post: &Kernel, name: &'static str)
    requires
        created(pre, post, name),
    ensures
        kept(&pre.procs, &post.procs),
{
}

/// A process that was made since goes again.
pub proof fn lemma_kept_removed(a: &ProcTable, b: &Kernel, c: &Kernel, i: int)
    requires
        a.wf(),
        kept(a, &b.procs),
        removed(b, c, i),
        0 <= i < b.procs.slots@.len(),
        b.procs.slots@[i] is Some,
        b.procs.slots@[i]->0.id >= a.next_pid,
    ensures
        kept(a, &c.procs),
{
    assert forall|j: int| 0 <= j < a.slots@.len() implies entry_kept(
        a.slots@[j],
        #[trigger] c.procs.slots@[j],
        a.next_pid,
    ) by {
        assert(entry_kept(a.slots@[j], b.procs.slots@[j], a.next_pid));
    }
}

/// What [`set_exit_notif`] answers and does.
pub open spec fn exit_notif_set(
    t0: &ProcTable,
    t1: &ProcTable,
    pid: u64,
    nid: u32,
    badge: u64,
    r: Result<(), &'static str>,
) -> bool {
    &&& t1.wf()
    &&& match find(t0.slots@, pid) {
        None => r == Err::<(), &'static str>("set_exit_notif: no such process") && *t1
            == *t0,
        Some(i) => {
            &&& r == Ok::<(), &'static str>(())
            &&& t1.slots@ == t0.slots@.update(
                i,
                Some(Process { exit_notif: (nid, badge), ..t0.slots@[i]->0 }),
            )
            &&& t1.next_pid == t0.next_pid
            &&& t1.created == t0.created
        },
    }
}

/// Say where the end of process `pid` is announced.
pub fn set_exit_notif(t: &mut ProcTable, pid: u64, nid: u32, badge: u64) -> (r: Result<
    (),
    &'static str,
>)
    requires
        old(t).wf(),
    ensures
        exit_notif_set(old(t), final(t), pid, nid, badge, r),
{
    let i: usize = match lookup(t, pid) {
        None => {
            return Err("set_exit_notif: no such process");
        },
        Some(i) => i,
    };
    if let Some(p) = t.slots[i] {
        let mut p1: Process = p;
        p1.exit_notif = (nid, badge);
        t.slots.set(i, Some(p1));
    }
    Ok(())
}

/// Where the end of process `pid` is announced, if anywhere.
pub fn exit_notif_of(t: &ProcTable, pid: u64) -> (r: Option<(u32, u64)>)
    requires
        t.wf(),
    ensures
        r == (match find(t.slots@, pid) {
            Some(i) => if t.slots@[i]->0.exit_notif.0 != u32::MAX {
                Some(t.slots@[i]->0.exit_notif)
            } else {
                None
            },
            None => None,
        }),
{
    match lookup(t, pid) {
        None => None,
        Some(i) => match t.slots[i] {
            None => None,
            Some(p) => if p.exit_notif.0 != u32::MAX {
                Some(p.exit_notif)
            } else {
                None
            },
        },
    }
}

/// Apply `f` to the capabilities of process `pid`.
pub fn with_caps<R, F: FnOnce(&CapSpace) -> R>(t: &ProcTable, pid: u64, f: F) -> (r: Option<R>)
    requires
        t.wf(),
        find(t.slots@, pid) matches Some(i) ==> call_requires(f, (&t.slots@[i]->0.caps,)),
    ensures
        match find(t.slots@, pid) {
            Some(i) => r matches Some(v) && call_ensures(f, (&t.slots@[i]->0.caps,), v),
            None => r is None,
        },
{
    match lookup(t, pid) {
        None => None,
        Some(i) => match &t.slots[i] {
            None => None,
            Some(p) => Some(f(&p.caps)),
        },
    }
}

/// How many processes live.
pub fn live_count(t: &ProcTable) -> (r: usize)
    requires
        t.wf(),
    ensures
        r == live(t.slots@),
        r <= MAX_PROCESSES,
{
    let mut n: usize = 0;
    let mut i: usize = 0;
    while i < MAX_PROCESSES
        invariant
            i <= MAX_PROCESSES,
            t.wf(),
            n == live(t.slots@.take(i as int)),
            n <= i,
        decreases MAX_PROCESSES - i,
    {
        assert(t.slots@.take(i + 1).drop_last() =~= t.slots@.take(i as int));
        if t.slots[i].is_some() {
            n = n + 1;
        }
        i = i + 1;
    }
    assert(t.slots@.take(MAX_PROCESSES as int) =~= t.slots@);
    n
}

/// How often `pid` occurs in `owners`.
pub open spec fn count_of(owners: Seq<u64>, pid: u64) -> nat
    decreases owners.len(),
{
    if owners.len() == 0 {
        0
    } else if owners.last() == pid {
        count_of(owners.drop_last(), pid) + 1
    } else {
        count_of(owners.drop_last(), pid)
    }
}

/// How many threads process `pid` has. `owners` names, for every thread that
/// lives and belongs to a process, that process.
pub fn proc_live_threads(owners: &[u64], pid: u64) -> (n: usize)
    ensures
        n == count_of(owners@, pid),
        n <= owners@.len(),
{
    let total: usize = owners.len();
    let mut n: usize = 0;
    let mut i: usize = 0;
    while i < total
        invariant
            i <= total,
            total == owners@.len(),
            n <= i,
            n == count_of(owners@.take(i as int), pid),
        decreases total - i,
    {
        assert(owners@.take(i + 1).drop_last() =~= owners@.take(i as int));
        if owners[i] == pid {
            n = n + 1;
        }
        i = i + 1;
    }
    assert(owners@.take(total as int) =~= owners@);
    n
}

/// The processes that live, in table order, each with the number of its
/// threads.
pub open spec fn live_pairs(slots: Seq<Option<Process>>, owners: Seq<u64>) -> Seq<(u64, usize)>
    decreases slots.len(),
{
    if slots.len() == 0 {
        Seq::empty()
    } else {
        match slots.last() {
            Some(p) => live_pairs(slots.drop_last(), owners).push(
                (p.id, count_of(owners, p.id) as usize),
            ),
            None => live_pairs(slots.drop_last(), owners),
        }
    }
}

/// What [`list_live`] answers and does.
pub open spec fn live_listed(
    t: &ProcTable,
    owners: &[u64],
    max: usize,
    r: Vec<(u64, usize)>,
) -> bool {
    &&& r@ == live_pairs(t.slots@, owners@).take(
        if max <= live_pairs(t.slots@, owners@).len() {
            max as int
        } else {
            live_pairs(t.slots@, owners@).len() as int
        },
    )
}

/// The first `max` processes that live, in table order, each with the number of
/// its threads.
pub fn list_live(t: &ProcTable, owners: &[u64], max: usize) -> (r: Vec<(u64, usize)>)
    requires
        t.wf(),
    ensures
        live_listed(t, owners, max, r),
{
    let mut out: Vec<(u64, usize)> = Vec::new();
    let mut i: usize = 0;
    let ghost all = live_pairs(t.slots@, owners@);
    while i < MAX_PROCESSES
        invariant
            i <= MAX_PROCESSES,
            t.wf(),
            all == live_pairs(t.slots@, owners@),
            out@.len() <= max,
            out@.len() < max ==> out@ == live_pairs(t.slots@.take(i as int), owners@),
            out@.len() == max ==> max <= live_pairs(t.slots@.take(i as int), owners@).len()
                && out@ == live_pairs(t.slots@.take(i as int), owners@).take(max as int),
        decreases MAX_PROCESSES - i,
    {
        let ghost upto = live_pairs(t.slots@.take(i as int), owners@);
        assert(t.slots@.take(i + 1).drop_last() =~= t.slots@.take(i as int));
        if out.len() < max {
            if let Some(p) = t.slots[i] {
                let n: usize = proc_live_threads(owners, p.id);
                out.push((p.id, n));
                assert(out@ == upto.push((p.id, n)));
                assert(out@.len() == max ==> out@ =~= upto.push((p.id, n)).take(max as int));
            }
        } else {
            let ghost next = live_pairs(t.slots@.take(i + 1), owners@);
            assert(upto.len() <= next.len());
            assert(next.take(max as int) =~= upto.take(max as int));
        }
        i = i + 1;
    }
    assert(t.slots@.take(MAX_PROCESSES as int) =~= t.slots@);
    assert(out@.len() < max ==> all.take(all.len() as int) =~= all);
    out
}

/// How many processes were ever created.
pub fn created_total(t: &ProcTable) -> (r: u64)
    ensures
        r == t.created,
{
    t.created
}

/// What destroying process `pid` does besides freeing frames: its entry is
/// unused, its root is no table any more, and all other address spaces are as
/// they were.
pub open spec fn removed(pre: &Kernel, post: &Kernel, i: int) -> bool {
    let root = pre.procs.slots@[i]->0.pml4_phys as int;
    &&& post.procs.slots@ == pre.procs.slots@.update(i, None)
    &&& post.procs.next_pid == pre.procs.next_pid
    &&& post.procs.created == pre.procs.created
    &&& post.pg.kernel_root == pre.pg.kernel_root
    &&& post.pg.live_root == pre.pg.live_root
    &&& post.pg.apic_base == pre.pg.apic_base
    &&& post.pg.skipped_high == pre.pg.skipped_high
    &&& forall|r: int, v: int| #![trigger paging::leaf(post.pg.mem.words@, r, v)]
        paging::is_root(pre.pg.mem.seats@, r) && r != root && 0 <= v < PAGES ==> paging::leaf(
            post.pg.mem.words@,
            r,
            v,
        ) == paging::leaf(pre.pg.mem.words@, r, v)
    &&& forall|r: int, v: int|
        paging::is_root(pre.pg.mem.seats@, r) && r != root && 0 <= v < PAGES ==> #[trigger] paging::slots(
            post.pg.mem.words@,
            r,
            v,
        ) == paging::slots(pre.pg.mem.words@, r, v)
    &&& forall|t: int| #[trigger] post.pg.mem.seats@.dom().contains(t) ==> t != root
        && pre.pg.mem.seats@.dom().contains(t) && post.pg.mem.seats@[t] == pre.pg.mem.seats@[t]
    &&& forall|r: int|
        paging::is_root(pre.pg.mem.seats@, r) && r != root ==> #[trigger] paging::is_root(
            post.pg.mem.seats@,
            r,
        )
    &&& post.pg.mem.words@.len() == pre.pg.mem.words@.len()
    &&& paging::data_same(&pre.pg.mem, &post.pg.mem)
}

/// The frames that go back when the process with root `root` is destroyed:
/// those its user pages are mapped to, those of its tables, and the root.
pub open spec fn goes_back(k: &Kernel, root: int, j: int) -> bool {
    ||| j * 4096 == root
    ||| exists|v: int|
        0 <= v < paging::USER_PAGES && #[trigger] paging::claims(&k.pg.mem, &k.fa, root, v, j)
}

/// Process `pid` goes by `name`, and nobody is told of its end.
pub open spec fn entered(t: &ProcTable, pid: u64, name: &'static str) -> bool {
    find(t.slots@, pid) matches Some(i) && {
        &&& t.slots@[i] is Some
        &&& t.slots@[i]->0.name == name
        &&& t.slots@[i]->0.exit_notif == (u32::MAX, 0u64)
    }
}

/// Process `pid`, if there is one, may be destroyed: none of its pages is a
/// page table. It does not matter where its address space is `live`, and the
/// answer is an error.
pub open spec fn may_go(k: &Kernel, pid: u64, live: u64) -> bool {
    find(k.procs.slots@, pid) matches Some(i) ==> live == k.procs.slots@[i]->0.pml4_phys
        || paging::no_table_mapped(
        &k.pg.mem,
        &k.fa,
        k.procs.slots@[i]->0.pml4_phys as int,
    )
}

/// What [`destroy`] answers and does.
pub open spec fn destroyed(
    pre: &Kernel,
    post: &Kernel,
    pid: u64,
    live: u64,
    r: Result<u64, &'static str>,
) -> bool {
    match find(pre.procs.slots@, pid) {
        None => r == Err::<u64, &'static str>("destroy: no such process") && *post == *pre,
        Some(i) => {
            let root = pre.procs.slots@[i]->0.pml4_phys;
            if live == root {
                &&& r == Err::<u64, &'static str>("destroy: process address space is the live CR3")
                &&& *post == *pre
            } else if !paging::sole_below(
                &pre.pg.mem,
                &pre.fa,
                root as int,
                paging::USER_PAGES as int,
            ) {
                r == paging::teardown_failed()
            } else {
                &&& r matches Ok(n)
                &&& post.wf()
                &&& removed(pre, post, i)
                &&& rest::kept_but(pre, post, Set::empty().insert(root as int), rest::free_in(post))
                &&& post.fa.same_pool(&pre.fa)
                &&& post.fa.free == pre.fa.free + n
                &&& post.fa.available() == pre.fa.available() + n
                &&& forall|j: int|
                    0 <= j < crate::frames::FRAME_COUNT ==> #[trigger] crate::frames::used(
                        post.fa.map@,
                        j,
                    ) == (crate::frames::used(pre.fa.map@, j) && !goes_back(pre, root as int, j))
            }
        },
    }
}

/// Destroy process `pid` and give back all that it held, unless its address
/// space is `live`, the root that CR3 holds. The last error means that a frame
/// could not be given back; the kernel stops on it.
pub fn destroy(k: &mut Kernel, pid: u64, live: u64) -> (r: Result<u64, &'static str>)
    requires
        old(k).wf(),
        may_go(old(k), pid, live),
    ensures
        destroyed(old(k), final(k), pid, live, r),
{
    let i: usize = match lookup(&k.procs, pid) {
        None => {
            return Err("destroy: no such process");
        },
        Some(i) => i,
    };
    let root: u64 = match k.procs.slots[i] {
        None => {
            return Err("destroy: no such process");
        },
        Some(p) => p.pml4_phys,
    };
    if live == root {
        return Err("destroy: process address space is the live CR3");
    }
    let ghost k0 = *k;
    proof {
        lemma_root_known(&k0, i as int);
    }
    let n: u64 = match paging::destroy_user_half(&mut k.pg.mem, &mut k.fa, root) {
        Err(e) => {
            return Err(e);
        },
        Ok(n) => n,
    };
    let ghost k1 = *k;
    proof {
        assert(paging::is_root(k1.pg.mem.seats@, root as int));
    }
    match paging::drop_root(&mut k.pg.mem, &mut k.fa, root) {
        Err(_) => {
            return Err("destroy: root frame free rejected");
        },
        Ok(_) => {},
    }
    k.procs.slots.set(i, None);
    proof {
        crate::frames::lemma_free_bounds(k.fa.map@, crate::frames::FRAME_COUNT as int);
        crate::frames::lemma_free_bounds(k0.fa.map@, crate::frames::FRAME_COUNT as int);
        lemma_destroy(&k0, &k1, k, i as int, root as int, n as int);
        rest::lemma_removed(&k0, k, i as int);
    }
    Ok(n + 1)
}

proof fn lemma_destroy(k0: &Kernel, k1: &Kernel, k: &Kernel, i: int, root: int, n: int)
    requires
        k0.wf(),
        0 <= i < k0.procs.slots@.len(),
        k0.procs.slots@[i] matches Some(p) && p.pml4_phys == root,
        paging::teardown_start(&k0.pg.mem, &k0.fa, root),
        paging::swept_frames(
            &k0.pg.mem,
            &k0.fa,
            &k1.fa,
            root,
            paging::USER_PAGES as int,
            n,
        ),
        paging::swept_tables(
            &k0.pg.mem,
            &k1.pg.mem,
            &k1.fa,
            root,
            paging::USER_PAGES as int,
        ),
        forall|l: int|
            1 <= l <= 3 ==> #[trigger] paging::tables_back(
                &k0.pg.mem,
                &k1.fa,
                root,
                l,
                paging::USER_PAGES as int,
            ),
        k1.procs == k0.procs,
        k1.pg.kernel_root == k0.pg.kernel_root,
        k1.pg.live_root == k0.pg.live_root,
        k1.pg.apic_base == k0.pg.apic_base,
        k1.pg.skipped_high == k0.pg.skipped_high,
        k.pg.kernel_root == k1.pg.kernel_root,
        k.pg.live_root == k1.pg.live_root,
        k.pg.apic_base == k1.pg.apic_base,
        k.pg.skipped_high == k1.pg.skipped_high,
        k.pg.mem.words@ == k1.pg.mem.words@,
        k.pg.mem.seats@ == k1.pg.mem.seats@.remove(root),
        k.pg.mem.wf(&k.fa),
        k.fa.same_pool(&k1.fa),
        crate::frames::gave_back(&k1.fa, &k.fa, root),
        k.procs.slots@ == k0.procs.slots@.update(i, None),
        k.procs.next_pid == k0.procs.next_pid,
        k.procs.created == k0.procs.created,
    ensures
        k.wf(),
        removed(k0, k, i),
        forall|j: int|
            0 <= j < crate::frames::FRAME_COUNT ==> #[trigger] crate::frames::used(k.fa.map@, j)
                == (crate::frames::used(k0.fa.map@, j) && !goes_back(k0, root, j)),
{
    let m0 = &k0.pg.mem;
    let s0 = k0.procs.slots@;
    let s1 = k.procs.slots@;
    assert(paging::is_table(m0.words@, m0.seats@, root));
    assert(k0.pg.kernel_root != root);
    assert(paging::is_root(k1.pg.mem.seats@, k0.pg.kernel_root as int));
    assert(k1.pg.mem.seats@.dom().contains(k0.pg.kernel_root as int));
    assert forall|a: int| 0 <= a < s1.len() && #[trigger] s1[a] is Some implies {
        &&& a != i
        &&& s0[a] == s1[a]
    } by {}
    assert forall|a: int| 0 <= a < s1.len() && #[trigger] s1[a] is Some implies views::process_root(
        &k.pg.mem,
        k.pg.kernel_root as int,
        s1[a]->0.pml4_phys as int,
    ) by {
        assert(s0[a] is Some);
        lemma_root_known(k0, a);
        let rt = s0[a]->0.pml4_phys as int;
        assert(rt != root);
        assert(paging::is_root(k1.pg.mem.seats@, rt));
        assert(k1.pg.mem.seats@.dom().contains(rt));
    }
    assert(k.wf());
    assert forall|r: int, v: int|
        paging::is_root(m0.seats@, r) && r != root && 0 <= v < PAGES implies #[trigger] paging::slots(
        k.pg.mem.words@,
        r,
        v,
    ) == paging::slots(m0.words@, r, v) by {
        assert(paging::is_table(m0.words@, m0.seats@, r));
        assert(m0.seats@[r].upper != root);
        assert(paging::slots(k1.pg.mem.words@, r, v) == paging::slots(m0.words@, r, v));
    }
    assert forall|r: int, v: int| #![trigger paging::leaf(k.pg.mem.words@, r, v)]
        paging::is_root(m0.seats@, r) && r != root && 0 <= v < PAGES implies paging::leaf(
        k.pg.mem.words@,
        r,
        v,
    ) == paging::leaf(m0.words@, r, v) by {
        assert(paging::is_table(m0.words@, m0.seats@, r));
        let up = m0.seats@[r].upper;
        assert(up != root);
        assert(paging::slots(k1.pg.mem.words@, r, v) == paging::slots(m0.words@, r, v));
        paging::lemma_leaf_slots(k1.pg.mem.words@, r, v);
        paging::lemma_leaf_slots(m0.words@, r, v);
    }
    assert forall|r: int| paging::is_root(m0.seats@, r) && r != root implies #[trigger] paging::is_root(
        k.pg.mem.seats@,
        r,
    ) by {
        assert(paging::is_root(k1.pg.mem.seats@, r));
    }
    assert forall|j: int| 0 <= j < crate::frames::FRAME_COUNT implies #[trigger] crate::frames::used(
        k.fa.map@,
        j,
    ) == (crate::frames::used(k0.fa.map@, j) && !goes_back(k0, root, j)) by {
        lemma_frame_fate(k0, k1, k, root, n, j);
    }
}

proof fn lemma_frame_fate(k0: &Kernel, k1: &Kernel, k: &Kernel, root: int, n: int, j: int)
    requires
        0 <= j < crate::frames::FRAME_COUNT,
        paging::teardown_start(&k0.pg.mem, &k0.fa, root),
        paging::swept_frames(
            &k0.pg.mem,
            &k0.fa,
            &k1.fa,
            root,
            paging::USER_PAGES as int,
            n,
        ),
        forall|l: int|
            1 <= l <= 3 ==> #[trigger] paging::tables_back(
                &k0.pg.mem,
                &k1.fa,
                root,
                l,
                paging::USER_PAGES as int,
            ),
        crate::frames::gave_back(&k1.fa, &k.fa, root),
    ensures
        crate::frames::used(k.fa.map@, j) == (crate::frames::used(k0.fa.map@, j) && !goes_back(
            k0,
            root,
            j,
        )),
{
    let m0 = &k0.pg.mem;
    assert(paging::is_table(m0.words@, m0.seats@, root));
    if j * 4096 == root {
        assert(root / 4096 == j);
    } else {
        assert(root / 4096 != j);
        assert(crate::frames::used(k.fa.map@, j) == crate::frames::used(k1.fa.map@, j));
        if exists|v: int|
            0 <= v < paging::USER_PAGES && #[trigger] paging::claims(m0, &k0.fa, root, v, j) {
            let v = choose|v: int|
                0 <= v < paging::USER_PAGES && #[trigger] paging::claims(m0, &k0.fa, root, v, j);
            assert(paging::claims(m0, &k0.fa, root, v, j));
            paging::lemma_mask(0);
            if paging::held_frame(m0, &k0.fa, root, v) == Some(j) {
            } else {
                let (a, b, c, d) = paging::slots(m0.words@, root, v);
                let t = j * 4096;
                assert(t / 4096 == j);
                assert(paging::tables_back(m0, &k1.fa, root, 1, paging::USER_PAGES as int));
                assert(paging::tables_back(m0, &k1.fa, root, 2, paging::USER_PAGES as int));
                assert(paging::tables_back(m0, &k1.fa, root, 3, paging::USER_PAGES as int));
                if paging::present(a) && paging::addr(a) == t {
                    assert(paging::on_walk(m0.words@, root, v, 3, t));
                } else if paging::present(b) && paging::addr(b) == t {
                    assert(paging::on_walk(m0.words@, root, v, 2, t));
                } else {
                    assert(paging::on_walk(m0.words@, root, v, 1, t));
                }
            }
        }
    }
}

/// The table is full if and only if as many processes live as it has entries.
pub proof fn lemma_live(slots: Seq<Option<Process>>)
    ensures
        0 <= live(slots) <= slots.len(),
        full(slots) <==> live(slots) == slots.len(),
    decreases slots.len(),
{
    if slots.len() > 0 {
        let s = slots.drop_last();
        lemma_live(s);
        assert(slots[slots.len() - 1] == slots.last());
        if full(slots) {
            assert forall|j: int| 0 <= j < s.len() implies #[trigger] s[j] is Some by {
                assert(slots[j] == s[j]);
            }
        }
        if full(s) && slots.last() is Some {
            assert forall|j: int| 0 <= j < slots.len() implies #[trigger] slots[j] is Some by {
                if j < s.len() {
                    assert(s[j] == slots[j]);
                }
            }
        }
    }
}

/// Taking a free entry makes one process more.
pub proof fn lemma_live_taken(slots: Seq<Option<Process>>, i: int, p: Process)
    requires
        0 <= i < slots.len(),
        slots[i] is None,
    ensures
        live(slots.update(i, Some(p))) == live(slots) + 1,
    decreases slots.len(),
{
    let s = slots.drop_last();
    let t = slots.update(i, Some(p));
    if i < slots.len() - 1 {
        lemma_live_taken(s, i, p);
        assert(t.drop_last() =~= s.update(i, Some(p)));
    } else {
        assert(t.drop_last() =~= s);
    }
}

/// A process number is never used twice: a new process gets one that no live
/// process has, every number handed out before it was smaller, and the next one
/// is larger still, also when the process is gone.
pub proof fn law_numbers_are_new(pre: Kernel, made: Kernel, gone: Kernel, name: &'static str)
    requires
        pre.procs.wf(),
        created(&pre, &made, name),
        find(made.procs.slots@, pre.procs.next_pid) matches Some(i) ==> removed(&made, &gone, i),
    ensures
        find(pre.procs.slots@, pre.procs.next_pid) is None,
        find(made.procs.slots@, pre.procs.next_pid) is Some,
        find(gone.procs.slots@, pre.procs.next_pid) is None,
        forall|i: int|
            0 <= i < MAX_PROCESSES ==> (#[trigger] pre.procs.slots@[i] matches Some(p) ==> p.id
                < pre.procs.next_pid),
        gone.procs.next_pid > pre.procs.next_pid,
{
    let id = pre.procs.next_pid;
    let at = choose|i: int|
        {
            &&& #[trigger] first_free(pre.procs.slots@, i)
            &&& made.procs.slots@ == pre.procs.slots@.update(i, made.procs.slots@[i])
            &&& made.procs.slots@[i] matches Some(p) && p.id == id
        };
    lemma_find_bounds(pre.procs.slots@, id);
    lemma_find_bounds(made.procs.slots@, id);
    lemma_find_bounds(gone.procs.slots@, id);
    if let Some(i) = find(pre.procs.slots@, id) {
        assert(pre.procs.slots@[i] is Some);
    }
    assert(made.procs.slots@[at] is Some);
    if let Some(i) = find(gone.procs.slots@, id) {
        assert(gone.procs.slots@[i] is Some);
        assert(made.procs.slots@[i] is Some);
        if i != at {
            assert(pre.procs.slots@[i] is Some);
        }
    }
}

/// One step in the life of the process table: a process is made, or a request
/// is refused, a process is destroyed, or a capability slot is written.
pub open spec fn table_step(pre: &Kernel, post: &Kernel, made: bool) -> bool {
    if made {
        exists|name: &'static str| #[trigger] created(pre, post, name)
    } else {
        ||| post.procs == pre.procs
        ||| exists|i: int| #[trigger] removed(pre, post, i)
        ||| exists|pid: u64, slot: int, c: cap::Cap| #[trigger]
            cap::slot_set(&pre.procs, &post.procs, pid, slot, c)
    }
}

/// How many of the steps made a process.
pub open spec fn made_in(steps: Seq<bool>) -> int
    decreases steps.len(),
{
    if steps.len() == 0 {
        0
    } else {
        made_in(steps.drop_last()) + (if steps.last() {
            1int
        } else {
            0int
        })
    }
}

/// The total counts the processes that were made, over any run of steps, whether
/// they still live or not.
pub proof fn law_total_counts_creates(ks: Seq<Kernel>, steps: Seq<bool>)
    requires
        ks.len() == steps.len() + 1,
        forall|i: int|
            0 <= i < steps.len() ==> table_step(&ks[i], &ks[i + 1], #[trigger] steps[i]),
    ensures
        ks.last().procs.created == ks[0].procs.created + made_in(steps),
    decreases steps.len(),
{
    if steps.len() > 0 {
        let n = steps.len() - 1;
        let before = ks.drop_last();
        assert forall|i: int| 0 <= i < n implies table_step(
            &before[i],
            &before[i + 1],
            #[trigger] steps.drop_last()[i],
        ) by {
            assert(table_step(&ks[i], &ks[i + 1], steps[i]));
        }
        law_total_counts_creates(before, steps.drop_last());
        assert(table_step(&ks[n], &ks[n + 1], steps[n]));
    }
}

} // verus!
