//! What stays as it was while processes come and go beside it.

use vstd::prelude::*;
use crate::elf;
use crate::frames;
use crate::kernel::Kernel;
use crate::paging;
use crate::paging::PAGES;
use crate::proc;
use crate::views;
use crate::window;
use crate::window::{Refusals, Window};

verus! {

/// Frame `j` is in use, and no page table.
pub open spec fn plain(k: &Kernel, j: int) -> bool {
    &&& 0 <= j < frames::FRAME_COUNT
    &&& frames::used(k.fa.map@, j)
    &&& !k.pg.mem.seats@.dom().contains(j * 4096)
}

/// All but the address spaces `roots` and the frames `fs` is as it was: the
/// other address spaces stand and translate every page as before, and the
/// other frames in use stay in use, with their contents.
#[verifier::opaque]
pub open spec fn kept_but(pre: &Kernel, post: &Kernel, roots: Set<int>, fs: Set<int>) -> bool {
    &&& post.pg.kernel_root == pre.pg.kernel_root
    &&& post.pg.live_root == pre.pg.live_root
    &&& post.pg.apic_base == pre.pg.apic_base
    &&& post.pg.skipped_high == pre.pg.skipped_high
    &&& post.pg.mem.words@.len() == pre.pg.mem.words@.len()
    &&& forall|q: int|
        paging::is_root(pre.pg.mem.seats@, q) && !roots.contains(q) ==> #[trigger] paging::is_root(
            post.pg.mem.seats@,
            q,
        )
    &&& forall|q: int, v: int|
        #![trigger paging::leaf(post.pg.mem.words@, q, v)]
        paging::is_root(pre.pg.mem.seats@, q) && !roots.contains(q) && 0 <= v < PAGES
            ==> paging::leaf(post.pg.mem.words@, q, v) == paging::leaf(pre.pg.mem.words@, q, v)
    &&& forall|j: int|
        0 <= j < frames::FRAME_COUNT && frames::used(pre.fa.map@, j) && !fs.contains(j)
            ==> #[trigger] frames::used(post.fa.map@, j)
    &&& forall|j: int|
        plain(pre, j) && !fs.contains(j) ==> !#[trigger] post.pg.mem.seats@.dom().contains(j * 4096)
    &&& forall|i: int|
        #![trigger post.pg.mem.words@[i]]
        0 <= i < pre.pg.mem.words@.len() && plain(pre, i / 512) && !fs.contains(i / 512)
            ==> post.pg.mem.words@[i] == pre.pg.mem.words@[i]
}

/// All that there was is as it was.
pub open spec fn kept(pre: &Kernel, post: &Kernel) -> bool {
    kept_but(pre, post, Set::empty(), Set::empty())
}

/// The frames that are free.
pub open spec fn free_in(k: &Kernel) -> Set<int> {
    Set::new(|j: int| !frames::used(k.fa.map@, j))
}

/// An address space that is kept shows the bytes that it showed, where they
/// lie in frames that are kept.
pub proof fn law_kept_is_seen(
    pre: Kernel,
    post: Kernel,
    roots: Set<int>,
    fs: Set<int>,
    root: int,
    va: int,
)
    requires
        kept_but(&pre, &post, roots, fs),
        paging::is_root(pre.pg.mem.seats@, root),
        !roots.contains(root),
        0 <= va / 4096 < PAGES,
        paging::leaf(pre.pg.mem.words@, root, va / 4096) matches Some(e) ==> paging::addr(e) % 4096
            == 0 && plain(&pre, paging::addr(e) / 4096) && !fs.contains(paging::addr(e) / 4096),
    ensures
        window::seen(post.pg.mem.words@, root, va) == window::seen(pre.pg.mem.words@, root, va),
{
    reveal(kept_but);
    if let Some(e) = paging::leaf(pre.pg.mem.words@, root, va / 4096) {
        let at = paging::addr(e) + va % 4096;
        assert(paging::leaf(post.pg.mem.words@, root, va / 4096) == Some(e));
        assert(at / 8 / 512 == paging::addr(e) / 4096);
        if at / 8 < pre.pg.mem.words@.len() {
            assert(post.pg.mem.words@[at / 8] == pre.pg.mem.words@[at / 8]);
            assert(elf::mem_byte(post.pg.mem.words@, at) == elf::mem_byte(pre.pg.mem.words@, at));
        }
    }
}

/// Two steps after each other.
pub proof fn lemma_join(
    a: &Kernel,
    b: &Kernel,
    c: &Kernel,
    r1: Set<int>,
    f1: Set<int>,
    r2: Set<int>,
    f2: Set<int>,
    r: Set<int>,
    f: Set<int>,
)
    requires
        kept_but(a, b, r1, f1),
        kept_but(b, c, r2, f2),
        forall|q: int|
            paging::is_root(a.pg.mem.seats@, q) && !#[trigger] r.contains(q) ==> !r1.contains(q)
                && !r2.contains(q),
        forall|j: int|
            0 <= j < frames::FRAME_COUNT && frames::used(a.fa.map@, j) && !#[trigger] f.contains(j)
                ==> !f1.contains(j) && !f2.contains(j),
    ensures
        kept_but(a, c, r, f),
{
    reveal(kept_but);
    assert forall|q: int|
        paging::is_root(a.pg.mem.seats@, q) && !r.contains(q) implies #[trigger] paging::is_root(
        c.pg.mem.seats@,
        q,
    ) by {
        assert(paging::is_root(b.pg.mem.seats@, q));
    }
    assert forall|q: int, v: int|
        #![trigger paging::leaf(c.pg.mem.words@, q, v)]
        paging::is_root(a.pg.mem.seats@, q) && !r.contains(q) && 0 <= v < PAGES implies paging::leaf(
        c.pg.mem.words@,
        q,
        v,
    ) == paging::leaf(a.pg.mem.words@, q, v) by {
        assert(paging::is_root(b.pg.mem.seats@, q));
        assert(paging::leaf(b.pg.mem.words@, q, v) == paging::leaf(a.pg.mem.words@, q, v));
    }
    assert forall|j: int|
        0 <= j < frames::FRAME_COUNT && frames::used(a.fa.map@, j) && !f.contains(
            j,
        ) implies #[trigger] frames::used(c.fa.map@, j) by {
        assert(frames::used(b.fa.map@, j));
    }
    assert forall|j: int|
        plain(a, j) && !f.contains(j) implies !#[trigger] c.pg.mem.seats@.dom().contains(
        j * 4096,
    ) by {
        assert(frames::used(b.fa.map@, j));
        assert(!b.pg.mem.seats@.dom().contains(j * 4096));
        assert(plain(b, j));
    }
    assert forall|i: int|
        #![trigger c.pg.mem.words@[i]]
        0 <= i < a.pg.mem.words@.len() && plain(a, i / 512) && !f.contains(
            i / 512,
        ) implies c.pg.mem.words@[i] == a.pg.mem.words@[i] by {
        let j = i / 512;
        assert(frames::used(b.fa.map@, j));
        assert(!b.pg.mem.seats@.dom().contains(j * 4096));
        assert(plain(b, j));
        assert(b.pg.mem.words@[i] == a.pg.mem.words@[i]);
    }
}

/// A step after what has kept everything, on what is new since.
pub proof fn lemma_then(a: &Kernel, b: &Kernel, c: &Kernel, roots: Set<int>, fs: Set<int>)
    requires
        kept(a, b),
        kept_but(b, c, roots, fs),
        forall|q: int| #[trigger] roots.contains(q) ==> !paging::is_root(a.pg.mem.seats@, q),
        forall|j: int|
            0 <= j < frames::FRAME_COUNT && #[trigger] fs.contains(j) ==> !frames::used(
                a.fa.map@,
                j,
            ),
    ensures
        kept(a, c),
{
    lemma_join(
        a,
        b,
        c,
        Set::empty(),
        Set::empty(),
        roots,
        fs,
        Set::empty(),
        Set::empty(),
    );
}

/// A process is edited after what has kept everything.
pub proof fn lemma_first(a: &Kernel, b: &Kernel, c: &Kernel, root: int)
    requires
        kept(a, b),
        kept_but(b, c, Set::empty().insert(root), Set::empty()),
    ensures
        kept_but(a, c, Set::empty().insert(root), Set::empty()),
{
    lemma_join(
        a,
        b,
        c,
        Set::empty(),
        Set::empty(),
        Set::empty().insert(root),
        Set::empty(),
        Set::empty().insert(root),
        Set::empty(),
    );
}

/// What keeps everything keeps all but an address space.
pub proof fn lemma_weaker(a: &Kernel, b: &Kernel, root: int)
    requires
        kept(a, b),
    ensures
        kept_but(a, b, Set::empty().insert(root), Set::empty()),
{
    reveal(kept_but);
}

/// Two steps that keep everything.
pub proof fn lemma_kept_kept(a: &Kernel, b: &Kernel, c: &Kernel)
    requires
        kept(a, b),
        kept(b, c),
    ensures
        kept(a, c),
{
    lemma_then(a, b, c, Set::empty(), Set::empty());
}

/// A process that is new since was edited.
pub proof fn lemma_mine(k0: &Kernel, k: &Kernel, k1: &Kernel, root: int)
    requires
        k0.wf(),
        kept(k0, k),
        kept_but(k, k1, Set::empty().insert(root), Set::empty()),
        !frames::used(k0.fa.map@, root / 4096),
    ensures
        kept(k0, k1),
{
    lemma_no_root(k0, root);
    lemma_then(k0, k, k1, Set::empty().insert(root), Set::empty());
}

/// A process that is new since is gone.
pub proof fn lemma_gone(k0: &Kernel, k: &Kernel, k1: &Kernel, root: int)
    requires
        k0.wf(),
        kept(k0, k),
        kept_but(k, k1, Set::empty().insert(root), free_in(k1)),
        !frames::used(k0.fa.map@, root / 4096),
        forall|j: int|
            0 <= j < frames::FRAME_COUNT && #[trigger] frames::used(k0.fa.map@, j) ==> frames::used(
                k1.fa.map@,
                j,
            ),
    ensures
        kept(k0, k1),
{
    lemma_no_root(k0, root);
    lemma_then(k0, k, k1, Set::empty().insert(root), free_in(k1));
}

/// A frame that is new since was written, or given back.
pub proof fn lemma_frame(k0: &Kernel, k: &Kernel, k1: &Kernel, f: int)
    requires
        kept(k0, k),
        kept_but(k, k1, Set::empty(), Set::empty().insert(f / 4096)),
        !frames::used(k0.fa.map@, f / 4096),
    ensures
        kept(k0, k1),
{
    lemma_then(k0, k, k1, Set::empty(), Set::empty().insert(f / 4096));
}

/// A frame that is free now was free then.
pub proof fn lemma_was_free(k0: &Kernel, k: &Kernel, j: int)
    requires
        kept(k0, k),
        0 <= j < frames::FRAME_COUNT,
        !frames::used(k.fa.map@, j),
    ensures
        !frames::used(k0.fa.map@, j),
{
    reveal(kept_but);
}

/// No frame that is free carries an address space.
pub proof fn lemma_no_root(k: &Kernel, root: int)
    requires
        k.wf(),
        !frames::used(k.fa.map@, root / 4096),
    ensures
        !paging::is_root(k.pg.mem.seats@, root),
{
    if k.pg.mem.seats@.dom().contains(root) {
        assert(k.fa.in_use(root));
    }
}

/// Nothing but the process table changed, if that.
pub proof fn lemma_same(pre: &Kernel, post: &Kernel)
    requires
        post.pg == pre.pg,
        post.fa == pre.fa,
    ensures
        kept(pre, post),
{
    reveal(kept_but);
}

/// Frames were taken.
pub proof fn lemma_took(pre: &Kernel, post: &Kernel)
    requires
        post.pg == pre.pg,
        forall|j: int|
            0 <= j < frames::FRAME_COUNT && #[trigger] frames::used(pre.fa.map@, j)
                ==> frames::used(post.fa.map@, j),
    ensures
        kept(pre, post),
{
    reveal(kept_but);
}

/// A frame was given back.
pub proof fn lemma_gave(pre: &Kernel, post: &Kernel, f: int)
    requires
        post.pg == pre.pg,
        frames::gave_back(&pre.fa, &post.fa, f),
    ensures
        kept_but(pre, post, Set::empty(), Set::empty().insert(f / 4096)),
{
    reveal(kept_but);
}

/// A process was made.
pub proof fn lemma_created(pre: &Kernel, post: &Kernel, name: &'static str)
    requires
        pre.wf(),
        proc::created(pre, post, name),
        post.pg.kernel_root == pre.pg.kernel_root,
        post.pg.live_root == pre.pg.live_root,
        post.pg.apic_base == pre.pg.apic_base,
        post.pg.skipped_high == pre.pg.skipped_high,
    ensures
        kept(pre, post),
{
    reveal(kept_but);
    let i = choose|i: int|
        #[trigger] proc::first_free(pre.procs.slots@, i) && post.procs.slots@
            == pre.procs.slots@.update(i, post.procs.slots@[i]) && post.procs.slots@[i] is Some
            && frames::took(
            &pre.fa,
            &post.fa,
            post.procs.slots@[i]->0.pml4_phys as int,
        ) && post.pg.mem.seats@ == pre.pg.mem.seats@.insert(
            post.procs.slots@[i]->0.pml4_phys as int,
            post.pg.mem.seats@[post.procs.slots@[i]->0.pml4_phys as int],
        ) && !pre.pg.mem.seats@.dom().contains(post.procs.slots@[i]->0.pml4_phys as int);
    let root = post.procs.slots@[i]->0.pml4_phys as int;
    assert forall|j: int| plain(pre, j) implies !#[trigger] post.pg.mem.seats@.dom().contains(
        j * 4096,
    ) by {
        if j * 4096 == root {
            assert(root / 4096 == j);
            assert(!pre.fa.in_use(root));
        }
    }
    assert forall|q: int| paging::is_root(pre.pg.mem.seats@, q) implies #[trigger] paging::is_root(
        post.pg.mem.seats@,
        q,
    ) by {
        assert(q != root);
    }
}

/// A process could not be made, and the frame for it went back.
pub proof fn lemma_borrowed(pre: &Kernel, post: &Kernel)
    requires
        proc::frame_borrowed(pre, post),
        post.pg.kernel_root == pre.pg.kernel_root,
        post.pg.live_root == pre.pg.live_root,
        post.pg.apic_base == pre.pg.apic_base,
        post.pg.skipped_high == pre.pg.skipped_high,
    ensures
        kept(pre, post),
{
    reveal(kept_but);
}

/// The upper half of no address space is that of a process.
proof fn lemma_owner(k: &Kernel, root: int, q: int, v: int)
    requires
        k.wf(),
        views::process_root(&k.pg.mem, k.pg.kernel_root as int, root),
        paging::is_root(k.pg.mem.seats@, q),
        q != root,
    ensures
        paging::owner_of(k.pg.mem.seats@[q], v) != root,
{
    assert(paging::is_table(k.pg.mem.words@, k.pg.mem.seats@, q));
    assert(paging::is_table(k.pg.mem.words@, k.pg.mem.seats@, root));
}

/// Pages of the process `root` were mapped.
pub proof fn lemma_edited(pre: &Kernel, post: &Kernel, root: int)
    requires
        pre.wf(),
        views::process_root(&pre.pg.mem, pre.pg.kernel_root as int, root),
        views::edited(&pre.pg.mem, &pre.fa, &post.pg.mem, &post.fa, root),
        post.pg.kernel_root == pre.pg.kernel_root,
        post.pg.live_root == pre.pg.live_root,
        post.pg.apic_base == pre.pg.apic_base,
        post.pg.skipped_high == pre.pg.skipped_high,
    ensures
        kept_but(pre, post, Set::empty().insert(root), Set::empty()),
{
    assert forall|q: int, v: int|
        #![trigger paging::leaf(post.pg.mem.words@, q, v)]
        paging::is_root(pre.pg.mem.seats@, q) && q != root && 0 <= v < PAGES implies paging::leaf(
        post.pg.mem.words@,
        q,
        v,
    ) == paging::leaf(pre.pg.mem.words@, q, v) by {
        lemma_owner(pre, root, q, v);
    }
    lemma_grown(pre, post, root);
}

/// Tables were added and pages mapped in one address space.
proof fn lemma_grown(pre: &Kernel, post: &Kernel, root: int)
    requires
        pre.wf(),
        post.pg.kernel_root == pre.pg.kernel_root,
        post.pg.live_root == pre.pg.live_root,
        post.pg.apic_base == pre.pg.apic_base,
        post.pg.skipped_high == pre.pg.skipped_high,
        paging::tables_grown(&pre.pg.mem, &pre.fa, &post.pg.mem),
        paging::data_kept(&pre.pg.mem, &pre.fa, &post.pg.mem),
        forall|j: int|
            0 <= j < frames::FRAME_COUNT && #[trigger] frames::used(pre.fa.map@, j)
                ==> frames::used(post.fa.map@, j),
        forall|q: int, v: int|
            #![trigger paging::leaf(post.pg.mem.words@, q, v)]
            paging::is_root(pre.pg.mem.seats@, q) && q != root && 0 <= v < PAGES ==> paging::leaf(
                post.pg.mem.words@,
                q,
                v,
            ) == paging::leaf(pre.pg.mem.words@, q, v),
    ensures
        kept_but(pre, post, Set::empty().insert(root), Set::empty()),
{
    reveal(kept_but);
    assert forall|j: int| plain(pre, j) implies !#[trigger] post.pg.mem.seats@.dom().contains(
        j * 4096,
    ) by {
        if post.pg.mem.seats@.dom().contains(j * 4096) {
            assert((j * 4096) / 4096 == j);
            assert(pre.fa.in_use(j * 4096));
        }
    }
}

/// A window was asked for in the process `root`.
pub proof fn lemma_set_up(
    pre: &Kernel,
    post: &Kernel,
    root: int,
    w: &Window,
    say: &Refusals,
    code: Seq<u8>,
    off: int,
    msg: Seq<u8>,
    stack: bool,
    r: Result<[u64; 3], &'static str>,
)
    requires
        pre.wf(),
        views::process_root(&pre.pg.mem, pre.pg.kernel_root as int, root),
        window::set_up(pre, post, root, w, say, code, off, msg, stack, r),
    ensures
        kept_but(pre, post, Set::empty().insert(root), Set::empty()),
{
    assert forall|q: int, v: int|
        #![trigger paging::leaf(post.pg.mem.words@, q, v)]
        paging::is_root(pre.pg.mem.seats@, q) && q != root && 0 <= v < PAGES implies paging::leaf(
        post.pg.mem.words@,
        q,
        v,
    ) == paging::leaf(pre.pg.mem.words@, q, v) by {
        lemma_owner(pre, root, q, v);
    }
    lemma_grown(pre, post, root);
}

/// A frame that is no table was written.
pub proof fn lemma_written(pre: &Kernel, post: &Kernel, f: int)
    requires
        pre.wf(),
        post.fa == pre.fa,
        post.pg.kernel_root == pre.pg.kernel_root,
        post.pg.live_root == pre.pg.live_root,
        post.pg.apic_base == pre.pg.apic_base,
        post.pg.skipped_high == pre.pg.skipped_high,
        post.pg.mem.seats@ == pre.pg.mem.seats@,
        window::only_frame(pre.pg.mem.words@, post.pg.mem.words@, f),
        f % 4096 == 0,
        f >= 0,
        !pre.pg.mem.seats@.dom().contains(f),
    ensures
        kept_but(pre, post, Set::empty(), Set::empty().insert(f / 4096)),
{
    reveal(kept_but);
    paging::lemma_apart(pre.pg.mem.words@, post.pg.mem.words@, pre.pg.mem.seats@, f);
    assert forall|i: int|
        #![trigger post.pg.mem.words@[i]]
        0 <= i < pre.pg.mem.words@.len() && plain(pre, i / 512) && i / 512 != f
            / 4096 implies post.pg.mem.words@[i] == pre.pg.mem.words@[i] by {
        if f / 8 <= i < f / 8 + 512 {
            assert(i / 512 == f / 4096);
        }
    }
}

/// A process was destroyed.
pub proof fn lemma_removed(pre: &Kernel, post: &Kernel, i: int)
    requires
        pre.wf(),
        proc::removed(pre, post, i),
        forall|j: int|
            0 <= j < frames::FRAME_COUNT && #[trigger] frames::used(post.fa.map@, j)
                ==> frames::used(pre.fa.map@, j),
    ensures
        kept_but(
            pre,
            post,
            Set::empty().insert(pre.procs.slots@[i]->0.pml4_phys as int),
            free_in(post),
        ),
{
    reveal(kept_but);
    let root = pre.procs.slots@[i]->0.pml4_phys as int;
    assert forall|q: int|
        paging::is_root(pre.pg.mem.seats@, q) && q != root implies #[trigger] paging::is_root(
        post.pg.mem.seats@,
        q,
    ) by {
        assert(paging::is_root(pre.pg.mem.seats@, q));
    }
}

} // verus!
