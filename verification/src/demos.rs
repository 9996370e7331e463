//! The demonstrations that run user threads: what they need is put in place,
//! and what they leave behind is checked and taken away again.

use vstd::prelude::*;
use crate::accounts;
use crate::bytes;
use crate::cap;
use crate::cap::{Cap, CapObj, RIGHTS_COPY, RIGHTS_READ, RIGHTS_WRITE};
use crate::drills;
use crate::elf;
use crate::elf::SegInfo;
use crate::frames;
use crate::ipc;
use crate::ipc::Ipc;
use crate::kernel::Kernel;
use crate::m3;
use crate::m4;
use crate::m4::PROC_STACK_VA;
use crate::paging;
use crate::paging::{PhysMem, USER_PAGES};
use crate::pairs;
use crate::payloads;
use crate::payloads::{
    build_console_reader, build_ipc_client, build_ipc_server, build_mmio_payload, build_payload_a,
    build_spawn_supervisor, build_untyped_payload, I_CODE, I_DATA, I_STACK,
};
use crate::proc;
use crate::proc::ProcTable;
use crate::rest;
use crate::solo;
use crate::syscall;
use crate::syscall::Syscalls;
use crate::views;
use crate::window;

verus! {

/// The window of a message passing program stands in `root` on the frames `p`:
/// its code, to run, and zeroed pages for its data and its stack, to write.
/// Nothing else is mapped in the user half.
#[verifier::opaque]
pub open spec fn window_at(k: &Kernel, root: int, code: Seq<u8>, p: [u64; 3]) -> bool {
    let words = k.pg.mem.words@;
    &&& drills::spare(k, p@[0] as int)
    &&& drills::spare(k, p@[1] as int)
    &&& drills::spare(k, p@[2] as int)
    &&& p@[0] != p@[1]
    &&& p@[0] != p@[2]
    &&& p@[1] != p@[2]
    &&& paging::leaf(words, root, I_CODE as int / 4096) == Some(
        paging::user_entry(p@[0], false, true),
    )
    &&& paging::leaf(words, root, I_DATA as int / 4096) == Some(
        paging::user_entry(p@[1], true, false),
    )
    &&& paging::leaf(words, root, I_STACK as int / 4096) == Some(
        paging::user_entry(p@[2], true, false),
    )
    &&& forall|v: int|
        0 <= v < USER_PAGES && v != I_CODE as int / 4096 && v != I_DATA as int / 4096 && v
            != I_STACK as int / 4096 ==> #[trigger] paging::leaf(words, root, v) is None
    &&& code.len() <= 4096
    &&& window::code_written(words, p@[0] as int, code, 0, Seq::empty())
    &&& window::zeroed(words, p@[1] as int)
    &&& window::zeroed(words, p@[2] as int)
}

/// What stands in the window is what the process sees: its code, zeroes where
/// its data and its stack go, and nothing anywhere else in the user half.
pub proof fn law_window_is_seen(k: Kernel, root: int, code: Seq<u8>, p: [u64; 3], i: int)
    requires
        window_at(&k, root, code, p),
        0 <= i < 4096,
    ensures
        i < code.len() ==> window::seen(k.pg.mem.words@, root, I_CODE + i) == Some(code[i]),
        window::seen(k.pg.mem.words@, root, I_DATA + i) == Some(0u8),
        window::seen(k.pg.mem.words@, root, I_STACK + i) == Some(0u8),
        forall|va: int|
            0 <= va < paging::USER_HALF_LIMIT && !(I_CODE <= va < I_CODE + 3 * 4096)
                ==> #[trigger] window::seen(k.pg.mem.words@, root, va) is None,
{
    reveal(window_at);
    window::lemma_stands_seen(k.pg.mem, root, I_CODE as int, p@[0], false, true, i);
    window::lemma_stands_seen(k.pg.mem, root, I_DATA as int, p@[1], true, false, i);
    window::lemma_stands_seen(k.pg.mem, root, I_STACK as int, p@[2], true, false, i);
    if i < code.len() {
        assert(window::code_page_byte(code, 0, Seq::empty(), i) == Some(code[i]));
        assert(elf::mem_byte(k.pg.mem.words@, p@[0] + i) == code[i]);
    }
    assert(elf::mem_byte(k.pg.mem.words@, p@[1] + i) == 0);
    assert(elf::mem_byte(k.pg.mem.words@, p@[2] + i) == 0);
    assert forall|va: int|
        0 <= va < paging::USER_HALF_LIMIT && !(I_CODE <= va < I_CODE + 3
            * 4096) implies #[trigger] window::seen(k.pg.mem.words@, root, va) is None by {
        assert(paging::leaf(k.pg.mem.words@, root, va / 4096) is None);
    }
}

/// A window that was set up in a bare address space stands there.
proof fn lemma_window_at(k: &Kernel, k1: &Kernel, root: int, code: Seq<u8>, p: [u64; 3])
    requires
        k.wf(),
        accounts::bare(k, root),
        code.len() <= 4096,
        window::window_stands(
            &k.pg.mem,
            &k.fa,
            &k1.pg.mem,
            &k1.fa,
            root,
            &window::ipc_window(),
            p,
        ),
        window::loaded(k1.pg.mem.words@, p, code, 0, Seq::empty(), true),
    ensures
        window_at(k1, root, code, p),
{
    reveal(window_at);
    frames::lemma_pool(&k.fa);
    assert(!frames::used(k.fa.map@, p@[0] as int / 4096));
    assert(!frames::used(k.fa.map@, p@[1] as int / 4096));
    assert(!frames::used(k.fa.map@, p@[2] as int / 4096));
}

/// A window stays while another process is edited.
proof fn lemma_window_kept(
    k: &Kernel,
    k1: &Kernel,
    root: int,
    other: int,
    code: Seq<u8>,
    p: [u64; 3],
)
    requires
        k.wf(),
        window_at(k, root, code, p),
        root != other,
        pairs::root_step(k, k1, other),
        paging::data_kept(&k.pg.mem, &k.fa, &k1.pg.mem),
        views::process_root(&k.pg.mem, k.pg.kernel_root as int, root),
    ensures
        window_at(k1, root, code, p),
{
    reveal(window_at);
    drills::lemma_spare_kept(k, k1, other, p@[0] as int);
    drills::lemma_spare_kept(k, k1, other, p@[1] as int);
    drills::lemma_spare_kept(k, k1, other, p@[2] as int);
    pairs::lemma_other_untouched(k, k1, other, root);
    assert forall|v: int| 0 <= v < USER_PAGES implies #[trigger] paging::leaf(
        k1.pg.mem.words@,
        root,
        v,
    ) == paging::leaf(k.pg.mem.words@, root, v) by {
        assert(paging::owner_of(k.pg.mem.seats@[root], v) != other);
    }
    assert forall|i: int|
        0 <= i < 4096 && window::code_page_byte(code, 0, Seq::empty(), i) is Some implies #[trigger] elf::mem_byte(
        k1.pg.mem.words@,
        p@[0] + i,
    ) == window::code_page_byte(code, 0, Seq::empty(), i)->0 by {
        drills::lemma_byte_beside(k, k1, p@[0] as int, i);
        assert(elf::mem_byte(k.pg.mem.words@, p@[0] + i) == window::code_page_byte(
            code,
            0,
            Seq::empty(),
            i,
        )->0);
    }
    assert forall|i: int| 0 <= i < 4096 implies #[trigger] elf::mem_byte(
        k1.pg.mem.words@,
        p@[1] + i,
    ) == 0 by {
        drills::lemma_byte_beside(k, k1, p@[1] as int, i);
        assert(elf::mem_byte(k.pg.mem.words@, p@[1] + i) == 0);
    }
    assert forall|i: int| 0 <= i < 4096 implies #[trigger] elf::mem_byte(
        k1.pg.mem.words@,
        p@[2] + i,
    ) == 0 by {
        drills::lemma_byte_beside(k, k1, p@[2] as int, i);
        assert(elf::mem_byte(k.pg.mem.words@, p@[2] + i) == 0);
    }
}

/// A window stays when another frame is taken, or capabilities change.
proof fn lemma_window_taken(k: &Kernel, k1: &Kernel, root: int, code: Seq<u8>, p: [u64; 3])
    requires
        window_at(k, root, code, p),
        k1.pg == k.pg,
        k1.fa.same_pool(&k.fa),
        forall|j: int|
            0 <= j < frames::FRAME_COUNT && #[trigger] frames::used(k.fa.map@, j) ==> frames::used(
                k1.fa.map@,
                j,
            ),
    ensures
        window_at(k1, root, code, p),
{
    reveal(window_at);
    drills::lemma_spare_taken(k, k1, p@[0] as int);
    drills::lemma_spare_taken(k, k1, p@[1] as int);
    drills::lemma_spare_taken(k, k1, p@[2] as int);
}

/// Give the first of two processes, which is bare, its pages and its code.
#[verifier::spinoff_prover]
#[verifier::rlimit(60)]
fn window_beside(
    k: &mut Kernel,
    pa: u64,
    pb: u64,
    code: &[u8],
    Ghost(k0): Ghost<Kernel>,
    Ghost(extra): Ghost<Set<int>>,
) -> (r: Result<[u64; 3], &'static str>)
    requires
        k0.wf(),
        pairs::pair_up(&k0, old(k), pa, pb, extra),
        rest::kept(&k0, old(k)),
        accounts::bare(old(k), accounts::root_of(old(k), pa)),
        code@.len() <= 4096,
    ensures
        final(k).wf(),
        final(k).procs == old(k).procs,
        rest::kept(&k0, final(k)),
        ({
            let n = old(k).fa.available();
            let ra = accounts::root_of(old(k), pa);
            if n < 3 {
                r == Err::<[u64; 3], &'static str>(window::ipc_refusals().frames)
            } else if n < 6 {
                r == Err::<[u64; 3], &'static str>(window::ipc_refusals().code)
            } else {
                &&& r matches Ok(p) && window_at(final(k), ra, code@, p)
                &&& pairs::pair_up(&k0, final(k), pa, pb, extra)
                &&& final(k).fa.available() == n - 6
                &&& accounts::bare(old(k), accounts::root_of(old(k), pb)) ==> accounts::bare(
                    final(k),
                    accounts::root_of(old(k), pb),
                )
                &&& forall|c: Seq<u8>, q: [u64; 3]| #[trigger]
                    window_at(old(k), accounts::root_of(old(k), pb), c, q) ==> window_at(
                        final(k),
                        accounts::root_of(old(k), pb),
                        c,
                        q,
                    )
            }
        }),
{
    let ghost k1 = *k;
    let ghost ra = accounts::root_of(&k1, pa);
    proof {
        pairs::lemma_pair_facts(&k0, k, pa, pb, extra);
        proc::lemma_find_bounds(k1.procs.slots@, pa);
        accounts::lemma_bare_missing(&k1, ra, 0x510);
    }
    let root: u64 = match proc::pml4_of(&k.procs, pa) {
        None => {
            return Err("process lost its pml4");
        },
        Some(x) => x,
    };
    let r = window::ipc_proc_setup(k, root, code);
    proof {
        rest::lemma_set_up(
            &k1,
            k,
            ra,
            &window::ipc_window(),
            &window::ipc_refusals(),
            code@,
            0,
            Seq::empty(),
            true,
            r,
        );
        pairs::lemma_pair_new(&k0, &k1, pa, pb, extra);
        rest::lemma_mine(&k0, &k1, k, ra);
        if let Ok(p) = r {
            let w = window::ipc_window();
            assert(window::window_added(&k1, k, ra, &w, p));
            window::law_window_is_charged(k1, *k, ra, w, p);
            assert(pairs::root_step(&k1, k, ra)) by {
                assert forall|q: int, v: int|
                    #![trigger paging::leaf(k.pg.mem.words@, q, v)]
                    paging::is_root(k1.pg.mem.seats@, q) && 0 <= v < paging::PAGES
                        && paging::owner_of(k1.pg.mem.seats@[q], v) != ra implies paging::leaf(
                    k.pg.mem.words@,
                    q,
                    v,
                ) == paging::leaf(k1.pg.mem.words@, q, v) by {}
            }
            pairs::lemma_pair_charge(&k0, &k1, k, pa, pb, extra);
            lemma_window_at(&k1, k, ra, code@, p);
            let rb = accounts::root_of(&k1, pb);
            if accounts::bare(&k1, rb) {
                drills::lemma_bare_beside(&k1, k, ra, rb);
            }
            assert forall|c: Seq<u8>, q: [u64; 3]| #[trigger]
                window_at(&k1, rb, c, q) implies window_at(k, rb, c, q) by {
                lemma_window_kept(&k1, k, rb, ra, c, q);
            }
        }
    }
    r
}

/// What the demonstration of messages has in hand.
#[derive(Clone, Copy, Debug)]
pub struct EchoDemo {
    pub srv: u64,
    pub cli: u64,
    pub eid: u32,
    pub nid: u32,
    /// The frame whose capability is sent.
    pub frame: u64,
    /// The free frames before anything was taken.
    pub baseline: u64,
}

/// The server's capabilities: it receives, and it notifies.
pub open spec fn server_space(eid: u32, nid: u32) -> Seq<Cap> {
    m3::blank_space().update(0, Cap { obj: CapObj::Endpoint { eid }, rights: 1 }).update(
        1,
        Cap { obj: CapObj::Notification { nid }, rights: 2 },
    )
}

/// The client's capabilities: it calls, it waits, and it has a frame to send.
pub open spec fn client_space(eid: u32, nid: u32, frame: u64) -> Seq<Cap> {
    m3::blank_space().update(0, Cap { obj: CapObj::Endpoint { eid }, rights: 2 }).update(
        1,
        Cap { obj: CapObj::Notification { nid }, rights: 1 },
    ).update(2, Cap { obj: CapObj::Memory { phys: frame, pages: 1 }, rights: 5 })
}

/// Give server and client their capabilities.
#[verifier::spinoff_prover]
#[verifier::rlimit(40)]
fn echo_grants(t: &mut ProcTable, srv: u64, cli: u64, eid: u32, nid: u32, frame: u64) -> (r: Result<
    (),
    &'static str,
>)
    requires
        old(t).wf(),
        srv != cli,
        cap::slots_of(old(t), srv) == Some(m3::blank_space()),
        cap::slots_of(old(t), cli) == Some(m3::blank_space()),
    ensures
        r is Ok,
        final(t).wf(),
        m3::only_caps(old(t), final(t)),
        cap::slots_of(final(t), srv) == Some(server_space(eid, nid)),
        cap::slots_of(final(t), cli) == Some(client_space(eid, nid, frame)),
        m3::other_caps(old(t), final(t), srv, cli),
{
    let ghost t0 = *t;
    let ghost s0 = m3::blank_space();
    proof {
        m3::lemma_rights();
        assert(s0[0].obj is Empty && s0[1].obj is Empty && s0[2].obj is Empty);
    }
    let ep_r: Cap = Cap { obj: CapObj::Endpoint { eid }, rights: RIGHTS_READ };
    let nf_w: Cap = Cap { obj: CapObj::Notification { nid }, rights: RIGHTS_WRITE };
    let ep_w: Cap = Cap { obj: CapObj::Endpoint { eid }, rights: RIGHTS_WRITE };
    let nf_r: Cap = Cap { obj: CapObj::Notification { nid }, rights: RIGHTS_READ };
    let mem: Cap = Cap {
        obj: CapObj::Memory { phys: frame, pages: 1 },
        rights: RIGHTS_READ | RIGHTS_COPY,
    };
    let s_ep: usize = match drills::grant_next(t, srv, ep_r, Ghost(0)) {
        Err(_) => {
            return Err("server endpoint grant failed");
        },
        Ok(s) => s,
    };
    let ghost t1 = *t;
    assert(cap::first_empty(s0.update(0, ep_r), 1));
    let s_nf: usize = match drills::grant_next(t, srv, nf_w, Ghost(1)) {
        Err(_) => {
            return Err("server notification grant failed");
        },
        Ok(s) => s,
    };
    let ghost t2 = *t;
    assert(cap::slots_of(&t2, cli) == Some(s0));
    let c_ep: usize = match drills::grant_next(t, cli, ep_w, Ghost(0)) {
        Err(_) => {
            return Err("client endpoint grant failed");
        },
        Ok(s) => s,
    };
    let ghost t3 = *t;
    assert(cap::first_empty(s0.update(0, ep_w), 1));
    let c_nf: usize = match drills::grant_next(t, cli, nf_r, Ghost(1)) {
        Err(_) => {
            return Err("client notification grant failed");
        },
        Ok(s) => s,
    };
    let ghost t4 = *t;
    assert(cap::first_empty(s0.update(0, ep_w).update(1, nf_r), 2)) by {
        let s = s0.update(0, ep_w).update(1, nf_r);
        assert(s[0] == ep_w && s[1] == nf_r);
    }
    let c_mem: usize = match drills::grant_next(t, cli, mem, Ghost(2)) {
        Err(_) => {
            return Err("client memory grant failed");
        },
        Ok(s) => s,
    };
    if s_ep != 0 || s_nf != 1 || c_ep != 0 || c_nf != 1 || c_mem != 2 {
        return Err("cap slots did not fill in the order the payloads spell");
    }
    proof {
        drills::lemma_caps_then(&t0, &t1, &t2);
        drills::lemma_caps_then(&t0, &t2, &t3);
        drills::lemma_caps_then(&t0, &t3, &t4);
        drills::lemma_caps_then(&t0, &t4, t);
    }
    Ok(())
}

/// No endpoint is free.
pub open spec fn endpoints_full(i: &Ipc) -> bool {
    forall|j: int| 0 <= j < ipc::MAX_ENDPOINTS ==> (#[trigger] i.eps@[j]).live
}

/// No notification is free.
pub open spec fn notifs_full(i: &Ipc) -> bool {
    forall|j: int| 0 <= j < ipc::MAX_NOTIFS ==> (#[trigger] i.notifs@[j]).live
}

/// What putting the demonstration of messages in place comes to.
pub open spec fn echo_answer(k: &Kernel, i: &Ipc) -> Result<(), &'static str> {
    let n = k.fa.available();
    match m3::two_and(k, 0, "") {
        Err(e) => Err(e),
        Ok(_) => if n < 5 {
            Err(window::ipc_refusals().frames)
        } else if n < 8 {
            Err(window::ipc_refusals().code)
        } else if n < 11 {
            Err(window::ipc_refusals().frames)
        } else if n < 14 {
            Err(window::ipc_refusals().code)
        } else if endpoints_full(i) {
            Err("endpoint table full")
        } else if notifs_full(i) {
            Err("notification table full")
        } else if n < 15 {
            Err("no frame for the transfer cap")
        } else {
            Ok(())
        },
    }
}

/// The frame that stands beside the two processes.
pub open spec fn beside(d: EchoDemo) -> Set<int> {
    Set::empty().insert(d.frame as int / 4096)
}

/// Server and client stand with their windows and their capabilities, the
/// endpoint and the notification are live and idle, and a frame lies beside.
pub open spec fn echo_stands(k0: &Kernel, i0: &Ipc, k: &Kernel, i: &Ipc, d: EchoDemo) -> bool {
    &&& pairs::pair_up(k0, k, d.srv, d.cli, beside(d))
    &&& drills::spare(k, d.frame as int)
    &&& cap::slots_of(&k.procs, d.srv) == Some(server_space(d.eid, d.nid))
    &&& cap::slots_of(&k.procs, d.cli) == Some(client_space(d.eid, d.nid, d.frame))
    &&& proc::entered(&k.procs, d.srv, "ipcServer")
    &&& proc::entered(&k.procs, d.cli, "ipcClient")
    &&& windows_in(k, d.srv, d.cli)
    &&& ipc::first_free_ep(i0.eps@, d.eid as int)
    &&& ipc::first_free_notif(i0.notifs@, d.nid as int)
    &&& i.eps@ == i0.eps@.update(d.eid as int, i.eps@[d.eid as int])
    &&& i.eps@[d.eid as int].live
    &&& ipc::ep_idle(i.eps@[d.eid as int])
    &&& i.notifs@ == i0.notifs@.update(
        d.nid as int,
        ipc::Notif { live: true, pending: 0, waiter: ipc::NO_TID },
    )
    &&& i.stats == i0.stats
    &&& d.baseline == k0.fa.free
    &&& k.fa.available() == k0.fa.available() - 15
}

/// Server and client have their windows: code, data and stack.
#[verifier::opaque]
pub open spec fn windows_in(k: &Kernel, srv: u64, cli: u64) -> bool {
    &&& exists|p: [u64; 3]| #[trigger]
        window_at(k, accounts::root_of(k, srv), payloads::server_code(), p)
    &&& exists|p: [u64; 3]| #[trigger]
        window_at(k, accounts::root_of(k, cli), payloads::client_code(), p)
}

proof fn lemma_windows_taken(k: &Kernel, k1: &Kernel, srv: u64, cli: u64)
    requires
        windows_in(k, srv, cli),
        k1.pg == k.pg,
        k1.fa.same_pool(&k.fa),
        accounts::root_of(k1, srv) == accounts::root_of(k, srv),
        accounts::root_of(k1, cli) == accounts::root_of(k, cli),
        forall|j: int|
            0 <= j < frames::FRAME_COUNT && #[trigger] frames::used(k.fa.map@, j) ==> frames::used(
                k1.fa.map@,
                j,
            ),
    ensures
        windows_in(k1, srv, cli),
{
    reveal(windows_in);
    let rs = accounts::root_of(k, srv);
    let rc = accounts::root_of(k, cli);
    let ps = choose|p: [u64; 3]| #[trigger] window_at(k, rs, payloads::server_code(), p);
    let pc = choose|p: [u64; 3]| #[trigger] window_at(k, rc, payloads::client_code(), p);
    lemma_window_taken(k, k1, rs, payloads::server_code(), ps);
    lemma_window_taken(k, k1, rc, payloads::client_code(), pc);
}

/// Give server and client, which are bare, their windows.
#[verifier::spinoff_prover]
#[verifier::rlimit(40)]
fn echo_windows(k: &mut Kernel, srv: u64, cli: u64, Ghost(k0): Ghost<Kernel>) -> (r: Result<
    (),
    &'static str,
>)
    requires
        k0.wf(),
        pairs::pair_up(&k0, old(k), srv, cli, Set::empty()),
        rest::kept(&k0, old(k)),
        accounts::bare(old(k), accounts::root_of(old(k), srv)),
        accounts::bare(old(k), accounts::root_of(old(k), cli)),
    ensures
        final(k).wf(),
        final(k).procs == old(k).procs,
        rest::kept(&k0, final(k)),
        ({
            let n = old(k).fa.available();
            if n < 3 || 6 <= n < 9 {
                r == Err::<(), &'static str>(window::ipc_refusals().frames)
            } else if n < 12 {
                r == Err::<(), &'static str>(window::ipc_refusals().code)
            } else {
                &&& r is Ok
                &&& pairs::pair_up(&k0, final(k), srv, cli, Set::empty())
                &&& windows_in(final(k), srv, cli)
                &&& final(k).fa.available() == n - 12
            }
        }),
{
    let ghost none = Set::<int>::empty();
    let ghost k2 = *k;
    let ghost rs = accounts::root_of(&k2, srv);
    let server: Vec<u8> = build_ipc_server();
    let client: Vec<u8> = build_ipc_client();
    let ps: [u64; 3] = match window_beside(
        k,
        srv,
        cli,
        server.as_slice(),
        Ghost(k0),
        Ghost(none),
    ) {
        Err(e) => {
            return Err(e);
        },
        Ok(p) => p,
    };
    let ghost k3 = *k;
    proof {
        pairs::lemma_pair_swap(&k0, &k3, srv, cli, none);
    }
    let pc: [u64; 3] = match window_beside(
        k,
        cli,
        srv,
        client.as_slice(),
        Ghost(k0),
        Ghost(none),
    ) {
        Err(e) => {
            return Err(e);
        },
        Ok(p) => p,
    };
    proof {
        pairs::lemma_pair_swap(&k0, k, cli, srv, none);
        assert(window_at(&k3, rs, payloads::server_code(), ps));
        assert(accounts::root_of(k, srv) == rs);
        assert(accounts::root_of(k, cli) == accounts::root_of(&k3, cli));
        assert(window_at(k, accounts::root_of(k, srv), payloads::server_code(), ps));
        assert(window_at(k, accounts::root_of(k, cli), payloads::client_code(), pc));
        assert(windows_in(k, srv, cli)) by {
            reveal(windows_in);
        }
    }
    Ok(())
}

/// The endpoints and notifications that lived stand as they were, and nothing
/// was counted.
pub open spec fn ipc_kept(pre: &Ipc, post: &Ipc) -> bool {
    &&& post.stats == pre.stats
    &&& post.eps@.len() == pre.eps@.len()
    &&& post.notifs@.len() == pre.notifs@.len()
    &&& forall|j: int|
        0 <= j < pre.eps@.len() && pre.eps@[j].live ==> #[trigger] post.eps@[j] == pre.eps@[j]
    &&& forall|j: int|
        0 <= j < pre.notifs@.len() && pre.notifs@[j].live ==> #[trigger] post.notifs@[j]
            == pre.notifs@[j]
}

/// Put the demonstration of messages in place: a server and a client with
/// their windows, an endpoint and a notification between them, and a frame whose
/// capability the client sends.
#[verifier::spinoff_prover]
#[verifier::rlimit(60)]
pub fn ipc_echo_open(k: &mut Kernel, i: &mut Ipc) -> (r: Result<EchoDemo, &'static str>)
    requires
        old(k).wf(),
        old(k).procs.next_pid < u64::MAX - 1,
        m3::live_root_stands(old(k)),
        old(i).wf(),
    ensures
        final(k).wf(),
        proc::kept(&old(k).procs, &final(k).procs),
        rest::kept(old(k), final(k)),
        r is Ok ==> final(k).procs.next_pid == old(k).procs.next_pid + 2,
        match echo_answer(old(k), old(i)) {
            Err(e) => r == Err::<EchoDemo, &'static str>(e),
            Ok(_) => r matches Ok(d) && echo_stands(old(k), old(i), final(k), final(i), d),
        },
        final(i).wf(),
        ipc_kept(old(i), final(i)),
{
    let ghost k0 = *k;
    let ghost i0 = *i;
    let baseline: u64 = frames::free_frames(&k.fa);
    let (srv, cli) = match pairs::open_pair(k, "ipcServer", "ipcClient") {
        Err(e) => {
            return Err(e);
        },
        Ok(p) => p,
    };
    let ghost k2 = *k;
    let ghost none = Set::<int>::empty();
    proof {
        pairs::lemma_pair_up(&k0, &k2, srv, cli);
    }
    match echo_windows(k, srv, cli, Ghost(k0)) {
        Err(e) => {
            return Err(e);
        },
        Ok(_) => {},
    }
    let ghost k3 = *k;
    let eid: u32 = match ipc::create_endpoint(i) {
        Err(_) => {
            return Err("endpoint table full");
        },
        Ok(e) => e,
    };
    proof {
        assert(!i0.eps@[eid as int].live);
    }
    let ghost i1 = *i;
    let nid: u32 = match ipc::create_notification(i) {
        Err(_) => {
            return Err("notification table full");
        },
        Ok(n) => n,
    };
    proof {
        assert(!i0.notifs@[nid as int].live);
        assert forall|j: int| 0 <= j < ipc::QUEUE_DEPTH implies (#[trigger] i.eps@[eid as int].q@[j]).state
            == ipc::SlotState::Empty by {
            assert(ipc::blank(i1.eps@[eid as int].q@[j]));
        }
    }
    let frame: u64 = match drills::take_beside(k, srv, cli, Ghost(k0), Ghost(none)) {
        None => {
            return Err("no frame for the transfer cap");
        },
        Some(f) => f,
    };
    let ghost k4 = *k;
    let ghost one = none.insert(frame as int / 4096);
    proof {
        pairs::lemma_pair_facts(&k0, &k4, srv, cli, one);
        lemma_windows_taken(&k3, &k4, srv, cli);
    }
    match echo_grants(&mut k.procs, srv, cli, eid, nid, frame) {
        Err(e) => {
            return Err(e);
        },
        Ok(_) => {},
    }
    proof {
        pairs::lemma_pair_caps(&k0, &k4, k, srv, cli, one);
        m3::lemma_entered_caps(&k4.procs, &k.procs, srv, "ipcServer");
        m3::lemma_entered_caps(&k4.procs, &k.procs, cli, "ipcClient");
        pairs::lemma_pair_kept(&k0, k, srv, cli, one);
        rest::lemma_same(&k4, k);
        rest::lemma_kept_kept(&k0, &k4, k);
        lemma_windows_taken(&k4, k, srv, cli);
    }
    Ok(EchoDemo { srv, cli, eid, nid, frame, baseline })
}

/// What is wrong with the capabilities after the exchange: the server has the
/// one that was sent, and the client has kept it.
pub open spec fn sent_fault(t: &ProcTable, d: EchoDemo) -> Option<&'static str> {
    match cap::read_answer(t, d.srv, 2) {
        Err(_) => Some("no cap landed in the server's space"),
        Ok(landed) => if landed.obj != (CapObj::Memory { phys: d.frame, pages: 1 }) {
            Some("the landed cap is not the client's Memory cap")
        } else if landed.rights != RIGHTS_READ | RIGHTS_COPY {
            Some("the transferred cap's rights changed in flight")
        } else {
            match cap::read_answer(t, d.cli, 2) {
                Err(_) => Some("the sender LOST its original cap (move, not copy)"),
                Ok(kept) => if !(kept.obj is Memory) {
                    Some("the sender's slot no longer holds the Memory cap")
                } else {
                    None
                },
            }
        },
    }
}

fn check_sent(t: &ProcTable, d: &EchoDemo) -> (r: Option<&'static str>)
    requires
        t.wf(),
    ensures
        r == sent_fault(t, *d),
{
    match cap::read(t, d.srv, 2) {
        Err(_) => {
            return Some("no cap landed in the server's space");
        },
        Ok(landed) => {
            match landed.obj {
                CapObj::Memory { phys, pages } => {
                    if phys != d.frame || pages != 1 {
                        return Some("the landed cap is not the client's Memory cap");
                    }
                },
                _ => {
                    return Some("the landed cap is not the client's Memory cap");
                },
            }
            if landed.rights != RIGHTS_READ | RIGHTS_COPY {
                return Some("the transferred cap's rights changed in flight");
            }
        },
    }
    match cap::read(t, d.cli, 2) {
        Err(_) => Some("the sender LOST its original cap (move, not copy)"),
        Ok(kept) => match kept.obj {
            CapObj::Memory { phys: _, pages: _ } => None,
            _ => Some("the sender's slot no longer holds the Memory cap"),
        },
    }
}

/// What is wrong with what the exchange left behind.
pub open spec fn echo_fault(t: &ProcTable, i: &Ipc, d: EchoDemo) -> Option<&'static str> {
    match sent_fault(t, d) {
        Some(e) => Some(e),
        None => if !ipc::ep_live(i, d.eid) || !ipc::ep_idle(i.eps@[d.eid as int]) {
            Some("endpoint teardown refused (state left behind?)")
        } else if !ipc::notif_live(i, d.nid) || i.notifs@[d.nid as int].waiter != ipc::NO_TID {
            Some("notification teardown refused")
        } else {
            None
        },
    }
}

/// The pair goes back to `b`, with the demonstration's frame beside it.
pub open spec fn goes_back_to(b: &Kernel, k: &Kernel, d: EchoDemo) -> bool {
    b.wf() && pairs::pair_up(b, k, d.srv, d.cli, beside(d))
}

/// Check what the exchange left behind and take everything away: the
/// endpoint, the notification, the two processes and the frame.
#[verifier::spinoff_prover]
#[verifier::rlimit(60)]
pub fn ipc_echo_close(k: &mut Kernel, i: &mut Ipc, d: &EchoDemo) -> (r: Result<(), &'static str>)
    requires
        exists|b: Kernel| #[trigger] goes_back_to(&b, old(k), *d),
        drills::spare(old(k), d.frame as int),
        old(i).wf(),
    ensures
        final(i).wf(),
        final(i).stats == old(i).stats,
        final(i).eps@ == (if sent_fault(&old(k).procs, *d) is None && ipc::ep_live(old(i), d.eid)
            && ipc::ep_idle(old(i).eps@[d.eid as int]) {
            old(i).eps@.update(
                d.eid as int,
                ipc::Endpoint { live: false, ..old(i).eps@[d.eid as int] },
            )
        } else {
            old(i).eps@
        }),
        match echo_fault(&old(k).procs, old(i), *d) {
            Some(e) => {
                &&& r == Err::<(), &'static str>(e)
                &&& *final(k) == *old(k)
                &&& final(i).notifs == old(i).notifs
            },
            None => {
                &&& final(k).wf()
                &&& final(i).notifs@ == old(i).notifs@.update(
                    d.nid as int,
                    ipc::Notif { live: false, pending: 0, waiter: ipc::NO_TID },
                )
                &&& forall|b: Kernel| #[trigger]
                    goes_back_to(&b, old(k), *d) ==> accounts::same_frames(&b.fa, &final(k).fa)
                        && m3::same_processes(&b.procs, &final(k).procs)
                &&& r is Ok <==> final(k).fa.free == d.baseline
                &&& r matches Err(e) ==> e == "ipc demo teardown is not frame-exact"
                &&& final(k).procs.next_pid == old(k).procs.next_pid
                &&& final(k).procs.created == old(k).procs.created
                &&& rest::kept_but(
                    old(k),
                    final(k),
                    pairs::both_roots(old(k), d.srv, d.cli),
                    rest::free_in(final(k)),
                )
            },
        },
{
    let ghost k1 = *k;
    let ghost b = choose|b: Kernel| #[trigger] goes_back_to(&b, k, *d);
    let ghost one = beside(*d);
    proof {
        pairs::lemma_pair_facts(&b, k, d.srv, d.cli, one);
    }
    match check_sent(&k.procs, d) {
        Some(e) => {
            return Err(e);
        },
        None => {},
    }
    match ipc::destroy_endpoint(i, d.eid) {
        Err(_) => {
            return Err("endpoint teardown refused (state left behind?)");
        },
        Ok(_) => {},
    }
    match ipc::destroy_notification(i, d.nid) {
        Err(_) => {
            return Err("notification teardown refused");
        },
        Ok(_) => {},
    }
    match pairs::drop_pair(k, d.srv, d.cli, Ghost(b), Ghost(one)) {
        Err(e) => {
            return Err(e);
        },
        Ok(_) => {},
    }
    let ghost k2 = *k;
    let ghost c = d.frame as int / 4096;
    proof {
        assert(c * 4096 == d.frame);
        assert(one.contains(c));
        assert(frames::used(k2.fa.map@, c) == (frames::used(b.fa.map@, c) || one.contains(c)));
        assert(!k2.pg.mem.seats@.dom().contains(d.frame as int));
    }
    match frames::free(&mut k.fa, d.frame) {
        Err(_) => {
            return Err("transfer frame free rejected");
        },
        Ok(_) => {},
    }
    proof {
        m3::lemma_kernel_gave(&k2, k, d.frame as int);
        rest::lemma_gave(&k2, k, d.frame as int);
        rest::lemma_join(
            &k1,
            &k2,
            k,
            pairs::both_roots(&k1, d.srv, d.cli),
            rest::free_in(&k2),
            Set::empty(),
            Set::empty().insert(c),
            pairs::both_roots(&k1, d.srv, d.cli),
            rest::free_in(k),
        );
        assert forall|q: Kernel| #[trigger] goes_back_to(&q, &k1, *d) implies accounts::same_frames(
            &q.fa,
            &k.fa,
        ) && m3::same_processes(&q.procs, &k.procs) by {
            lemma_frame_back(&q, &k1, &k2, k, d.srv, d.cli, c);
        }
    }
    if frames::free_frames(&k.fa) != d.baseline {
        return Err("ipc demo teardown is not frame-exact");
    }
    Ok(())
}

/// Giving back the frame beside the pair leaves the pool as it was.
proof fn lemma_frame_back(q: &Kernel, k1: &Kernel, k2: &Kernel, k3: &Kernel, pa: u64, pb: u64, c: int)
    requires
        0 <= c < frames::FRAME_COUNT,
        pairs::pair_up(q, k1, pa, pb, Set::empty().insert(c)),
        pairs::left_over(q, k2, Set::empty().insert(c)),
        k3.procs == k2.procs,
        k3.fa.same_pool(&k2.fa),
        frames::gave_back(&k2.fa, &k3.fa, c * 4096),
    ensures
        accounts::same_frames(&q.fa, &k3.fa),
        m3::same_processes(&q.procs, &k3.procs),
{
    reveal(pairs::pair_up);
    pairs::lemma_split_at(
        &q.fa,
        Set::empty().insert(c),
        k1,
        accounts::root_of(k1, pa),
        accounts::root_of(k1, pb),
        c,
    );
    assert(!frames::used(q.fa.map@, c));
    assert forall|j: int| 0 <= j < frames::FRAME_COUNT implies #[trigger] frames::used(
        k3.fa.map@,
        j,
    ) == frames::used(q.fa.map@, j) by {
        assert(frames::used(k2.fa.map@, j) == (frames::used(q.fa.map@, j)
            || Set::empty().insert(c).contains(j)));
    }
    accounts::lemma_same_count(k3.fa.map@, q.fa.map@, frames::FRAME_COUNT as int);
}

/// The demonstration can be taken away as it was put in place, and then the
/// pool is as it was: what `ipc_echo_open` leaves, `ipc_echo_close` accepts.
pub proof fn law_echo_closes(k0: Kernel, i0: Ipc, k: Kernel, i: Ipc, d: EchoDemo)
    requires
        k0.wf(),
        echo_stands(&k0, &i0, &k, &i, d),
    ensures
        goes_back_to(&k0, &k, d),
        drills::spare(&k, d.frame as int),
{
}

/// After the demonstration was put in place and taken away again, all that
/// there was is as it was: address spaces, memory and pool.
pub proof fn law_echo_leaves_the_rest(k0: Kernel, i0: Ipc, k1: Kernel, i1: Ipc, d: EchoDemo, k2: Kernel)
    requires
        k0.wf(),
        echo_stands(&k0, &i0, &k1, &i1, d),
        rest::kept(&k0, &k1),
        rest::kept_but(
            &k1,
            &k2,
            pairs::both_roots(&k1, d.srv, d.cli),
            rest::free_in(&k2),
        ),
        accounts::same_frames(&k0.fa, &k2.fa),
    ensures
        rest::kept(&k0, &k2),
{
    pairs::lemma_pair_rest(&k0, &k1, &k2, d.srv, d.cli, beside(d));
}

/// After a process by itself was put in place and taken away again, all that
/// there was is as it was: address spaces, memory and pool.
pub proof fn law_process_leaves_the_rest(k0: Kernel, k1: Kernel, pid: u64, extra: Set<int>, k2: Kernel)
    requires
        k0.wf(),
        solo::solo_up(&k0, &k1, pid, extra),
        rest::kept(&k0, &k1),
        rest::kept_but(
            &k1,
            &k2,
            Set::empty().insert(accounts::root_of(&k1, pid)),
            rest::free_in(&k2),
        ),
        accounts::same_frames(&k0.fa, &k2.fa),
    ensures
        rest::kept(&k0, &k2),
{
    solo::lemma_solo_new(&k0, &k1, pid, extra);
    rest::lemma_gone(&k0, &k1, &k2, accounts::root_of(&k1, pid));
}

/// Take a frame while a process stands. None if none is left.
fn take_solo(k: &mut Kernel, pid: u64, Ghost(k0): Ghost<Kernel>, Ghost(extra): Ghost<Set<int>>) -> (r:
    Option<u64>)
    requires
        solo::solo_up(&k0, old(k), pid, extra),
        rest::kept(&k0, old(k)),
    ensures
        final(k).wf(),
        final(k).pg == old(k).pg,
        final(k).procs == old(k).procs,
        rest::kept(&k0, final(k)),
        r is None <==> old(k).fa.available() == 0,
        r is None ==> *final(k) == *old(k),
        r matches Some(f) ==> {
            &&& solo::solo_up(&k0, final(k), pid, extra.insert(f as int / 4096))
            &&& drills::spare(final(k), f as int)
            &&& !old(k).fa.in_use(f as int)
            &&& !frames::used(k0.fa.map@, f as int / 4096)
            &&& final(k).fa.same_pool(&old(k).fa)
            &&& forall|j: int|
                0 <= j < frames::FRAME_COUNT && #[trigger] frames::used(old(k).fa.map@, j)
                    ==> frames::used(final(k).fa.map@, j)
            &&& final(k).fa.available() == old(k).fa.available() - 1
            &&& final(k).fa.free == old(k).fa.free - 1
        },
{
    proof {
        solo::lemma_solo_facts(&k0, k, pid, extra);
    }
    let ghost k1 = *k;
    let r = frames::alloc_frame(&mut k.fa);
    proof {
        if let Some(f) = r {
            assert(!frames::used(k1.fa.map@, f as int / 4096));
            drills::lemma_kernel_took(&k1, k, f as int);
            solo::lemma_solo_extra(&k0, &k1, k, pid, extra, f as int);
            rest::lemma_was_free(&k0, &k1, f as int / 4096);
            rest::lemma_took(&k1, k);
            rest::lemma_kept_kept(&k0, &k1, k);
        }
    }
    r
}

/// Give a process, which is bare, its pages and its code.
#[verifier::spinoff_prover]
#[verifier::rlimit(60)]
fn window_solo(
    k: &mut Kernel,
    pid: u64,
    code: &[u8],
    Ghost(k0): Ghost<Kernel>,
    Ghost(extra): Ghost<Set<int>>,
) -> (r: Result<[u64; 3], &'static str>)
    requires
        k0.wf(),
        solo::solo_up(&k0, old(k), pid, extra),
        rest::kept(&k0, old(k)),
        accounts::bare(old(k), accounts::root_of(old(k), pid)),
        code@.len() <= 4096,
    ensures
        final(k).wf(),
        final(k).procs == old(k).procs,
        rest::kept(&k0, final(k)),
        ({
            let n = old(k).fa.available();
            let root = accounts::root_of(old(k), pid);
            if n < 3 {
                r == Err::<[u64; 3], &'static str>(window::ipc_refusals().frames)
            } else if n < 6 {
                r == Err::<[u64; 3], &'static str>(window::ipc_refusals().code)
            } else {
                &&& r matches Ok(p) && window_at(final(k), root, code@, p)
                &&& solo::solo_up(&k0, final(k), pid, extra)
                &&& final(k).fa.available() == n - 6
            }
        }),
{
    let ghost k1 = *k;
    let ghost root = accounts::root_of(&k1, pid);
    proof {
        solo::lemma_solo_facts(&k0, k, pid, extra);
        proc::lemma_find_bounds(k1.procs.slots@, pid);
        accounts::lemma_bare_missing(&k1, root, 0x510);
    }
    let at: u64 = match proc::pml4_of(&k.procs, pid) {
        None => {
            return Err("process lost its pml4");
        },
        Some(x) => x,
    };
    let r = window::ipc_proc_setup(k, at, code);
    proof {
        rest::lemma_set_up(
            &k1,
            k,
            root,
            &window::ipc_window(),
            &window::ipc_refusals(),
            code@,
            0,
            Seq::empty(),
            true,
            r,
        );
        solo::lemma_solo_new(&k0, &k1, pid, extra);
        rest::lemma_mine(&k0, &k1, k, root);
        if let Ok(p) = r {
            let w = window::ipc_window();
            assert(window::window_added(&k1, k, root, &w, p));
            window::law_window_is_charged(k1, *k, root, w, p);
            assert(accounts::tidy(&k1, root)) by {
                reveal(solo::solo_up);
            }
            assert(pairs::root_step(&k1, k, root));
            solo::lemma_solo_charge(&k0, &k1, k, pid, extra);
            lemma_window_at(&k1, k, root, code@, p);
        }
    }
    r
}

/// What the restart demonstration has in hand.
#[derive(Clone, Copy, Debug)]
pub struct SpawnDemo {
    pub sup: u64,
    pub nid: u32,
    /// The frame whose capability the children inherit.
    pub frame: u64,
    pub baseline: u64,
}

/// The supervisor's capabilities: the image, its exit notification, and a
/// frame that the children inherit.
pub open spec fn supervisor_space(nid: u32, frame: u64) -> Seq<Cap> {
    m3::blank_space().update(0, Cap { obj: CapObj::Image { img_id: 0 }, rights: 1 }).update(
        1,
        Cap { obj: CapObj::Notification { nid }, rights: 3 },
    ).update(2, Cap { obj: CapObj::Memory { phys: frame, pages: 1 }, rights: 5 })
}

#[verifier::spinoff_prover]
fn supervisor_grants(t: &mut ProcTable, sup: u64, nid: u32, frame: u64) -> (r: Result<
    (),
    &'static str,
>)
    requires
        old(t).wf(),
        cap::slots_of(old(t), sup) == Some(m3::blank_space()),
    ensures
        r is Ok,
        final(t).wf(),
        m3::only_caps(old(t), final(t)),
        cap::slots_of(final(t), sup) == Some(supervisor_space(nid, frame)),
        forall|q: u64|
            q != sup ==> #[trigger] cap::slots_of(final(t), q) == cap::slots_of(old(t), q),
{
    let ghost t0 = *t;
    let ghost s0 = m3::blank_space();
    proof {
        m3::lemma_rights();
        assert(s0[0].obj is Empty && s0[1].obj is Empty && s0[2].obj is Empty);
    }
    let img: Cap = Cap { obj: CapObj::Image { img_id: 0 }, rights: RIGHTS_READ };
    let nf: Cap = Cap {
        obj: CapObj::Notification { nid },
        rights: RIGHTS_READ | RIGHTS_WRITE,
    };
    let mem: Cap = Cap {
        obj: CapObj::Memory { phys: frame, pages: 1 },
        rights: RIGHTS_READ | RIGHTS_COPY,
    };
    let s_img: usize = match drills::grant_next(t, sup, img, Ghost(0)) {
        Err(_) => {
            return Err("image grant failed");
        },
        Ok(s) => s,
    };
    let ghost t1 = *t;
    assert(cap::first_empty(s0.update(0, img), 1));
    let s_nf: usize = match drills::grant_next(t, sup, nf, Ghost(1)) {
        Err(_) => {
            return Err("notification grant failed");
        },
        Ok(s) => s,
    };
    let ghost t2 = *t;
    assert(cap::first_empty(s0.update(0, img).update(1, nf), 2)) by {
        let s = s0.update(0, img).update(1, nf);
        assert(s[0] == img && s[1] == nf);
    }
    let s_mem: usize = match drills::grant_next(t, sup, mem, Ghost(2)) {
        Err(_) => {
            return Err("memory grant failed");
        },
        Ok(s) => s,
    };
    if s_img != 0 || s_nf != 1 || s_mem != 2 {
        return Err("supervisor cap slots did not fill in the order the payload spells");
    }
    proof {
        drills::lemma_caps_then(&t0, &t1, &t2);
        drills::lemma_caps_then(&t0, &t2, t);
    }
    Ok(())
}

/// What putting the restart demonstration in place comes to.
pub open spec fn spawn_answer(k: &Kernel, i: &Ipc) -> Result<(), &'static str> {
    let n = k.fa.available();
    match solo::one_answer(k) {
        Err(e) => Err(e),
        Ok(_) => if n < 4 {
            Err(window::ipc_refusals().frames)
        } else if n < 7 {
            Err(window::ipc_refusals().code)
        } else if notifs_full(i) {
            Err("notification table full")
        } else if n < 8 {
            Err("no frame for the inheritable cap")
        } else {
            Ok(())
        },
    }
}

/// The frame that stands beside the supervisor.
pub open spec fn beside_sup(d: SpawnDemo) -> Set<int> {
    Set::empty().insert(d.frame as int / 4096)
}

/// The supervisor stands with its window and its capabilities.
pub open spec fn spawn_stands(k0: &Kernel, i0: &Ipc, k: &Kernel, i: &Ipc, d: SpawnDemo) -> bool {
    &&& solo::solo_up(k0, k, d.sup, beside_sup(d))
    &&& drills::spare(k, d.frame as int)
    &&& cap::slots_of(&k.procs, d.sup) == Some(supervisor_space(d.nid, d.frame))
    &&& proc::entered(&k.procs, d.sup, "supervisor")
    &&& exists|p: [u64; 3]| #[trigger]
        window_at(k, accounts::root_of(k, d.sup), payloads::supervisor_code(), p)
    &&& ipc::first_free_notif(i0.notifs@, d.nid as int)
    &&& i.eps@ == i0.eps@
    &&& i.notifs@ == i0.notifs@.update(
        d.nid as int,
        ipc::Notif { live: true, pending: 0, waiter: ipc::NO_TID },
    )
    &&& i.stats == i0.stats
    &&& d.baseline == k0.fa.free
    &&& k.fa.available() == k0.fa.available() - 8
}

/// Put the restart demonstration in place: a supervisor with its window, the
/// notification of its children's ends, and a frame for them to inherit.
#[verifier::spinoff_prover]
#[verifier::rlimit(60)]
pub fn spawn_restart_open(k: &mut Kernel, i: &mut Ipc) -> (r: Result<SpawnDemo, &'static str>)
    requires
        old(k).wf(),
        old(k).procs.next_pid < u64::MAX,
        m3::live_root_stands(old(k)),
        old(i).wf(),
    ensures
        final(k).wf(),
        proc::kept(&old(k).procs, &final(k).procs),
        rest::kept(old(k), final(k)),
        r is Ok ==> final(k).procs.next_pid == old(k).procs.next_pid + 1,
        match spawn_answer(old(k), old(i)) {
            Err(e) => r == Err::<SpawnDemo, &'static str>(e),
            Ok(_) => r matches Ok(d) && spawn_stands(old(k), old(i), final(k), final(i), d),
        },
        final(i).wf(),
        ipc_kept(old(i), final(i)),
{
    let ghost k0 = *k;
    let ghost i0 = *i;
    let ghost none = Set::<int>::empty();
    let baseline: u64 = frames::free_frames(&k.fa);
    let sup: u64 = match solo::open_solo(k, "supervisor") {
        Err(e) => {
            return Err(e);
        },
        Ok(p) => p,
    };
    let code: Vec<u8> = build_spawn_supervisor();
    let p: [u64; 3] = match window_solo(k, sup, code.as_slice(), Ghost(k0), Ghost(none)) {
        Err(e) => {
            return Err(e);
        },
        Ok(p) => p,
    };
    let ghost k3 = *k;
    let ghost root = accounts::root_of(&k3, sup);
    let nid: u32 = match ipc::create_notification(i) {
        Err(_) => {
            return Err("notification table full");
        },
        Ok(n) => n,
    };
    assert(!i0.notifs@[nid as int].live);
    let frame: u64 = match take_solo(k, sup, Ghost(k0), Ghost(none)) {
        None => {
            return Err("no frame for the inheritable cap");
        },
        Some(f) => f,
    };
    let ghost k4 = *k;
    let ghost one = none.insert(frame as int / 4096);
    proof {
        solo::lemma_solo_facts(&k0, &k4, sup, one);
        lemma_window_taken(&k3, &k4, root, payloads::supervisor_code(), p);
    }
    match supervisor_grants(&mut k.procs, sup, nid, frame) {
        Err(e) => {
            return Err(e);
        },
        Ok(_) => {},
    }
    proof {
        solo::lemma_solo_caps(&k0, &k4, k, sup, one);
        m3::lemma_entered_caps(&k4.procs, &k.procs, sup, "supervisor");
        solo::lemma_solo_kept(&k0, k, sup, one);
        rest::lemma_same(&k4, k);
        rest::lemma_kept_kept(&k0, &k4, k);
        lemma_window_taken(&k4, k, root, payloads::supervisor_code(), p);
        assert(window_at(k, accounts::root_of(k, sup), payloads::supervisor_code(), p));
    }
    Ok(SpawnDemo { sup, nid, frame, baseline })
}

/// What is wrong with one child: it exited with the image's success code, and
/// it inherited the supervisor's frame with just the rights to read and copy.
pub open spec fn child_fault(t: &ProcTable, s: &Syscalls, d: SpawnDemo, kid: (u64, u64)) -> Option<
    &'static str,
> {
    if syscall::exit_at(s.exits@, kid.1, 0) != Some(42u64) {
        Some("a spawned child did not exit with the image's success code")
    } else {
        match cap::read_answer(t, kid.0, 0) {
            Err(_) => Some("no inherited cap in the child's space"),
            Ok(c) => if c.obj != (CapObj::Memory { phys: d.frame, pages: 1 }) {
                Some("the inherited cap is not the supervisor's Memory cap")
            } else if c.rights != RIGHTS_READ | RIGHTS_COPY {
                Some("inherited rights wrong (want exactly READ|COPY)")
            } else {
                None
            },
        }
    }
}

fn check_child(t: &ProcTable, s: &Syscalls, d: &SpawnDemo, kid: (u64, u64)) -> (r: Option<
    &'static str,
>)
    requires
        t.wf(),
        s.wf(),
    ensures
        r == child_fault(t, s, *d, kid),
{
    match syscall::exit_status_of(s, kid.1) {
        Some(42) => {},
        _ => {
            return Some("a spawned child did not exit with the image's success code");
        },
    }
    match cap::read(t, kid.0, 0) {
        Err(_) => Some("no inherited cap in the child's space"),
        Ok(c) => {
            match c.obj {
                CapObj::Memory { phys, pages } => {
                    if phys != d.frame || pages != 1 {
                        return Some("the inherited cap is not the supervisor's Memory cap");
                    }
                },
                _ => {
                    return Some("the inherited cap is not the supervisor's Memory cap");
                },
            }
            if c.rights != RIGHTS_READ | RIGHTS_COPY {
                Some("inherited rights wrong (want exactly READ|COPY)")
            } else {
                None
            }
        },
    }
}

/// What is wrong with the supervisor's handle to child number `n`.
pub open spec fn handle_fault(t: &ProcTable, d: SpawnDemo, kid: (u64, u64), n: int) -> Option<
    &'static str,
> {
    match cap::read_answer(t, d.sup, 3 + n) {
        Err(_) => Some("a Process handle did not land in the supervisor's space"),
        Ok(c) => if c.obj != (CapObj::Process { pid: kid.0 }) {
            Some("a Process handle does not name the spawned child")
        } else {
            None
        },
    }
}

fn check_handle(t: &ProcTable, d: &SpawnDemo, kid: (u64, u64), n: usize) -> (r: Option<&'static str>)
    requires
        t.wf(),
        n < 8,
    ensures
        r == handle_fault(t, *d, kid, n as int),
{
    match cap::read(t, d.sup, 3 + n) {
        Err(_) => Some("a Process handle did not land in the supervisor's space"),
        Ok(c) => match c.obj {
            CapObj::Process { pid } => if pid == kid.0 {
                None
            } else {
                Some("a Process handle does not name the spawned child")
            },
            _ => Some("a Process handle does not name the spawned child"),
        },
    }
}

/// What is wrong with what the supervisor and its two children left.
pub open spec fn children_fault(
    t: &ProcTable,
    s: &Syscalls,
    d: SpawnDemo,
    kids: Seq<(u64, u64)>,
) -> Option<&'static str> {
    if kids.len() != 2 {
        Some("the spawn registry does not hold exactly the two children")
    } else if child_fault(t, s, d, kids[0]) is Some {
        child_fault(t, s, d, kids[0])
    } else if child_fault(t, s, d, kids[1]) is Some {
        child_fault(t, s, d, kids[1])
    } else if handle_fault(t, d, kids[0], 0) is Some {
        handle_fault(t, d, kids[0], 0)
    } else if handle_fault(t, d, kids[1], 1) is Some {
        handle_fault(t, d, kids[1], 1)
    } else if cap::read_answer(t, d.sup, 2) is Err {
        Some("the supervisor LOST its original Memory cap (move, not copy)")
    } else {
        None
    }
}

/// Check the two children that were spawned, each given by its process and its
/// thread, and the supervisor's handles to them.
pub fn spawn_children(t: &ProcTable, s: &Syscalls, d: &SpawnDemo, kids: &[(u64, u64)]) -> (r: Result<
    (),
    &'static str,
>)
    requires
        t.wf(),
        s.wf(),
    ensures
        r == (match children_fault(t, s, *d, kids@) {
            Some(e) => Err::<(), &'static str>(e),
            None => Ok(()),
        }),
{
    if kids.len() != 2 {
        return Err("the spawn registry does not hold exactly the two children");
    }
    if let Some(e) = check_child(t, s, d, kids[0]) {
        return Err(e);
    }
    if let Some(e) = check_child(t, s, d, kids[1]) {
        return Err(e);
    }
    if let Some(e) = check_handle(t, d, kids[0], 0) {
        return Err(e);
    }
    if let Some(e) = check_handle(t, d, kids[1], 1) {
        return Err(e);
    }
    match cap::read(t, d.sup, 2) {
        Err(_) => Err("the supervisor LOST its original Memory cap (move, not copy)"),
        Ok(_) => Ok(()),
    }
}

/// How long the message is that the image says its program writes, where it
/// says so.
pub fn message_length(img: &[u8]) -> (r: Result<u64, &'static str>)
    ensures
        match elf::parsed(img@) {
            Err(e) => r == Err::<u64, &'static str>(e),
            Ok((_, segs)) => if meta_seg(segs).offset + 56 > img@.len() {
                r == Err::<u64, &'static str>("image too short for META")
            } else {
                r is Ok && r->Ok_0 == bytes::le64_at(img@, meta_seg(segs).offset + 48)
            },
        },
{
    let info: elf::ImageInfo = match elf::validate(img) {
        Err(e) => {
            return Err(e);
        },
        Ok(i) => i,
    };
    proof {
        let segs = elf::parsed(img@)->Ok_0.1;
        elf::law_accepted_images(img@);
        if segs.len() > 1 {
            assert(info.segments()[1] == info.segs@[1]);
        }
        assert(info.segs@[1] == meta_seg(segs));
    }
    let n: usize = img.len();
    if n < 56 || info.segs[1].offset > (n - 56) as u64 {
        return Err("image too short for META");
    }
    Ok(bytes::le64(img, info.segs[1].offset as usize + 48))
}

/// The children `kids` are forgotten and destroyed one by one, up to the first
/// that cannot be; `left` is what is left of their records.
pub open spec fn children_gone(
    pre: &Kernel,
    post: &Kernel,
    kids: Seq<(u64, u64)>,
    left: Seq<(u64, u64)>,
    live: u64,
    r: Result<(), &'static str>,
) -> bool
    decreases kids.len(),
{
    if kids.len() == 0 {
        *post == *pre && left == kids && r == Ok::<(), &'static str>(())
    } else {
        exists|k1: Kernel, q: Result<u64, &'static str>|
            {
                &&& #[trigger] proc::destroyed(pre, &k1, kids[0].0, live, q)
                &&& match q {
                    Err(e) => {
                        &&& *post == k1
                        &&& left == kids.drop_first()
                        &&& r == Err::<(), &'static str>(e)
                    },
                    Ok(_) => children_gone(&k1, post, kids.drop_first(), left, live, r),
                }
            }
    }
}

/// A process may be destroyed after another was.
proof fn lemma_may_go_still(k: &Kernel, k1: &Kernel, gone: u64, pid: u64, live: u64)
    requires
        k.wf(),
        k1.wf(),
        proc::find(k.procs.slots@, gone) is Some,
        proc::removed(k, k1, proc::find(k.procs.slots@, gone)->0),
        k1.fa.same_pool(&k.fa),
        proc::may_go(k, pid, live),
    ensures
        proc::may_go(k1, pid, live),
{
    if pid == gone {
        proc::lemma_find_bounds(k.procs.slots@, gone);
        if let Some(i) = proc::find(k1.procs.slots@, gone) {
            proc::lemma_find_bounds(k1.procs.slots@, gone);
            assert(k.procs.slots@[i] is Some);
        }
    } else {
        m3::lemma_without(k, k1, gone, pid);
        if let Some(i) = proc::find(k.procs.slots@, pid) {
            let root = k.procs.slots@[i]->0.pml4_phys as int;
            proc::lemma_find_bounds(k.procs.slots@, pid);
            if live != root {
                assert(paging::is_root(k.pg.mem.seats@, root));
                assert forall|v: int| 0 <= v < USER_PAGES implies (#[trigger] paging::held_frame(
                    &k1.pg.mem,
                    &k1.fa,
                    root,
                    v,
                ) matches Some(j) ==> !k1.pg.mem.seats@.dom().contains(j * 4096)) by {
                    assert(paging::leaf(k1.pg.mem.words@, root, v) == paging::leaf(
                        k.pg.mem.words@,
                        root,
                        v,
                    ));
                    assert(paging::held_frame(&k.pg.mem, &k.fa, root, v) == paging::held_frame(
                        &k1.pg.mem,
                        &k1.fa,
                        root,
                        v,
                    ));
                }
            }
        }
    }
}

/// Take the children away that were spawned, each given by its process and its
/// thread, and their records. The kernel stops on the error of a teardown.
pub fn drop_children(k: &mut Kernel, kids: &mut Vec<(u64, u64)>, live: u64) -> (r: Result<
    (),
    &'static str,
>)
    requires
        old(k).wf(),
        forall|i: int|
            0 <= i < old(kids)@.len() ==> #[trigger] proc::may_go(
                old(k),
                old(kids)@[i].0,
                live,
            ),
    ensures
        r is Ok ==> final(k).wf(),
        children_gone(old(k), final(k), old(kids)@, final(kids)@, live, r),
    decreases old(kids)@.len(),
{
    if kids.len() == 0 {
        return Ok(());
    }
    let ghost k0 = *k;
    let ghost all = kids@;
    let kid: (u64, u64) = kids.remove(0);
    assert(kids@ =~= all.drop_first());
    assert(proc::may_go(&k0, all[0].0, live));
    let q: Result<u64, &'static str> = proc::destroy(k, kid.0, live);
    assert(proc::destroyed(&k0, k, all[0].0, live, q));
    match q {
        Err(e) => Err(e),
        Ok(_) => {
            proof {
                assert forall|i: int| 0 <= i < kids@.len() implies #[trigger] proc::may_go(
                    k,
                    kids@[i].0,
                    live,
                ) by {
                    assert(proc::may_go(&k0, all[i + 1].0, live));
                    lemma_may_go_still(&k0, k, all[0].0, all[i + 1].0, live);
                }
            }
            drop_children(k, kids, live)
        },
    }
}

/// The supervisor goes back to `b`, with the demonstration's frame beside it.
pub open spec fn sup_goes_back_to(b: &Kernel, k: &Kernel, d: SpawnDemo) -> bool {
    solo::solo_up(b, k, d.sup, beside_sup(d))
}

/// Take the restart demonstration away, once its children are gone: the
/// notification, the supervisor and the frame.
#[verifier::spinoff_prover]
#[verifier::rlimit(60)]
pub fn spawn_restart_close(k: &mut Kernel, i: &mut Ipc, d: &SpawnDemo) -> (r: Result<
    (),
    &'static str,
>)
    requires
        exists|b: Kernel| #[trigger] sup_goes_back_to(&b, old(k), *d),
        drills::spare(old(k), d.frame as int),
        old(i).wf(),
    ensures
        final(i).wf(),
        if !ipc::notif_live(old(i), d.nid) || old(i).notifs@[d.nid as int].waiter != ipc::NO_TID {
            &&& r == Err::<(), &'static str>("notification teardown refused")
            &&& *final(k) == *old(k)
            &&& *final(i) == *old(i)
        } else {
            &&& final(k).wf()
            &&& final(i).eps == old(i).eps
            &&& final(i).stats == old(i).stats
            &&& final(i).notifs@ == old(i).notifs@.update(
                d.nid as int,
                ipc::Notif { live: false, pending: 0, waiter: ipc::NO_TID },
            )
            &&& forall|b: Kernel| #[trigger]
                sup_goes_back_to(&b, old(k), *d) ==> accounts::same_frames(&b.fa, &final(k).fa)
                    && m3::same_processes(&b.procs, &final(k).procs)
            &&& r is Ok <==> final(k).fa.free == d.baseline
            &&& r matches Err(e) ==> e == "spawn demo teardown is not frame-exact"
            &&& final(k).procs.next_pid == old(k).procs.next_pid
            &&& final(k).procs.created == old(k).procs.created
            &&& rest::kept_but(
                old(k),
                final(k),
                Set::empty().insert(accounts::root_of(old(k), d.sup)),
                rest::free_in(final(k)),
            )
        },
{
    let ghost k1 = *k;
    let ghost one = beside_sup(*d);
    let ghost b = choose|b: Kernel| #[trigger] sup_goes_back_to(&b, k, *d);
    proof {
        assert(solo::solo_up(&b, k, d.sup, one));
        solo::lemma_solo_facts(&b, k, d.sup, one);
    }
    match ipc::destroy_notification(i, d.nid) {
        Err(_) => {
            return Err("notification teardown refused");
        },
        Ok(_) => {},
    }
    match solo::drop_solo(k, d.sup, Ghost(one)) {
        Err(e) => {
            return Err(e);
        },
        Ok(_) => {},
    }
    let ghost k2 = *k;
    let ghost c = d.frame as int / 4096;
    proof {
        assert(c * 4096 == d.frame);
        assert(pairs::left_over(&b, &k2, one));
        assert(one.contains(c));
        assert(frames::used(k2.fa.map@, c) == (frames::used(b.fa.map@, c) || one.contains(c)));
        assert(!k2.pg.mem.seats@.dom().contains(d.frame as int));
    }
    match frames::free(&mut k.fa, d.frame) {
        Err(_) => {
            return Err("inheritable frame free rejected");
        },
        Ok(_) => {},
    }
    proof {
        m3::lemma_kernel_gave(&k2, k, d.frame as int);
        rest::lemma_gave(&k2, k, d.frame as int);
        rest::lemma_join(
            &k1,
            &k2,
            k,
            Set::empty().insert(accounts::root_of(&k1, d.sup)),
            rest::free_in(&k2),
            Set::empty(),
            Set::empty().insert(c),
            Set::empty().insert(accounts::root_of(&k1, d.sup)),
            rest::free_in(k),
        );
        assert forall|q: Kernel| #[trigger]
            sup_goes_back_to(&q, &k1, *d) implies accounts::same_frames(&q.fa, &k.fa)
            && m3::same_processes(&q.procs, &k.procs) by {
            assert(solo::solo_up(&q, &k1, d.sup, one));
            assert(!frames::used(q.fa.map@, c)) by {
                reveal(solo::solo_up);
                solo::lemma_share_at(&q.fa, one, &k1, accounts::root_of(&k1, d.sup), c);
            }
            solo::lemma_frame_back(&q, &k2, k, c);
        }
    }
    if frames::free_frames(&k.fa) != d.baseline {
        return Err("spawn demo teardown is not frame-exact");
    }
    Ok(())
}

/// What `spawn_restart_open` leaves, `spawn_restart_close` accepts.
pub proof fn law_spawn_closes(k0: Kernel, i0: Ipc, k: Kernel, i: Ipc, d: SpawnDemo)
    requires
        spawn_stands(&k0, &i0, &k, &i, d),
    ensures
        sup_goes_back_to(&k0, &k, d),
        drills::spare(&k, d.frame as int),
{
}

/// The process `pid` goes back to `b`, with nothing beside it.
pub open spec fn alone(b: &Kernel, k: &Kernel, pid: u64) -> bool {
    solo::solo_up(b, k, pid, Set::empty())
}

/// Take a process away and hold the pool against what it was.
#[verifier::spinoff_prover]
fn close_alone(k: &mut Kernel, pid: u64, baseline: u64, say: &'static str) -> (r: Result<
    (),
    &'static str,
>)
    requires
        exists|b: Kernel| #[trigger] alone(&b, old(k), pid),
    ensures
        final(k).wf(),
        forall|b: Kernel| #[trigger]
            alone(&b, old(k), pid) ==> accounts::same_frames(&b.fa, &final(k).fa)
                && m3::same_processes(&b.procs, &final(k).procs),
        final(k).procs.next_pid == old(k).procs.next_pid,
        final(k).procs.created == old(k).procs.created,
        rest::kept_but(
            old(k),
            final(k),
            Set::empty().insert(accounts::root_of(old(k), pid)),
            rest::free_in(final(k)),
        ),
        r is Ok <==> final(k).fa.free == baseline,
        r matches Err(e) ==> e == say,
{
    let ghost k1 = *k;
    let ghost none = Set::<int>::empty();
    let ghost b = choose|b: Kernel| #[trigger] alone(&b, k, pid);
    proof {
        assert(solo::solo_up(&b, k, pid, none));
    }
    match solo::drop_solo(k, pid, Ghost(none)) {
        Err(e) => {
            return Err(e);
        },
        Ok(_) => {},
    }
    proof {
        assert forall|q: Kernel| #[trigger] alone(&q, &k1, pid) implies accounts::same_frames(
            &q.fa,
            &k.fa,
        ) && m3::same_processes(&q.procs, &k.procs) by {
            assert(solo::solo_up(&q, &k1, pid, none));
            solo::lemma_nothing_left(&q, k);
        }
    }
    if frames::free_frames(&k.fa) != baseline {
        return Err(say);
    }
    Ok(())
}

/// A process that runs by itself.
#[derive(Clone, Copy, Debug)]
pub struct SoloDemo {
    pub pid: u64,
    pub baseline: u64,
}

/// The console reader stands with its window.
pub open spec fn reader_stands(k0: &Kernel, k: &Kernel, d: SoloDemo) -> bool {
    &&& alone(k0, k, d.pid)
    &&& d.pid == k0.procs.next_pid
    &&& d.baseline == k0.fa.free
    &&& cap::slots_of(&k.procs, d.pid) == Some(m3::blank_space())
    &&& proc::entered(&k.procs, d.pid, "console")
    &&& exists|p: [u64; 3]| #[trigger]
        window_at(k, accounts::root_of(k, d.pid), payloads::reader_code(), p)
    &&& k.fa.available() == k0.fa.available() - 7
}

/// Put the console reader in place.
#[verifier::spinoff_prover]
pub fn console_line_open(k: &mut Kernel) -> (r: Result<SoloDemo, &'static str>)
    requires
        old(k).wf(),
        old(k).procs.next_pid < u64::MAX,
        m3::live_root_stands(old(k)),
    ensures
        final(k).wf(),
        proc::kept(&old(k).procs, &final(k).procs),
        rest::kept(old(k), final(k)),
        r is Ok ==> final(k).procs.next_pid == old(k).procs.next_pid + 1,
        match solo::one_answer(old(k)) {
            Err(e) => r == Err::<SoloDemo, &'static str>(e),
            Ok(_) => if old(k).fa.available() < 4 {
                r == Err::<SoloDemo, &'static str>(window::ipc_refusals().frames)
            } else if old(k).fa.available() < 7 {
                r == Err::<SoloDemo, &'static str>(window::ipc_refusals().code)
            } else {
                r matches Ok(d) && reader_stands(old(k), final(k), d)
            },
        },
{
    let ghost k0 = *k;
    let ghost none = Set::<int>::empty();
    let baseline: u64 = frames::free_frames(&k.fa);
    let pid: u64 = match solo::open_solo(k, "console") {
        Err(e) => {
            return Err(e);
        },
        Ok(p) => p,
    };
    let code: Vec<u8> = build_console_reader();
    let p: [u64; 3] = match window_solo(k, pid, code.as_slice(), Ghost(k0), Ghost(none)) {
        Err(e) => {
            return Err(e);
        },
        Ok(p) => p,
    };
    assert(window_at(k, accounts::root_of(k, pid), payloads::reader_code(), p));
    Ok(SoloDemo { pid, baseline })
}

/// Take the console reader away again.
pub fn console_line_close(k: &mut Kernel, d: &SoloDemo) -> (r: Result<(), &'static str>)
    requires
        exists|b: Kernel| #[trigger] alone(&b, old(k), d.pid),
    ensures
        final(k).wf(),
        forall|b: Kernel| #[trigger]
            alone(&b, old(k), d.pid) ==> accounts::same_frames(&b.fa, &final(k).fa)
                && m3::same_processes(&b.procs, &final(k).procs),
        final(k).procs.next_pid == old(k).procs.next_pid,
        final(k).procs.created == old(k).procs.created,
        rest::kept_but(
            old(k),
            final(k),
            Set::empty().insert(accounts::root_of(old(k), d.pid)),
            rest::free_in(final(k)),
        ),
        r is Ok <==> final(k).fa.free == d.baseline,
        r matches Err(e) ==> e == "console test teardown is not frame-exact",
{
    close_alone(k, d.pid, d.baseline, "console test teardown is not frame-exact")
}

/// Every page of the image is in place under `root`.
#[verifier::opaque]
pub open spec fn image_stands(
    pre: &Kernel,
    k: &Kernel,
    root: int,
    b: Seq<u8>,
    segs: Seq<SegInfo>,
) -> bool {
    forall|i: int, q: int|
        0 <= i < segs.len() && 0 <= q < segs[i].pages() ==> #[trigger] elf::placed(
            pre,
            k,
            root,
            b,
            segs[i],
            q,
        )
}

/// The process sees its image: the file's bytes, and zeroes behind them.
pub proof fn law_image_is_seen(
    pre: Kernel,
    k: Kernel,
    root: int,
    b: Seq<u8>,
    segs: Seq<SegInfo>,
    i: int,
    off: int,
)
    requires
        elf::sound(b, segs),
        0 <= i < segs.len(),
        0 <= off < segs[i].memsz,
        image_stands(&pre, &k, root, b, segs),
    ensures
        window::seen(k.pg.mem.words@, root, segs[i].vaddr + off) == Some(
            if off < segs[i].filesz {
                b[segs[i].offset + off]
            } else {
                0
            },
        ),
{
    reveal(image_stands);
    let s = segs[i];
    let q = off / 4096;
    let x = off % 4096;
    crate::bits::lemma_ceil_div(s.memsz as int, 4096);
    assert(q < s.pages());
    assert(elf::placed(&pre, &k, root, b, s, q));
    let e = paging::leaf(k.pg.mem.words@, root, s.vaddr as int / 4096 + q)->0;
    let f = paging::addr(e);
    assert((s.vaddr + off) / 4096 == s.vaddr as int / 4096 + q);
    assert((s.vaddr + off) % 4096 == x);
    assert(elf::mem_byte(k.pg.mem.words@, f + x) == elf::seg_byte(b, s, q, x));
    assert(q * 4096 + x == off);
    assert((f + x) / 8 < k.pg.mem.words@.len());
}

/// The image stays in place while another page of the process is mapped.
#[verifier::spinoff_prover]
proof fn lemma_image_kept(
    pre: &Kernel,
    k: &Kernel,
    k1: &Kernel,
    root: int,
    b: Seq<u8>,
    segs: Seq<SegInfo>,
    va: u64,
    f: u64,
)
    requires
        image_stands(pre, k, root, b, segs),
        elf::sound(b, segs),
        pairs::adopted(k, k1, root, va, f, true, false),
        paging::is_root(k.pg.mem.seats@, root),
        forall|v: int| #[trigger] elf::in_image(segs, v) ==> v != va as int / 4096,
    ensures
        image_stands(pre, k1, root, b, segs),
{
    reveal(image_stands);
    assert forall|i: int, q: int|
        0 <= i < segs.len() && 0 <= q < segs[i].pages() implies #[trigger] elf::placed(
        pre,
        k1,
        root,
        b,
        segs[i],
        q,
    ) by {
        assert(elf::placed(pre, k, root, b, segs[i], q));
        let s = segs[i];
        let v = s.vaddr as int / 4096 + q;
        crate::bits::lemma_ceil_div(s.memsz as int, 4096);
        assert(elf::in_pages(segs[i], segs[i].pages(), v));
        assert(elf::in_image(segs, v));
        assert(0 <= v < paging::PAGES);
        assert(paging::leaf(k1.pg.mem.words@, root, v) == paging::leaf(k.pg.mem.words@, root, v));
        let g = paging::addr(paging::leaf(k.pg.mem.words@, root, v)->0);
        lemma_page_kept(k, k1, g);
        assert forall|x: int| 0 <= x < 4096 implies #[trigger] elf::mem_byte(
            k1.pg.mem.words@,
            g + x,
        ) == elf::seg_byte(b, s, q, x) by {
            assert(elf::mem_byte(k.pg.mem.words@, g + x) == elf::seg_byte(b, s, q, x));
        }
    }
}

/// A frame in use that is no table keeps its bytes, and stays what it is,
/// while pages are mapped.
proof fn lemma_page_kept(k: &Kernel, k1: &Kernel, g: int)
    requires
        g % 4096 == 0,
        0 <= g < frames::PHYS_LIMIT,
        k.fa.in_use(g),
        !k.pg.mem.seats@.dom().contains(g),
        g / 8 + 512 <= k.pg.mem.words@.len(),
        paging::data_kept(&k.pg.mem, &k.fa, &k1.pg.mem),
        paging::tables_grown(&k.pg.mem, &k.fa, &k1.pg.mem),
        forall|j: int|
            0 <= j < frames::FRAME_COUNT && #[trigger] frames::used(k.fa.map@, j) ==> frames::used(
                k1.fa.map@,
                j,
            ),
    ensures
        k1.fa.in_use(g),
        !k1.pg.mem.seats@.dom().contains(g),
        forall|x: int|
            0 <= x < 4096 ==> #[trigger] elf::mem_byte(k1.pg.mem.words@, g + x) == elf::mem_byte(
                k.pg.mem.words@,
                g + x,
            ),
{
    assert(g / 4096 * 4096 == g);
    assert(frames::used(k.fa.map@, g / 4096));
    assert forall|x: int| 0 <= x < 4096 implies #[trigger] elf::mem_byte(k1.pg.mem.words@, g + x)
        == elf::mem_byte(k.pg.mem.words@, g + x) by {
        let w = (g + x) / 8;
        assert(w / 512 == g / 4096);
        assert(k1.pg.mem.words@[w] == k.pg.mem.words@[w]);
    }
}

/// Writing a frame beside the process leaves its image in place.
#[verifier::spinoff_prover]
#[verifier::rlimit(60)]
proof fn lemma_image_written(
    pre: &Kernel,
    k: &Kernel,
    k1: &Kernel,
    root: int,
    b: Seq<u8>,
    segs: Seq<SegInfo>,
    f: int,
)
    requires
        image_stands(pre, k, root, b, segs),
        elf::sound(b, segs),
        drills::rewritten(k, k1, f),
        f % 4096 == 0,
        0 <= f,
        k.wf(),
        !k.pg.mem.seats@.dom().contains(f),
        paging::is_root(k.pg.mem.seats@, root),
        forall|v: int|
            0 <= v < paging::PAGES ==> (#[trigger] paging::leaf(
                k.pg.mem.words@,
                root,
                v,
            ) matches Some(e) ==> elf::in_image(segs, v) ==> paging::addr(e) != f),
    ensures
        image_stands(pre, k1, root, b, segs),
{
    reveal(image_stands);
    let w0 = k.pg.mem.words@;
    let w1 = k1.pg.mem.words@;
    paging::lemma_apart(w0, w1, k.pg.mem.seats@, f);
    assert forall|i: int, q: int|
        0 <= i < segs.len() && 0 <= q < segs[i].pages() implies #[trigger] elf::placed(
        pre,
        k1,
        root,
        b,
        segs[i],
        q,
    ) by {
        assert(elf::placed(pre, k, root, b, segs[i], q));
        let s = segs[i];
        let v = s.vaddr as int / 4096 + q;
        crate::bits::lemma_ceil_div(s.memsz as int, 4096);
        assert(elf::in_pages(segs[i], segs[i].pages(), v));
        assert(elf::in_image(segs, v));
        assert(0 <= v < paging::PAGES);
        assert(paging::leaf(k1.pg.mem.words@, root, v) == paging::leaf(k.pg.mem.words@, root, v));
        paging::lemma_pte_stays(k.pg.mem.seats@, w0, w1, root, v);
        let g = paging::addr(paging::leaf(k.pg.mem.words@, root, v)->0);
        assert(g != f);
        assert forall|x: int| 0 <= x < 4096 implies #[trigger] elf::mem_byte(
            k1.pg.mem.words@,
            g + x,
        ) == elf::seg_byte(b, s, q, x) by {
            assert(elf::mem_byte(k.pg.mem.words@, g + x) == elf::seg_byte(b, s, q, x));
            let w = (g + x) / 8;
            assert(f / 4096 * 4096 == f && g / 4096 * 4096 == g);
            assert(!(f / 8 <= w < f / 8 + 512));
            assert(k1.pg.mem.words@[w] == k.pg.mem.words@[w]);
        }
    }
}

/// Taking a frame leaves the image in place, and the frame is none of its.
#[verifier::spinoff_prover]
proof fn lemma_image_taken(
    pre: &Kernel,
    k: &Kernel,
    k1: &Kernel,
    root: int,
    b: Seq<u8>,
    segs: Seq<SegInfo>,
    f: int,
)
    requires
        image_stands(pre, k, root, b, segs),
        k1.pg == k.pg,
        !k.fa.in_use(f),
        forall|j: int|
            0 <= j < frames::FRAME_COUNT && #[trigger] frames::used(k.fa.map@, j) ==> frames::used(
                k1.fa.map@,
                j,
            ),
    ensures
        image_stands(pre, k1, root, b, segs),
        forall|v: int|
            0 <= v < paging::PAGES ==> (#[trigger] paging::leaf(
                k1.pg.mem.words@,
                root,
                v,
            ) matches Some(e) ==> elf::in_image(segs, v) ==> paging::addr(e) != f),
{
    reveal(image_stands);
    assert forall|i: int, q: int|
        0 <= i < segs.len() && 0 <= q < segs[i].pages() implies #[trigger] elf::placed(
        pre,
        k1,
        root,
        b,
        segs[i],
        q,
    ) by {
        assert(elf::placed(pre, k, root, b, segs[i], q));
        let g = paging::addr(
            paging::leaf(k.pg.mem.words@, root, segs[i].vaddr as int / 4096 + q)->0,
        );
        assert(frames::used(k.fa.map@, g / 4096));
    }
    assert forall|v: int|
        0 <= v < paging::PAGES && elf::in_image(segs, v) implies (#[trigger] paging::leaf(
        k1.pg.mem.words@,
        root,
        v,
    ) matches Some(e) ==> paging::addr(e) != f) by {
        let i = choose|i: int|
            0 <= i < segs.len() && elf::in_pages(#[trigger] segs[i], segs[i].pages(), v);
        let q = v - segs[i].vaddr as int / 4096;
        assert(elf::placed(pre, k, root, b, segs[i], q));
    }
}

/// What the first process was told of its image.
#[derive(Clone, Copy, Debug)]
pub struct FirstProcess {
    pub pid: u64,
    /// Where in the file the message begins, and how long it is.
    pub msg_off: usize,
    pub msg_len: u64,
    /// What the process exits with if all is well.
    pub exit_ok: u64,
    pub baseline: u64,
}

/// The segment that holds the image's description: the second.
pub open spec fn meta_seg(segs: Seq<SegInfo>) -> SegInfo {
    if segs.len() > 1 {
        segs[1]
    } else {
        elf::blank_segment()
    }
}

/// What is wrong with the image's description of its message, if anything.
pub open spec fn told_fault(b: Seq<u8>, segs: Seq<SegInfo>) -> Option<&'static str> {
    let mo = meta_seg(segs).offset as int;
    let va = bytes::le64_at(b, mo + 40);
    if b.len() < mo + m4::META_SIZE {
        Some("image too short for META")
    } else if va < segs[0].vaddr || va + bytes::le64_at(b, mo + 48) > segs[0].vaddr + segs[0].filesz {
        Some("META message span outside the file-backed text segment")
    } else {
        None
    }
}

/// What the image tells of the process that is to run it.
pub open spec fn told(b: Seq<u8>, segs: Seq<SegInfo>, d: FirstProcess) -> bool {
    let mo = meta_seg(segs).offset as int;
    &&& d.msg_len == bytes::le64_at(b, mo + 48)
    &&& d.exit_ok == bytes::le64_at(b, mo + 56)
    &&& d.msg_off == segs[0].offset + (bytes::le64_at(b, mo + 40) - segs[0].vaddr)
    &&& d.msg_off + d.msg_len <= b.len()
}

/// The page of the stack.
pub open spec fn stack_page() -> int {
    PROC_STACK_VA as int / 4096
}

/// Only the pages of the image, and the stack, are mapped in the user half.
pub open spec fn only_first(k: &Kernel, root: int, segs: Seq<SegInfo>) -> bool {
    forall|v: int|
        0 <= v < USER_PAGES && !elf::in_image(segs, v) && v != stack_page()
            ==> #[trigger] paging::leaf(k.pg.mem.words@, root, v) is None
}

/// The first process stands: its stack is a zeroed page of its own, and eight
/// frames were spent on it. Its image is in place, unless a page of it was
/// where the stack is.
pub open spec fn first_stands(k0: &Kernel, k: &Kernel, b: Seq<u8>, d: FirstProcess) -> bool {
    let segs = elf::parsed(b)->Ok_0.1;
    let root = accounts::root_of(k, d.pid);
    &&& d.pid == k0.procs.next_pid
    &&& d.baseline == k0.fa.free
    &&& k.fa.available() == k0.fa.available() - 8
    &&& exists|f: u64| #[trigger] stack_at(k, root, f)
    &&& told(b, segs, d)
    &&& proc::entered(&k.procs, d.pid, "m4First")
    &&& cap::slots_of(&k.procs, d.pid) == Some(m3::blank_space())
    &&& only_first(k, root, segs)
    &&& !elf::in_image(segs, stack_page()) ==> {
        &&& alone(k0, k, d.pid)
        &&& exists|pre: Kernel| #[trigger] image_stands(&pre, k, root, b, segs)
    }
}

/// From `k0` to `k2` the process was made, and from `k2` to `k3` the image was
/// loaded into it, as far as the frames went.
pub open spec fn first_run(
    k0: &Kernel,
    k2: &Kernel,
    k3: &Kernel,
    b: Seq<u8>,
    segs: Seq<SegInfo>,
    broke: Option<&'static str>,
) -> bool {
    &&& solo::fresh_solo(k0, k2, k0.procs.next_pid)
    &&& m4::image_tried(
        k2,
        k3,
        accounts::root_of(k2, k0.procs.next_pid),
        b,
        segs,
        broke,
    )
}

/// The image is where it was linked to, as far as the loader tells.
pub open spec fn at_home(entry: u64, segs: Seq<SegInfo>) -> bool {
    entry == m4::PAYLOAD_ENTRY && elf::pages_below(segs, segs.len() as int) == 3
}

/// What a load answers.
pub open spec fn first_loaded(
    k0: &Kernel,
    k3: &Kernel,
    b: Seq<u8>,
    entry: u64,
    segs: Seq<SegInfo>,
    r: Result<u64, &'static str>,
    p: (Kernel, Option<&'static str>),
) -> bool {
    &&& first_run(k0, &p.0, k3, b, segs, p.1)
    &&& r == (match p.1 {
        Some(e) => Err::<u64, &'static str>(e),
        None => if at_home(entry, segs) {
            Ok(k0.procs.next_pid)
        } else {
            Err("loader did not place the image at its linked identity")
        },
    })
}

/// The zeroed frame `f` was made the stack page of `root`, whatever was mapped
/// there, and nothing else changed.
pub open spec fn stack_put(k: &Kernel, k1: &Kernel, root: int, f: u64) -> bool {
    &&& k1.procs == k.procs
    &&& !k.fa.in_use(f as int)
    &&& stack_at(k1, root, f)
    &&& paging::same_leaves_but(&k.pg.mem, &k1.pg.mem, root, stack_page())
    &&& k1.fa.same_pool(&k.fa)
    &&& k1.fa.available() == k.fa.available() - 1
    &&& k1.fa.free == k.fa.free - 1
}

/// What putting the first process in place comes to, from the load on.
pub open spec fn first_ends(
    k0: &Kernel,
    k3: &Kernel,
    k: &Kernel,
    q: Result<u64, &'static str>,
    r: Result<u64, &'static str>,
) -> bool {
    match q {
        Err(e) => r == Err::<u64, &'static str>(e) && *k == *k3,
        Ok(pid) => if k3.fa.available() == 0 {
            r == Err::<u64, &'static str>("no frame for the process stack") && *k == *k3
        } else {
            &&& exists|f: u64| #[trigger] stack_put(k3, k, accounts::root_of(k3, pid), f)
            &&& if k0.fa.free - k.fa.free == 8 {
                r == Ok::<u64, &'static str>(pid)
            } else {
                r == Err::<u64, &'static str>(
                    "create+load+stack did not spend exactly 8 frames (root+3 tables+4 leaves)",
                )
            }
        },
    }
}

/// A run of the loader and what came of it.
pub open spec fn first_course(
    k0: &Kernel,
    k: &Kernel,
    b: Seq<u8>,
    entry: u64,
    segs: Seq<SegInfo>,
    r: Result<u64, &'static str>,
    k3: Kernel,
    q: Result<u64, &'static str>,
) -> bool {
    &&& exists|p: (Kernel, Option<&'static str>)| #[trigger]
        first_loaded(k0, &k3, b, entry, segs, q, p)
    &&& first_ends(k0, &k3, k, q, r)
}

/// What putting the first process in place comes to, for any image: its number,
/// or the error.
pub open spec fn first_answer(
    k0: &Kernel,
    k: &Kernel,
    b: Seq<u8>,
    r: Result<u64, &'static str>,
) -> bool {
    match elf::parsed(b) {
        Err(e) => r == Err::<u64, &'static str>(e),
        Ok((entry, segs)) => match told_fault(b, segs) {
            Some(e) => r == Err::<u64, &'static str>(e),
            None => match solo::one_answer(k0) {
                Err(e) => r == Err::<u64, &'static str>(e),
                Ok(_) => first_placed(k0, k, b, entry, segs, r),
            },
        },
    }
}

/// What putting the payload in place comes to, where a process can be made.
pub open spec fn first_payload(
    k0: &Kernel,
    b: Seq<u8>,
    r: Result<FirstProcess, &'static str>,
) -> bool {
    let segs = elf::parsed(b)->Ok_0.1;
    let room = k0.fa.available();
    if segs[1].memsz == 0x2000 {
        if room < 7 {
            r matches Err(e) && elf::out_of_frames(e)
        } else if room == 7 {
            r == Err::<FirstProcess, &'static str>("no frame for the process stack")
        } else {
            r is Ok
        }
    } else {
        if room < 1 + elf::fresh_cost(segs) {
            r matches Err(e) && elf::out_of_frames(e)
        } else {
            r == Err::<FirstProcess, &'static str>(
                "loader did not place the image at its linked identity",
            )
        }
    }
}

/// The frame `f` is the zeroed stack page of `root`.
pub open spec fn stack_at(k: &Kernel, root: int, f: u64) -> bool {
    &&& drills::spare(k, f as int)
    &&& paging::leaf(k.pg.mem.words@, root, PROC_STACK_VA as int / 4096) == Some(
        paging::user_entry(f, true, false),
    )
    &&& window::zeroed(k.pg.mem.words@, f as int)
}

/// None of the pages of an image is mapped in a bare process, and the payload
/// hangs in one table of it.
proof fn lemma_first_target(k2: &Kernel, pid: u64, b: Seq<u8>, segs: Seq<SegInfo>)
    requires
        k2.wf(),
        proc::find(k2.procs.slots@, pid) is Some,
        accounts::bare(k2, accounts::root_of(k2, pid)),
        elf::sound(b, segs),
    ensures
        elf::chargeable(k2, accounts::root_of(k2, pid), segs),
        m4::is_payload(b, segs) && segs[1].memsz == 0x2000 ==> elf::compact(
            k2,
            accounts::root_of(k2, pid),
            segs,
        ),
        proc::find(k2.procs.slots@, pid) matches Some(i) && 0 <= i < k2.procs.slots@.len()
            && k2.procs.slots@[i] is Some,
{
    let root = accounts::root_of(k2, pid);
    if m4::is_payload(b, segs) {
        m4::lemma_payload_pages(b, segs);
    }
    accounts::lemma_bare_missing(k2, root, 0x200);
    proc::lemma_find_bounds(k2.procs.slots@, pid);
    assert forall|v: int| elf::in_image(segs, v) implies #[trigger] paging::leaf(
        k2.pg.mem.words@,
        root,
        v,
    ) is None by {
        elf::lemma_image_pages(b, segs, v);
    }
}

/// What a process with the image loaded is good for.
#[verifier::spinoff_prover]
#[verifier::rlimit(40)]
proof fn lemma_first_loaded(
    k0: &Kernel,
    k2: &Kernel,
    k: &Kernel,
    pid: u64,
    b: Seq<u8>,
    entry: u64,
    segs: Seq<SegInfo>,
)
    requires
        solo::solo_up(k0, k2, pid, Set::empty()),
        accounts::bare(k2, accounts::root_of(k2, pid)),
        elf::parsed(b) == Ok::<(u64, Seq<SegInfo>), &'static str>((entry, segs)),
        m4::image_tried(k2, k, accounts::root_of(k2, pid), b, segs, None),
        accounts::charged(k2, k, accounts::root_of(k2, pid)),
        entry == m4::PAYLOAD_ENTRY,
    ensures
        solo::solo_up(k0, k, pid, Set::empty()),
        accounts::root_of(k, pid) == accounts::root_of(k2, pid),
        image_stands(k2, k, accounts::root_of(k2, pid), b, segs),
        paging::missing(k.pg.mem.words@, accounts::root_of(k2, pid), stack_page()) == 0,
        only_image(k, accounts::root_of(k2, pid), segs),
{
    let root = accounts::root_of(k2, pid);
    reveal(m4::image_tried);
    elf::law_accepted_images(b);
    m4::lemma_loaded_tidy(k2, k, root, b, segs);
    assert(pairs::root_step(k2, k, root));
    solo::lemma_solo_charge(k0, k2, k, pid, Set::empty());
    solo::lemma_solo_facts(k0, k, pid, Set::empty());
    reveal(elf::loaded);
    assert(image_stands(k2, k, root, b, segs)) by {
        reveal(image_stands);
    }
    let i = choose|i: int|
        0 <= i < segs.len() && (#[trigger] segs[i]).executable() && segs[i].holds(entry as int);
    let q = 0x200 - segs[i].vaddr as int / 4096;
    crate::bits::lemma_ceil_div(segs[i].memsz as int, 4096);
    assert(0 <= q < segs[i].pages());
    assert(elf::placed(k2, k, root, b, segs[i], q));
    assert(paging::pte_at(k.pg.mem.words@, root, 0x200) is Some);
    paging::lemma_path(k.pg.mem.words@, k.pg.mem.seats@, root, 0x200);
    assert(paging::missing(k.pg.mem.words@, root, 0x200) == 0);
    accounts::lemma_same_table(k.pg.mem.words@, root, 0x200, stack_page());
    assert forall|v: int| 0 <= v < USER_PAGES && !elf::in_image(segs, v) implies #[trigger] paging::leaf(
        k.pg.mem.words@,
        root,
        v,
    ) is None by {
        assert(!elf::covered(segs, segs.len() as int, 0, v));
        assert(paging::leaf(k2.pg.mem.words@, root, v) is None);
    }
}

/// Make a process and load the image into it.
#[verifier::spinoff_prover]
#[verifier::rlimit(60)]
fn first_load(k: &mut Kernel, img: &[u8]) -> (r: Result<u64, &'static str>)
    requires
        old(k).wf(),
        old(k).procs.next_pid < u64::MAX,
        m3::live_root_stands(old(k)),
        elf::parsed(img@) is Ok,
    ensures
        final(k).wf(),
        proc::kept(&old(k).procs, &final(k).procs),
        rest::kept(old(k), final(k)),
        r is Ok ==> final(k).procs.next_pid == old(k).procs.next_pid + 1,
        solo::one_answer(old(k)) matches Err(e) ==> r == Err::<u64, &'static str>(e),
        solo::one_answer(old(k)) is Ok ==> exists|p: (Kernel, Option<&'static str>)| #[trigger]
            first_loaded(
                old(k),
                final(k),
                img@,
                elf::parsed(img@)->Ok_0.0,
                elf::parsed(img@)->Ok_0.1,
                r,
                p,
            ),
        r matches Ok(pid) ==> {
            let segs = elf::parsed(img@)->Ok_0.1;
            let root = accounts::root_of(final(k), pid);
            &&& pid == old(k).procs.next_pid
            &&& solo::solo_up(old(k), final(k), pid, Set::empty())
            &&& image_ready(final(k), root, img@, segs)
            &&& proc::entered(&final(k).procs, pid, "m4First")
            &&& cap::slots_of(&final(k).procs, pid) == Some(m3::blank_space())
        },
{
    let ghost k0 = *k;
    let ghost none = Set::<int>::empty();
    let ghost entry = elf::parsed(img@)->Ok_0.0;
    let ghost segs = elf::parsed(img@)->Ok_0.1;
    let pid: u64 = match solo::open_solo(k, "m4First") {
        Err(e) => {
            return Err(e);
        },
        Ok(p) => p,
    };
    let ghost k2 = *k;
    let ghost root = accounts::root_of(&k2, pid);
    proof {
        elf::law_accepted_images(img@);
        solo::lemma_solo_facts(&k0, &k2, pid, none);
        lemma_first_target(&k2, pid, img@, segs);
    }
    let done: Result<elf::LoadInfo, &'static str> = m4::load_bare(k, img, pid);
    proof {
        solo::lemma_solo_new(&k0, &k2, pid, none);
        rest::lemma_mine(&k0, &k2, k, root);
    }
    let loaded: elf::LoadInfo = match done {
        Err(e) => {
            assert(first_loaded(&k0, k, img@, entry, segs, Err(e), (k2, Some(e))));
            return Err(e);
        },
        Ok(i) => i,
    };
    if loaded.entry != m4::PAYLOAD_ENTRY || loaded.pages != 3 {
        assert(first_loaded(
            &k0,
            k,
            img@,
            entry,
            segs,
            Err("loader did not place the image at its linked identity"),
            (k2, None),
        ));
        return Err("loader did not place the image at its linked identity");
    }
    proof {
        assert(first_loaded(&k0, k, img@, entry, segs, Ok(pid), (k2, None)));
        lemma_first_loaded(&k0, &k2, k, pid, img@, entry, segs);
    }
    Ok(pid)
}

/// Only the pages of the image are mapped in the user half.
pub open spec fn only_image(k: &Kernel, root: int, segs: Seq<SegInfo>) -> bool {
    forall|v: int|
        0 <= v < USER_PAGES && !elf::in_image(segs, v) ==> #[trigger] paging::leaf(
            k.pg.mem.words@,
            root,
            v,
        ) is None
}

/// The image is in place, the table that the stack page belongs to is there,
/// and nothing else is mapped.
pub open spec fn image_ready(k: &Kernel, root: int, b: Seq<u8>, segs: Seq<SegInfo>) -> bool {
    &&& exists|pre: Kernel| #[trigger] image_stands(&pre, k, root, b, segs)
    &&& paging::missing(k.pg.mem.words@, root, stack_page()) == 0
    &&& only_image(k, root, segs)
}

/// The frame `f` was taken and zeroed, and nothing else changed.
pub open spec fn zeroed_beside(k3: &Kernel, k5: &Kernel, f: int) -> bool {
    &&& k5.procs == k3.procs
    &&& k5.pg.mem.seats@ == k3.pg.mem.seats@
    &&& window::only_frame(k3.pg.mem.words@, k5.pg.mem.words@, f)
    &&& window::zeroed(k5.pg.mem.words@, f)
    &&& drills::spare(k5, f)
    &&& !k3.fa.in_use(f)
    &&& k5.fa.same_pool(&k3.fa)
    &&& k5.fa.available() == k3.fa.available() - 1
    &&& k5.fa.free == k3.fa.free - 1
}

/// Take a frame for the stack of the first process, and zero it.
#[verifier::spinoff_prover]
#[verifier::rlimit(60)]
fn stack_frame(
    k: &mut Kernel,
    pid: u64,
    Ghost(k0): Ghost<Kernel>,
    Ghost(img): Ghost<Seq<u8>>,
    Ghost(segs): Ghost<Seq<SegInfo>>,
) -> (r: Option<u64>)
    requires
        elf::sound(img, segs),
        k0.wf(),
        old(k).wf(),
        solo::solo_up(&k0, old(k), pid, Set::empty()),
        image_ready(old(k), accounts::root_of(old(k), pid), img, segs),
        rest::kept(&k0, old(k)),
    ensures
        final(k).wf(),
        final(k).procs == old(k).procs,
        rest::kept(&k0, final(k)),
        r is None <==> old(k).fa.available() == 0,
        r is None ==> *final(k) == *old(k),
        r matches Some(f) ==> {
            &&& zeroed_beside(old(k), final(k), f as int)
            &&& solo::solo_up(&k0, final(k), pid, Set::empty().insert(f as int / 4096))
            &&& image_ready(final(k), accounts::root_of(old(k), pid), img, segs)
        },
{
    let ghost none = Set::<int>::empty();
    proof {
        solo::lemma_solo_facts(&k0, k, pid, none);
    }
    let ghost k3 = *k;
    let ghost root = accounts::root_of(&k3, pid);
    let ghost pre = choose|pre: Kernel| #[trigger] image_stands(&pre, &k3, root, img, segs);
    let stack: u64 = match take_solo(k, pid, Ghost(k0), Ghost(none)) {
        None => {
            return None;
        },
        Some(f) => f,
    };
    let ghost k4 = *k;
    let ghost one = none.insert(stack as int / 4096);
    window::fill_frame(&mut k.pg.mem, stack, 0);
    proof {
        solo::lemma_solo_facts(&k0, &k4, pid, one);
        lemma_image_taken(&pre, &k3, &k4, root, img, segs, stack as int);
        solo::lemma_solo_write(&k0, &k4, k, pid, one, stack as int);
        rest::lemma_written(&k4, k, stack as int);
        rest::lemma_frame(&k0, &k4, k, stack as int);
        lemma_image_written(&pre, &k4, k, root, img, segs, stack as int);
        lemma_missing_written(&k4, k, root, stack_page(), stack as int);
        solo::lemma_solo_facts(&k0, k, pid, one);
    }
    Some(stack)
}

/// Give the first process, with its image loaded, a zeroed stack page.
#[verifier::spinoff_prover]
#[verifier::rlimit(60)]
fn first_stack(
    k: &mut Kernel,
    pid: u64,
    Ghost(k0): Ghost<Kernel>,
    Ghost(img): Ghost<Seq<u8>>,
    Ghost(segs): Ghost<Seq<SegInfo>>,
) -> (r: Result<(), &'static str>)
    requires
        elf::sound(img, segs),
        k0.wf(),
        old(k).wf(),
        solo::solo_up(&k0, old(k), pid, Set::empty()),
        image_ready(old(k), accounts::root_of(old(k), pid), img, segs),
        rest::kept(&k0, old(k)),
    ensures
        final(k).wf(),
        final(k).procs == old(k).procs,
        rest::kept(&k0, final(k)),
        r == (if old(k).fa.available() == 0 {
            Err("no frame for the process stack")
        } else {
            Ok::<(), &'static str>(())
        }),
        r is Err ==> *final(k) == *old(k),
        r is Ok ==> exists|f: u64| #[trigger]
            stack_put(old(k), final(k), accounts::root_of(old(k), pid), f),
        r is Ok ==> only_first(final(k), accounts::root_of(old(k), pid), segs),
        r is Ok && !elf::in_image(segs, stack_page()) ==> {
            let root = accounts::root_of(final(k), pid);
            &&& solo::solo_up(&k0, final(k), pid, Set::empty())
            &&& exists|pre: Kernel| #[trigger] image_stands(&pre, final(k), root, img, segs)
        },
{
    let ghost k3 = *k;
    let ghost root = accounts::root_of(&k3, pid);
    let stack: u64 = match stack_frame(k, pid, Ghost(k0), Ghost(img), Ghost(segs)) {
        None => {
            return Err("no frame for the process stack");
        },
        Some(f) => f,
    };
    let ghost k5 = *k;
    let ghost one = Set::<int>::empty().insert(stack as int / 4096);
    proof {
        solo::lemma_solo_facts(&k0, &k5, pid, one);
        proc::lemma_find_bounds(k5.procs.slots@, pid);
        frames::lemma_free_bounds(k5.fa.map@, frames::FRAME_COUNT as int);
    }
    let at: u64 = match proc::pml4_of(&k.procs, pid) {
        None => {
            return Err("process lost its pml4");
        },
        Some(x) => x,
    };
    let put: bool = proc::map_one(k, at, PROC_STACK_VA, stack, true, false);
    proof {
        solo::lemma_solo_new(&k0, &k5, pid, one);
        rest::lemma_edited(&k5, k, root);
        rest::lemma_mine(&k0, &k5, k, root);
    }
    if !put {
        return Err("stack page map failed");
    }
    proof {
        lemma_stack_put(&k3, &k5, k, root, stack);
        assert(only_first(k, root, segs)) by {
            assert(paging::is_root(k3.pg.mem.seats@, root));
            assert forall|v: int|
                0 <= v < USER_PAGES && !elf::in_image(segs, v) && v
                    != stack_page() implies #[trigger] paging::leaf(
                k.pg.mem.words@,
                root,
                v,
            ) is None by {
                assert(paging::leaf(k3.pg.mem.words@, root, v) is None);
            }
        }
        if !elf::in_image(segs, stack_page()) {
            lemma_stack_adopted(&k0, &k5, k, pid, stack, img, segs);
        }
    }
    Ok(())
}

/// Where no page of the image was, the stack is charged to the process, and
/// the image stays.
#[verifier::spinoff_prover]
#[verifier::rlimit(40)]
proof fn lemma_stack_adopted(
    k0: &Kernel,
    k5: &Kernel,
    k: &Kernel,
    pid: u64,
    f: u64,
    b: Seq<u8>,
    segs: Seq<SegInfo>,
)
    requires
        elf::sound(b, segs),
        solo::solo_up(k0, k5, pid, Set::empty().insert(f as int / 4096)),
        image_ready(k5, accounts::root_of(k5, pid), b, segs),
        !elf::in_image(segs, stack_page()),
        pairs::adopted(k5, k, accounts::root_of(k5, pid), PROC_STACK_VA, f, true, false),
    ensures
        solo::solo_up(k0, k, pid, Set::empty()),
        exists|pre: Kernel| #[trigger]
            image_stands(&pre, k, accounts::root_of(k, pid), b, segs),
{
    let one = Set::<int>::empty().insert(f as int / 4096);
    let root = accounts::root_of(k5, pid);
    let pre = choose|pre: Kernel| #[trigger] image_stands(&pre, k5, root, b, segs);
    solo::lemma_solo_facts(k0, k5, pid, one);
    solo::lemma_solo_adopt(k0, k5, k, pid, one, PROC_STACK_VA, f, true, false);
    assert(one.remove(f as int / 4096) =~= Set::<int>::empty());
    lemma_image_kept(&pre, k5, k, root, b, segs, PROC_STACK_VA, f);
    assert(image_stands(&pre, k, accounts::root_of(k, pid), b, segs));
}

/// What mapping a zeroed frame as the stack page has done since the frame was
/// free.
#[verifier::spinoff_prover]
#[verifier::rlimit(40)]
proof fn lemma_stack_put(k3: &Kernel, k5: &Kernel, k: &Kernel, root: int, f: u64)
    requires
        k3.wf(),
        k5.wf(),
        zeroed_beside(k3, k5, f as int),
        k.wf(),
        k.procs == k5.procs,
        paging::is_root(k5.pg.mem.seats@, root),
        paging::mapped(
            &k5.pg.mem,
            &k5.fa,
            &k.pg.mem,
            &k.fa,
            root,
            stack_page(),
            paging::user_entry(f, true, false),
        ),
        paging::missing(k5.pg.mem.words@, root, stack_page()) == 0,
    ensures
        stack_put(k3, k, root, f),
{
    paging::lemma_apart(k3.pg.mem.words@, k5.pg.mem.words@, k3.pg.mem.seats@, f as int);
    paging::lemma_user_entry(f);
    paging::lemma_user_present(f, true, false);
    lemma_page_kept(k5, k, f as int);
    assert(window::zeroed(k.pg.mem.words@, f as int)) by {
        assert forall|x: int| 0 <= x < 4096 implies #[trigger] elf::mem_byte(
            k.pg.mem.words@,
            f + x,
        ) == 0 by {
            assert(elf::mem_byte(k5.pg.mem.words@, f + x) == 0);
        }
    }
    assert forall|r: int, v: int| #![trigger paging::leaf(k.pg.mem.words@, r, v)]
        paging::is_root(k3.pg.mem.seats@, r) && 0 <= v < paging::PAGES && !(v == stack_page()
            && paging::owner_of(k3.pg.mem.seats@[r], v) == root) implies paging::leaf(
        k.pg.mem.words@,
        r,
        v,
    ) == paging::leaf(k3.pg.mem.words@, r, v) by {
        assert(paging::leaf(k.pg.mem.words@, r, v) == paging::leaf(k5.pg.mem.words@, r, v));
    }
}

/// What the image tells of its message and its exit: the offset, the length and
/// the code.
#[verifier::spinoff_prover]
fn read_told(img: &[u8]) -> (r: Result<(usize, u64, u64), &'static str>)
    ensures
        match elf::parsed(img@) {
            Err(e) => r is Err && r->Err_0 == e,
            Ok((entry, segs)) => match told_fault(img@, segs) {
                Some(e) => r is Err && r->Err_0 == e,
                None => r is Ok && forall|pid: u64, baseline: u64| #[trigger]
                    told(
                        img@,
                        segs,
                        FirstProcess {
                            pid,
                            msg_off: r->Ok_0.0,
                            msg_len: r->Ok_0.1,
                            exit_ok: r->Ok_0.2,
                            baseline,
                        },
                    ),
            },
        },
{
    let info: elf::ImageInfo = match elf::validate(img) {
        Err(e) => {
            return Err(e);
        },
        Ok(i) => i,
    };
    let ghost segs = elf::parsed(img@)->Ok_0.1;
    proof {
        elf::law_accepted_images(img@);
        assert(info.segments()[0] == info.segs@[0]);
        if segs.len() > 1 {
            assert(info.segments()[1] == info.segs@[1]);
        }
        assert(info.segs@[1] == meta_seg(segs));
    }
    let text: SegInfo = info.segs[0];
    let n: usize = img.len();
    if info.segs[1].offset > n as u64 || n as u64 - info.segs[1].offset < m4::META_SIZE {
        return Err("image too short for META");
    }
    let mo: usize = info.segs[1].offset as usize;
    let msg_va: u64 = bytes::le64(img, mo + 40);
    let msg_len: u64 = bytes::le64(img, mo + 48);
    let exit_ok: u64 = bytes::le64(img, mo + 56);
    if msg_va < text.vaddr || msg_va - text.vaddr > text.filesz || msg_len > text.filesz - (msg_va
        - text.vaddr) {
        return Err("META message span outside the file-backed text segment");
    }
    Ok(((text.offset + (msg_va - text.vaddr)) as usize, msg_len, exit_ok))
}

/// What came of the process, the image and the stack.
pub open spec fn first_placed(
    k0: &Kernel,
    k: &Kernel,
    b: Seq<u8>,
    entry: u64,
    segs: Seq<SegInfo>,
    r: Result<u64, &'static str>,
) -> bool {
    exists|k3: Kernel, q: Result<u64, &'static str>| #[trigger]
        first_course(k0, k, b, entry, segs, r, k3, q)
}

/// Make the first process, with its image and its stack.
#[verifier::spinoff_prover]
#[verifier::rlimit(60)]
fn first_place(k: &mut Kernel, img: &[u8], baseline: u64) -> (r: Result<u64, &'static str>)
    requires
        old(k).wf(),
        old(k).procs.next_pid < u64::MAX,
        m3::live_root_stands(old(k)),
        elf::parsed(img@) is Ok,
        baseline == old(k).fa.free,
    ensures
        final(k).wf(),
        proc::kept(&old(k).procs, &final(k).procs),
        rest::kept(old(k), final(k)),
        r is Ok ==> final(k).procs.next_pid == old(k).procs.next_pid + 1,
        solo::one_answer(old(k)) matches Err(e) ==> r == Err::<u64, &'static str>(e),
        solo::one_answer(old(k)) is Ok ==> first_placed(
            old(k),
            final(k),
            img@,
            elf::parsed(img@)->Ok_0.0,
            elf::parsed(img@)->Ok_0.1,
            r,
        ),
        r matches Ok(pid) ==> {
            let segs = elf::parsed(img@)->Ok_0.1;
            let root = accounts::root_of(final(k), pid);
            &&& pid == old(k).procs.next_pid
            &&& final(k).fa.available() == old(k).fa.available() - 8
            &&& exists|f: u64| #[trigger] stack_at(final(k), root, f)
            &&& proc::entered(&final(k).procs, pid, "m4First")
            &&& cap::slots_of(&final(k).procs, pid) == Some(m3::blank_space())
            &&& only_first(final(k), root, segs)
            &&& !elf::in_image(segs, stack_page()) ==> {
                &&& alone(old(k), final(k), pid)
                &&& exists|pre: Kernel| #[trigger] image_stands(&pre, final(k), root, img@, segs)
            }
        },
{
    let ghost k0 = *k;
    let ghost entry = elf::parsed(img@)->Ok_0.0;
    let ghost segs = elf::parsed(img@)->Ok_0.1;
    let q: Result<u64, &'static str> = first_load(k, img);
    let ghost k3 = *k;
    let pid: u64 = match q {
        Err(e) => {
            proof {
                if solo::one_answer(&k0) is Ok {
                    assert(first_course(&k0, k, img@, entry, segs, Err(e), k3, q));
                }
            }
            return Err(e);
        },
        Ok(p) => p,
    };
    proof {
        elf::law_accepted_images(img@);
        solo::lemma_solo_facts(&k0, &k3, pid, Set::empty());
        lemma_first_free(&k0, &k3, img@, entry, segs, q);
    }
    if let Err(e) = first_stack(k, pid, Ghost(k0), Ghost(img@), Ghost(segs)) {
        assert(first_course(&k0, k, img@, entry, segs, Err(e), k3, q));
        return Err(e);
    }
    proof {
        let f = choose|f: u64| #[trigger] stack_put(&k3, k, accounts::root_of(&k3, pid), f);
        assert(stack_at(k, accounts::root_of(k, pid), f));
        let res: Result<u64, &'static str> = if k0.fa.free - k.fa.free == 8 {
            Ok(pid)
        } else {
            Err("create+load+stack did not spend exactly 8 frames (root+3 tables+4 leaves)")
        };
        assert(first_course(&k0, k, img@, entry, segs, res, k3, q));
    }
    let spent: u64 = baseline - frames::free_frames(&k.fa);
    if spent != 8 {
        return Err("create+load+stack did not spend exactly 8 frames (root+3 tables+4 leaves)");
    }
    Ok(pid)
}

/// Put the first process in place: its image, as the loader places it, and a
/// zeroed stack.
#[verifier::spinoff_prover]
pub fn first_process_open(k: &mut Kernel, img: &[u8]) -> (r: Result<FirstProcess, &'static str>)
    requires
        old(k).wf(),
        old(k).procs.next_pid < u64::MAX,
        m3::live_root_stands(old(k)),
    ensures
        final(k).wf(),
        proc::kept(&old(k).procs, &final(k).procs),
        rest::kept(old(k), final(k)),
        r is Ok ==> final(k).procs.next_pid == old(k).procs.next_pid + 1,
        first_answer(
            old(k),
            final(k),
            img@,
            match r {
                Ok(d) => Ok(d.pid),
                Err(e) => Err(e),
            },
        ),
        m4::payload_answer(img@) is Ok && solo::one_answer(old(k)) is Ok ==> first_payload(
            old(k),
            img@,
            r,
        ),
        r matches Ok(d) ==> first_stands(old(k), final(k), img@, d),
{
    let ghost k0 = *k;
    let baseline: u64 = frames::free_frames(&k.fa);
    let (msg_off, msg_len, exit_ok): (usize, u64, u64) = match read_told(img) {
        Err(e) => {
            proof {
                rest::lemma_same(&k0, k);
                if m4::payload_answer(img@) is Ok {
                    lemma_payload_told(img@, elf::parsed(img@)->Ok_0.1);
                }
            }
            return Err(e);
        },
        Ok(t) => t,
    };
    let q = first_place(k, img, baseline);
    proof {
        if m4::payload_answer(img@) is Ok && solo::one_answer(&k0) is Ok {
            lemma_first_payload(&k0, k, img@, elf::parsed(img@)->Ok_0.1, q);
        }
    }
    match q {
        Err(e) => Err(e),
        Ok(pid) => {
            let d = FirstProcess { pid, msg_off, msg_len, exit_ok, baseline };
            assert(told(img@, elf::parsed(img@)->Ok_0.1, d));
            Ok(d)
        },
    }
}

/// The payload tells of a message within its text.
proof fn lemma_payload_told(b: Seq<u8>, segs: Seq<SegInfo>)
    requires
        m4::is_payload(b, segs),
    ensures
        told_fault(b, segs) is None,
{
    m4::lemma_payload_pages(b, segs);
}

/// A load that went well took what is missing from the pool.
proof fn lemma_first_free(
    k0: &Kernel,
    k3: &Kernel,
    b: Seq<u8>,
    entry: u64,
    segs: Seq<SegInfo>,
    q: Result<u64, &'static str>,
)
    requires
        k0.wf(),
        exists|p: (Kernel, Option<&'static str>)| #[trigger]
            first_loaded(k0, k3, b, entry, segs, q, p),
    ensures
        k3.fa.free <= k0.fa.free - 1,
        k0.fa.free - k0.fa.available() == k3.fa.free - k3.fa.available(),
{
    let p = choose|p: (Kernel, Option<&'static str>)| #[trigger]
        first_loaded(k0, k3, b, entry, segs, q, p);
    let k2 = p.0;
    solo::lemma_solo_facts(k0, &k2, k0.procs.next_pid, Set::empty());
    m4::lemma_tried_frames(
        &k2,
        k3,
        accounts::root_of(&k2, k0.procs.next_pid),
        b,
        segs,
        p.1,
    );
}

/// What loading the payload comes to.
#[verifier::spinoff_prover]
proof fn lemma_first_payload(
    k0: &Kernel,
    k: &Kernel,
    b: Seq<u8>,
    segs: Seq<SegInfo>,
    r: Result<u64, &'static str>,
)
    requires
        k0.wf(),
        m4::is_payload(b, segs),
        first_placed(k0, k, b, m4::PAYLOAD_ENTRY, segs, r),
    ensures
        ({
            let room = k0.fa.available();
            if segs[1].memsz == 0x2000 {
                if room < 7 {
                    r is Err && elf::out_of_frames(r->Err_0)
                } else if room == 7 {
                    r == Err::<u64, &'static str>("no frame for the process stack")
                } else {
                    r is Ok
                }
            } else {
                if room < 1 + elf::fresh_cost(segs) {
                    r is Err && elf::out_of_frames(r->Err_0)
                } else {
                    r == Err::<u64, &'static str>(
                        "loader did not place the image at its linked identity",
                    )
                }
            }
        }),
{
    let (k3, q) = choose|k3: Kernel, q: Result<u64, &'static str>| #[trigger]
        first_course(k0, k, b, m4::PAYLOAD_ENTRY, segs, r, k3, q);
    let p = choose|p: (Kernel, Option<&'static str>)| #[trigger]
        first_loaded(k0, &k3, b, m4::PAYLOAD_ENTRY, segs, q, p);
    let k2 = p.0;
    let pid = k0.procs.next_pid;
    m4::lemma_payload_pages(b, segs);
    solo::lemma_solo_facts(k0, &k2, pid, Set::empty());
    lemma_first_target(&k2, pid, b, segs);
    m4::lemma_bare_cost(&k2, accounts::root_of(&k2, pid), b, segs);
    m4::lemma_tried_frames(&k2, &k3, accounts::root_of(&k2, pid), b, segs, p.1);
    frames::lemma_free_bounds(k3.fa.map@, frames::FRAME_COUNT as int);
    reveal(m4::image_tried);
}

/// Writing a frame that is no table changes nothing on the walk to a page.
proof fn lemma_missing_written(k: &Kernel, k1: &Kernel, root: int, v: int, f: int)
    requires
        k.wf(),
        drills::rewritten(k, k1, f),
        f % 4096 == 0,
        0 <= f,
        !k.pg.mem.seats@.dom().contains(f),
        paging::is_root(k.pg.mem.seats@, root),
        0 <= v < USER_PAGES,
    ensures
        paging::missing(k1.pg.mem.words@, root, v) == paging::missing(k.pg.mem.words@, root, v),
{
    let w0 = k.pg.mem.words@;
    let w1 = k1.pg.mem.words@;
    paging::lemma_apart(w0, w1, k.pg.mem.seats@, f);
    paging::lemma_path(w0, k.pg.mem.seats@, root, v);
    let a = paging::entry(w0, root, paging::idx4(v));
    assert(paging::entry(w1, root, paging::idx4(v)) == a);
    if paging::present(a) {
        let b = paging::entry(w0, paging::addr(a), paging::idx3(v));
        assert(paging::entry(w1, paging::addr(a), paging::idx3(v)) == b);
        if paging::present(b) {
            assert(paging::entry(w1, paging::addr(b), paging::idx2(v)) == paging::entry(
                w0,
                paging::addr(b),
                paging::idx2(v),
            ));
        }
    }
}

/// Take the first process away again.
pub fn first_process_close(k: &mut Kernel, d: &FirstProcess) -> (r: Result<(), &'static str>)
    requires
        exists|b: Kernel| #[trigger] alone(&b, old(k), d.pid),
    ensures
        final(k).wf(),
        forall|b: Kernel| #[trigger]
            alone(&b, old(k), d.pid) ==> accounts::same_frames(&b.fa, &final(k).fa)
                && m3::same_processes(&b.procs, &final(k).procs),
        final(k).procs.next_pid == old(k).procs.next_pid,
        final(k).procs.created == old(k).procs.created,
        rest::kept_but(
            old(k),
            final(k),
            Set::empty().insert(accounts::root_of(old(k), d.pid)),
            rest::free_in(final(k)),
        ),
        r is Ok <==> final(k).fa.free == d.baseline,
        r matches Err(e) ==> e == "destroy did not reclaim image+stack+tables exactly",
{
    close_alone(k, d.pid, d.baseline, "destroy did not reclaim image+stack+tables exactly")
}

/// The word that is read at `va` under `root`; None if nothing is mapped there.
pub open spec fn word_at(words: Seq<u64>, root: int, va: int) -> Option<u64> {
    match paging::leaf(words, root, paging::page_no(va)) {
        Some(e) => if (paging::addr(e) + va % 4096) / 8 < words.len() {
            Some(words[(paging::addr(e) + va % 4096) / 8])
        } else {
            None
        },
        None => None,
    }
}

fn read_word(mem: &PhysMem, root: u64, va: u64) -> (r: Option<u64>)
    requires
        paging::tables_wf(mem.words@, mem.seats@),
        paging::is_root(mem.seats@, root as int),
    ensures
        r == word_at(mem.words@, root as int, va as int),
{
    match paging::translate(mem, root, va) {
        None => None,
        Some(e) => {
            let base: u64 = e & paging::ADDR_MASK;
            proof {
                paging::lemma_mask(e);
            }
            let q: u64 = (base + va % 4096) / 8;
            if q < mem.words.len() as u64 {
                Some(mem.words[q as usize])
            } else {
                None
            }
        },
    }
}

/// What the kernel keeps at its slot for the end of an interrupt: the alias of
/// the local interrupt controller's register.
pub open spec fn eoi_word(apic: u64) -> u64 {
    vstd::wrapping::u64_specs::wrapping_add(views::mmio_alias(apic), 0xB0)
}

/// Whether the kernel's half is one for both roots at `slot_va`: the walks go
/// through the same entries, and the kernel's word is read under either.
fn half_is_one(k: &Kernel, root: u64, slot_va: u64) -> (r: bool)
    requires
        k.wf(),
        paging::is_root(k.pg.mem.seats@, root as int),
    ensures
        r == ({
            let words = k.pg.mem.words@;
            let kr = k.pg.kernel_root as int;
            let v = paging::page_no(slot_va as int);
            &&& word_at(words, kr, slot_va as int) == Some(eoi_word(k.pg.apic_base))
            &&& word_at(words, root as int, slot_va as int) == word_at(words, kr, slot_va as int)
            &&& paging::chain(words, root as int, v) == paging::chain(words, kr, v)
        }),
{
    let kr: u64 = views::kernel_cr3_phys(&k.pg);
    let kv: [u64; 4] = paging::walk_chain(&k.pg.mem, kr, slot_va);
    let pv: [u64; 4] = paging::walk_chain(&k.pg.mem, root, slot_va);
    let same: bool = kv[0] == pv[0] && kv[1] == pv[1] && kv[2] == pv[2] && kv[3] == pv[3];
    proof {
        if same {
            assert(kv@ =~= pv@);
        }
    }
    let want: u64 = views::mmio_alias_va(views::apic_base_phys(&k.pg)).wrapping_add(0xB0);
    match (read_word(&k.pg.mem, kr, slot_va), read_word(&k.pg.mem, root, slot_va)) {
        (Some(x), Some(y)) => y == x && x == want && same,
        _ => false,
    }
}

/// The process `pid` was made as `k2` and given its window as `k`.
pub open spec fn user_window(
    k0: &Kernel,
    k2: &Kernel,
    k: &Kernel,
    q: Result<[u64; 3], &'static str>,
) -> bool {
    &&& solo::fresh_solo(k0, k2, k0.procs.next_pid)
    &&& window::set_up(
        k2,
        k,
        accounts::root_of(k2, k0.procs.next_pid),
        &window::u3_window(),
        &window::u3_refusals(),
        payloads::payload_a_code(),
        payloads::payload_a_code().len() as int,
        payloads::u3_msg_a_bytes(),
        false,
        q,
    )
}

/// What making the user process of the accounting test comes to.
pub open spec fn user_opened(
    k0: &Kernel,
    k: &Kernel,
    slot_va: u64,
    r: Result<SoloDemo, &'static str>,
) -> bool {
    let pid = k0.procs.next_pid;
    match solo::one_answer(k0) {
        Err(e) => r == Err::<SoloDemo, &'static str>(e),
        Ok(_) => {
            ||| {
                &&& r == Err::<SoloDemo, &'static str>(
                    "kernel half diverged between the kernel view and the process clone",
                )
                &&& solo::fresh_solo(k0, k, pid)
                &&& word_at(k.pg.mem.words@, k.pg.kernel_root as int, slot_va as int) != Some(
                    eoi_word(k.pg.apic_base),
                )
            }
            ||| exists|k2: Kernel, q: Result<[u64; 3], &'static str>|
                {
                    &&& #[trigger] user_window(k0, &k2, k, q)
                    &&& word_at(
                        k2.pg.mem.words@,
                        k2.pg.kernel_root as int,
                        slot_va as int,
                    ) == Some(eoi_word(k2.pg.apic_base))
                    &&& match q {
                        Err(e) => r == Err::<SoloDemo, &'static str>(e),
                        Ok(_) => r == Ok::<SoloDemo, &'static str>(
                            SoloDemo { pid, baseline: k0.fa.free },
                        ) && alone(k0, k, pid) && proc::entered(&k.procs, pid, "u3proc"),
                    }
                }
        },
    }
}

/// Put the user process of the accounting test in place: its kernel half is
/// the kernel's, and its window shows the first payload and its message.
#[verifier::spinoff_prover]
#[verifier::rlimit(60)]
pub fn process_accounting_open(k: &mut Kernel, slot_va: u64) -> (r: Result<SoloDemo, &'static str>)
    requires
        old(k).wf(),
        old(k).procs.next_pid < u64::MAX,
        m3::live_root_stands(old(k)),
        paging::page_no(slot_va as int) >= USER_PAGES,
    ensures
        final(k).wf(),
        proc::kept(&old(k).procs, &final(k).procs),
        rest::kept(old(k), final(k)),
        r is Ok ==> final(k).procs.next_pid == old(k).procs.next_pid + 1,
        user_opened(old(k), final(k), slot_va, r),
{
    let ghost k0 = *k;
    let ghost none = Set::<int>::empty();
    let (code, msg_off) = build_payload_a();
    let msg: [u8; 18] = payloads::u3_msg_a();
    let before: u64 = frames::free_frames(&k.fa);
    let pid: u64 = match solo::open_solo(k, "u3proc") {
        Err(e) => {
            return Err(e);
        },
        Ok(p) => p,
    };
    let ghost k2 = *k;
    let ghost root = accounts::root_of(&k2, pid);
    proof {
        solo::lemma_solo_facts(&k0, &k2, pid, none);
        proc::lemma_find_bounds(k2.procs.slots@, pid);
        let v = paging::page_no(slot_va as int);
        assert(paging::leaf(k2.pg.mem.words@, root, v) == paging::leaf(
            k2.pg.mem.words@,
            k2.pg.kernel_root as int,
            v,
        ));
        assert(paging::chain(k2.pg.mem.words@, root, v) == paging::chain(
            k2.pg.mem.words@,
            k2.pg.kernel_root as int,
            v,
        ));
    }
    let at: u64 = match proc::pml4_of(&k.procs, pid) {
        None => {
            return Err("u3proc PML4 vanished");
        },
        Some(x) => x,
    };
    if !half_is_one(k, at, slot_va) {
        return Err("kernel half diverged between the kernel view and the process clone");
    }
    proof {
        payloads::lemma_payload_a_split();
    }
    let text: &[u8] = vstd::slice::slice_subrange(code.as_slice(), 0, msg_off);
    assert(text@ =~= payloads::payload_a_code());
    let q = window::u3_setup_in(k, at, text, msg_off, &msg);
    let ghost qq = window::frames_of(q);
    assert(user_window(&k0, &k2, k, qq));
    proof {
        rest::lemma_set_up(
            &k2,
            k,
            root,
            &window::u3_window(),
            &window::u3_refusals(),
            payloads::payload_a_code(),
            payloads::payload_a_code().len() as int,
            payloads::u3_msg_a_bytes(),
            false,
            qq,
        );
        solo::lemma_solo_new(&k0, &k2, pid, none);
        rest::lemma_mine(&k0, &k2, k, root);
    }
    match q {
        Err(e) => Err(e),
        Ok((p, _)) => {
            proof {
                let w = window::u3_window();
                assert(window::window_added(&k2, k, root, &w, p));
                window::law_window_is_charged(k2, *k, root, w, p);
                assert(accounts::tidy(&k2, root)) by {
                    reveal(solo::solo_up);
                }
                assert(pairs::root_step(&k2, k, root));
                solo::lemma_solo_charge(&k0, &k2, k, pid, none);
            }
            Ok(SoloDemo { pid, baseline: before })
        },
    }
}

/// Take the user process of the accounting test away again.
pub fn process_accounting_close(k: &mut Kernel, d: &SoloDemo) -> (r: Result<(), &'static str>)
    requires
        exists|b: Kernel| #[trigger] alone(&b, old(k), d.pid),
    ensures
        final(k).wf(),
        forall|b: Kernel| #[trigger]
            alone(&b, old(k), d.pid) ==> accounts::same_frames(&b.fa, &final(k).fa)
                && m3::same_processes(&b.procs, &final(k).procs),
        final(k).procs.next_pid == old(k).procs.next_pid,
        final(k).procs.created == old(k).procs.created,
        rest::kept_but(
            old(k),
            final(k),
            Set::empty().insert(accounts::root_of(old(k), d.pid)),
            rest::free_in(final(k)),
        ),
        r is Ok <==> final(k).fa.free == d.baseline,
        r matches Err(e) ==> e == "in-process round frame accounting is not exact",
{
    close_alone(k, d.pid, d.baseline, "in-process round frame accounting is not exact")
}

/// A process with a data page that is read when it has run.
#[derive(Clone, Copy, Debug)]
pub struct DataDemo {
    pub pid: u64,
    /// The frame of the data page.
    pub data: u64,
    pub baseline: u64,
}

/// The process was made as `k2` and given its window, with `code`, as `k`.
pub open spec fn device_window(
    k0: &Kernel,
    k2: &Kernel,
    k: &Kernel,
    code: Seq<u8>,
    q: Result<[u64; 3], &'static str>,
) -> bool {
    &&& solo::fresh_solo(k0, k2, k0.procs.next_pid)
    &&& window::set_up(
        k2,
        k,
        accounts::root_of(k2, k0.procs.next_pid),
        &window::m5_window(),
        &window::m5_refusals(),
        code,
        0,
        Seq::empty(),
        true,
        q,
    )
}

/// What making a process with `code` in its window comes to, under `name`.
pub open spec fn device_opened(
    k0: &Kernel,
    k: &Kernel,
    name: &'static str,
    code: Seq<u8>,
    r: Result<DataDemo, &'static str>,
) -> bool {
    let pid = k0.procs.next_pid;
    match solo::one_answer(k0) {
        Err(e) => r == Err::<DataDemo, &'static str>(e),
        Ok(_) => exists|k2: Kernel, q: Result<[u64; 3], &'static str>|
            {
                &&& #[trigger] device_window(k0, &k2, k, code, q)
                &&& match q {
                    Err(e) => r == Err::<DataDemo, &'static str>(e),
                    Ok(p) => r == Ok::<DataDemo, &'static str>(
                        DataDemo { pid, data: p@[1], baseline: k0.fa.free },
                    ) && alone(k0, k, pid) && cap::slots_of(&k.procs, pid) == Some(
                        m3::blank_space(),
                    ) && proc::entered(&k.procs, pid, name),
                }
            },
    }
}

#[verifier::spinoff_prover]
#[verifier::rlimit(60)]
fn device_open(k: &mut Kernel, name: &'static str, code: &[u8]) -> (r: Result<
    DataDemo,
    &'static str,
>)
    requires
        old(k).wf(),
        old(k).procs.next_pid < u64::MAX,
        m3::live_root_stands(old(k)),
        code@.len() <= 4096,
    ensures
        final(k).wf(),
        proc::kept(&old(k).procs, &final(k).procs),
        rest::kept(old(k), final(k)),
        r is Ok ==> final(k).procs.next_pid == old(k).procs.next_pid + 1,
        device_opened(old(k), final(k), name, code@, r),
{
    let ghost k0 = *k;
    let ghost none = Set::<int>::empty();
    let baseline: u64 = frames::free_frames(&k.fa);
    let pid: u64 = match solo::open_solo(k, name) {
        Err(e) => {
            return Err(e);
        },
        Ok(p) => p,
    };
    let ghost k2 = *k;
    let ghost root = accounts::root_of(&k2, pid);
    proof {
        solo::lemma_solo_facts(&k0, &k2, pid, none);
        proc::lemma_find_bounds(k2.procs.slots@, pid);
    }
    let at: u64 = match proc::pml4_of(&k.procs, pid) {
        None => {
            return Err("process lost its pml4");
        },
        Some(x) => x,
    };
    let r = window::m5_setup(k, at, code);
    let ghost q = choose|q: Result<[u64; 3], &'static str>|
        {
            &&& #[trigger] window::set_up(
                &k2,
                k,
                root,
                &window::m5_window(),
                &window::m5_refusals(),
                code@,
                0,
                Seq::<u8>::empty(),
                true,
                q,
            )
            &&& r == (match q {
                Ok(p) => Ok::<(u64, u64), &'static str>((p@[1], k.fa.free)),
                Err(e) => Err(e),
            })
        };
    assert(device_window(&k0, &k2, k, code@, q));
    proof {
        rest::lemma_set_up(
            &k2,
            k,
            root,
            &window::m5_window(),
            &window::m5_refusals(),
            code@,
            0,
            Seq::empty(),
            true,
            q,
        );
        solo::lemma_solo_new(&k0, &k2, pid, none);
        rest::lemma_mine(&k0, &k2, k, root);
    }
    match r {
        Err(e) => Err(e),
        Ok((data, _)) => {
            proof {
                let p = q->Ok_0;
                let w = window::m5_window();
                assert(window::window_added(&k2, k, root, &w, p));
                window::law_window_is_charged(k2, *k, root, w, p);
                assert(accounts::tidy(&k2, root)) by {
                    reveal(solo::solo_up);
                }
                assert(pairs::root_step(&k2, k, root));
                solo::lemma_solo_charge(&k0, &k2, k, pid, none);
            }
            Ok(DataDemo { pid, data, baseline })
        },
    }
}

/// Put the process in place that asks for frames of its own; the two numbers
/// are those of the system calls it makes.
pub fn untyped_alloc_open(k: &mut Kernel, alloc_nr: u32, map_nr: u32) -> (r: Result<
    DataDemo,
    &'static str,
>)
    requires
        old(k).wf(),
        old(k).procs.next_pid < u64::MAX,
        m3::live_root_stands(old(k)),
    ensures
        final(k).wf(),
        proc::kept(&old(k).procs, &final(k).procs),
        rest::kept(old(k), final(k)),
        r is Ok ==> final(k).procs.next_pid == old(k).procs.next_pid + 1,
        device_opened(
            old(k),
            final(k),
            "m5-untyped",
            payloads::untyped_code(alloc_nr, map_nr),
            r,
        ),
{
    let code: Vec<u8> = build_untyped_payload(alloc_nr, map_nr);
    device_open(k, "m5-untyped", code.as_slice())
}

/// Take the process that asked for frames away again.
pub fn untyped_alloc_close(k: &mut Kernel, d: &DataDemo) -> (r: Result<(), &'static str>)
    requires
        exists|b: Kernel| #[trigger] alone(&b, old(k), d.pid),
    ensures
        final(k).wf(),
        forall|b: Kernel| #[trigger]
            alone(&b, old(k), d.pid) ==> accounts::same_frames(&b.fa, &final(k).fa)
                && m3::same_processes(&b.procs, &final(k).procs),
        final(k).procs.next_pid == old(k).procs.next_pid,
        final(k).procs.created == old(k).procs.created,
        rest::kept_but(
            old(k),
            final(k),
            Set::empty().insert(accounts::root_of(old(k), d.pid)),
            rest::free_in(final(k)),
        ),
        r is Ok <==> final(k).fa.free == d.baseline,
        r matches Err(e) ==> e == "untyped demo teardown is not frame-exact",
{
    close_alone(k, d.pid, d.baseline, "untyped demo teardown is not frame-exact")
}

/// Put the process in place that maps a device's registers.
pub fn mmio_user_open(k: &mut Kernel, map_nr: u32) -> (r: Result<DataDemo, &'static str>)
    requires
        old(k).wf(),
        old(k).procs.next_pid < u64::MAX,
        m3::live_root_stands(old(k)),
    ensures
        final(k).wf(),
        proc::kept(&old(k).procs, &final(k).procs),
        rest::kept(old(k), final(k)),
        r is Ok ==> final(k).procs.next_pid == old(k).procs.next_pid + 1,
        device_opened(old(k), final(k), "m5-mmio", payloads::mmio_code(map_nr), r),
{
    let code: Vec<u8> = build_mmio_payload(map_nr);
    device_open(k, "m5-mmio", code.as_slice())
}

/// Take the process that mapped a device away again.
pub fn mmio_user_close(k: &mut Kernel, d: &DataDemo) -> (r: Result<(), &'static str>)
    requires
        exists|b: Kernel| #[trigger] alone(&b, old(k), d.pid),
    ensures
        final(k).wf(),
        forall|b: Kernel| #[trigger]
            alone(&b, old(k), d.pid) ==> accounts::same_frames(&b.fa, &final(k).fa)
                && m3::same_processes(&b.procs, &final(k).procs),
        final(k).procs.next_pid == old(k).procs.next_pid,
        final(k).procs.created == old(k).procs.created,
        rest::kept_but(
            old(k),
            final(k),
            Set::empty().insert(accounts::root_of(old(k), d.pid)),
            rest::free_in(final(k)),
        ),
        r is Ok <==> final(k).fa.free == d.baseline,
        r matches Err(e) ==> e
            == "mmio demo teardown is not frame-exact (did the walk free a device page?)",
{
    close_alone(
        k,
        d.pid,
        d.baseline,
        "mmio demo teardown is not frame-exact (did the walk free a device page?)",
    )
}

/// The word at byte `off` of the frame of a data page.
pub fn data_word(mem: &PhysMem, data: u64, off: u64) -> (r: u64)
    requires
        data + off <= u64::MAX,
        (data + off) % 8 == 0,
        (data + off) / 8 < mem.words@.len(),
    ensures
        r == mem.words@[(data + off) / 8],
{
    let n: usize = mem.words.len();
    assert((data + off) / 8 < n);
    mem.words[((data + off) / 8) as usize]
}

} // verus!
