//! What a user program is told.

use crate::cap::CapObj;
use crate::laws::calls;
use crate::laws::calls::{leads, may, Call, World};
use crate::laws::editing;
use crate::laws::messages;
use crate::laws::messages::roomy;
use crate::status::Status;
use crate::syscall;
use crate::syscall::Outcome;
use vstd::prelude::*;

verus! {

proof fn lemma_negative()
    by (bit_vector)
    ensures
        (-1i64) as u64 == 0xFFFF_FFFF_FFFF_FFFFu64,
        (-2i64) as u64 == 0xFFFF_FFFF_FFFF_FFFEu64,
        (-3i64) as u64 == 0xFFFF_FFFF_FFFF_FFFDu64,
        (-4i64) as u64 == 0xFFFF_FFFF_FFFF_FFFCu64,
{
}

/// A number that no call has is answered with minus one, and nothing changes
/// but a count.
#[verifier::rlimit(40)]
pub proof fn law_unknown_numbers(w: World, x: World, k: Call)
    requires
        leads(w, x, k),
        k.nr == 0 || k.nr == 3 || k.nr > 15,
    ensures
        k.o == (Outcome::Return { rax: 0xFFFF_FFFF_FFFF_FFFF }),
        x.ipc == w.ipc,
        x.t == w.t,
        x.con == w.con,
        x.f == w.f,
        x.s.exits == w.s.exits,
        x.s.stats.invalid_nr == (w.s.stats.invalid_nr + 1) as u64,
{
    lemma_negative();
}

/// A call that is refused gets a small negative answer, and leaves every
/// endpoint, notification and process and the console as they were.
#[verifier::rlimit(40)]
pub proof fn law_refusal_changes_nothing(w: World, x: World, k: Call)
    requires
        leads(w, x, k),
        k.o is Return,
        7 <= k.nr <= 15,
    ensures
        k.o->Return_rax == 0xFFFF_FFFF_FFFF_FFFE || k.o->Return_rax == 0xFFFF_FFFF_FFFF_FFFD
            || k.o->Return_rax == 0xFFFF_FFFF_FFFF_FFFC,
        x.ipc.eps == w.ipc.eps,
        x.ipc.notifs == w.ipc.notifs,
        x.t == w.t,
        editing::lines(x.con) == editing::lines(w.con),
        x.con.edit@ == w.con.edit@,
        x.con.waiter == w.con.waiter,
{
    lemma_negative();
    editing::lemma_lines(w.con);
    editing::lemma_lines(x.con);
}

/// A debug write of up to 256 bytes of the caller's own memory is accepted.
#[verifier::rlimit(40)]
pub proof fn law_debug_write_is_accepted(w: World, x: World, k: Call)
    requires
        leads(w, x, k),
        k.nr == 1,
        1 <= k.a[1] <= 256,
        k.a[0] != 0,
        roomy(k.c, k.a[0] as int, k.a[1] as int),
    ensures
        k.o == (Outcome::Write { buf: k.a[0], len: k.a[1] }),
{
    messages::lemma_roomy(k.c, k.a[0], k.a[1]);
}

/// A reader of the console gets the oldest line that waits, as far as its
/// buffer goes; with none it sleeps.
#[verifier::rlimit(40)]
pub proof fn law_console_is_read(w: World, x: World, k: Call)
    requires
        leads(w, x, k),
        k.nr == 13,
        1 <= k.a[1] <= 120,
        k.a[0] != 0,
        roomy(k.c, k.a[0] as int, k.a[1] as int),
        w.con.waiter == 0xFFFF_FFFF_FFFF_FFFF,
    ensures
        k.o matches Outcome::Line { line, buf, max } && {
            let lines = editing::lines(w.con);
            &&& buf == k.a[0] && max == k.a[1]
            &&& lines.len() == 0 ==> line is None && x.con.waiter == k.c.tid
            &&& lines.len() > 0 ==> {
                &&& line is Some
                &&& line->0@.len() == k.a[1] || line->0@.len() == lines[0].len()
                &&& line->0@.len() <= k.a[1] && line->0@.len() <= lines[0].len()
                &&& forall|i: int| 0 <= i < line->0@.len() ==> #[trigger] line->0@[i] == lines[0][i]
                &&& editing::lines(x.con) == lines.drop_first()
            }
        },
{
    messages::lemma_roomy(k.c, k.a[0], k.a[1]);
    let r = choose|r: Result<Option<Vec<u8>>, Status>|
        #[trigger] syscall::line_read(
            &w.con,
            &x.con,
            &k.c,
            k.a[0],
            k.a[1],
            crate::console::bytes_of(r),
        ) && k.o == syscall::after_line(r, k.a[0], k.a[1]);
    editing::law_oldest_line_is_read(
        w.con,
        x.con,
        k.c.tid,
        k.a[1] as nat,
        crate::console::bytes_of(r),
    );
}

/// A spawn is accepted from every process that may read the image. Without
/// capabilities and without a notification it asks for nothing more.
#[verifier::rlimit(40)]
pub proof fn law_spawn_is_accepted(w: World, x: World, k: Call, img: u32)
    requires
        leads(w, x, k),
        k.nr == 12,
        may(w, k, k.a[0], CapObj::Image { img_id: img }, 1),
        k.a[2] == 0,
        k.a[3] == 0xFFFF_FFFF_FFFF_FFFF,
        k.a[4] == 0,
    ensures
        k.o matches Outcome::Spawn { request } && request.img_id == img && request.count == 0
            && request.notif is None,
{
    calls::lemma_has(w.t, k.c.pid->0, k.a[0], 1);
}

/// The six words come back mixed: each turned left by eleven bits more than the
/// one before, without the top bit.
#[verifier::rlimit(40)]
pub proof fn law_echo_mixes_six_words(w: World, x: World, k: Call)
    requires
        leads(w, x, k),
        k.nr == 6,
    ensures
        k.o == (Outcome::Return {
            rax: (k.a[0] ^ turn(k.a[1], 11) ^ turn(k.a[2], 22) ^ turn(k.a[3], 33) ^ turn(
                k.a[4],
                44,
            ) ^ turn(k.a[5], 55)) & 0x7FFF_FFFF_FFFF_FFFF,
        }),
{
}

/// The word turned left by `n` bits.
pub open spec fn turn(v: u64, n: u64) -> u64 {
    v << n | v >> ((64 - n) as u64)
}

} // verus!
