//! What typing does, byte by byte.

use crate::console;
use crate::console::{Console, Fed};
use crate::status::Status;
use vstd::prelude::*;

verus! {

/// The lines that wait, the oldest first.
pub open spec fn lines(c: Console) -> Seq<Seq<u8>> {
    Seq::new(c.q@.len(), |i: int| c.q@[i]@)
}

pub proof fn lemma_lines(c: Console)
    ensures
        c.lines() == lines(c),
{
    assert(c.lines() =~= lines(c));
}

/// What a byte does to the line that is edited. Backspace and delete take the
/// last byte away, a visible byte is added while there are fewer than 120, the
/// end of a line begins a new one, and any other byte does nothing. What was
/// done is shown.
pub proof fn law_byte_is_edited(a: Console, z: Console, b: u8, r: Fed)
    requires
        a.wf(),
        console::byte_fed(&a, &z, b, r),
    ensures
        b == 0x08 || b == 0x7F ==> if a.edit@.len() > 0 {
            &&& z.edit@ == a.edit@.drop_last()
            &&& r.echo@ == seq![0x08u8, 0x20u8, 0x08u8]
        } else {
            z.edit@ == a.edit@ && r.echo@.len() == 0
        },
        0x20 <= b < 0x7F ==> if a.edit@.len() < 120 {
            &&& z.edit@ == a.edit@.push(b)
            &&& r.echo@ == seq![b]
        } else {
            z.edit@ == a.edit@ && r.echo@.len() == 0
        },
        b == 0x0A || b == 0x0D ==> z.edit@.len() == 0 && r.echo@ == seq![0x0Du8, 0x0Au8],
        !(b == 0x08 || b == 0x7F || 0x20 <= b < 0x7F || b == 0x0A || b == 0x0D) ==> z.edit@
            == a.edit@ && r.echo@.len() == 0,
        z.waiter == a.waiter,
{
}

/// Only the end of a line that is not empty adds a line to those that wait. It
/// is the newest. Where four wait already, the oldest goes. And who sleeps for
/// a line is woken just then.
pub proof fn law_line_is_queued(a: Console, z: Console, b: u8, r: Fed)
    requires
        a.wf(),
        console::byte_fed(&a, &z, b, r),
    ensures
        ({
            let ends = (b == 0x0A || b == 0x0D) && a.edit@.len() > 0;
            &&& !ends ==> lines(z) == lines(a)
            &&& ends && lines(a).len() < 4 ==> lines(z) == lines(a).push(a.edit@)
            &&& ends && lines(a).len() == 4 ==> lines(z) == lines(a).drop_first().push(a.edit@)
            &&& r.wake == (if ends && a.waiter != 0xFFFF_FFFF_FFFF_FFFF {
                Some(a.waiter)
            } else {
                None
            })
        }),
{
    lemma_lines(a);
    lemma_lines(z);
    assert(a.q@.len() <= 4);
    assert(lines(a).len() == a.q@.len());
    if lines(a).len() == 4 {
        assert(lines(a).push(a.edit@).drop_first() =~= lines(a).drop_first().push(a.edit@));
    }
}

/// A reader gets the oldest line, as far as it fits, and that line goes. With
/// none, the reader is the one to wake.
pub proof fn law_oldest_line_is_read(
    a: Console,
    z: Console,
    tid: u64,
    max: nat,
    r: Result<Option<Seq<u8>>, Status>,
)
    requires
        console::read_answer(&a, &z, tid, max, r),
    ensures
        a.waiter != 0xFFFF_FFFF_FFFF_FFFF ==> r is Err && lines(z) == lines(a) && z.waiter
            == a.waiter,
        a.waiter == 0xFFFF_FFFF_FFFF_FFFF && lines(a).len() > 0 ==> {
            &&& r matches Ok(Some(l)) && {
                &&& l.len() <= max && l.len() <= lines(a)[0].len()
                &&& l.len() == max || l.len() == lines(a)[0].len()
                &&& forall|i: int| 0 <= i < l.len() ==> #[trigger] l[i] == lines(a)[0][i]
            }
            &&& lines(z) == lines(a).drop_first()
            &&& z.waiter == a.waiter
        },
        a.waiter == 0xFFFF_FFFF_FFFF_FFFF && lines(a).len() == 0 ==> {
            &&& r matches Ok(None)
            &&& lines(z) == lines(a)
            &&& z.waiter == tid
        },
        z.edit@ == a.edit@,
{
    lemma_lines(a);
    lemma_lines(z);
}

/// A reader that was woken gets the oldest line, and sleeps no more.
pub proof fn law_woken_reader_gets_the_line(
    a: Console,
    z: Console,
    max: usize,
    r: Result<Vec<u8>, &'static str>,
)
    requires
        console::read_finished(&a, &z, max, r),
    ensures
        r is Ok <==> lines(a).len() > 0,
        r matches Ok(l) ==> {
            &&& l@.len() <= max && l@.len() <= lines(a)[0].len()
            &&& l@.len() == max || l@.len() == lines(a)[0].len()
            &&& forall|i: int| 0 <= i < l@.len() ==> #[trigger] l@[i] == lines(a)[0][i]
            &&& lines(z) == lines(a).drop_first()
            &&& z.waiter == 0xFFFF_FFFF_FFFF_FFFF
        },
        r is Err ==> z == a,
{
    lemma_lines(a);
    lemma_lines(z);
}

} // verus!
