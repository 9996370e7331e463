//! The console's line discipline.
//!
//! Bytes that are typed collect in an edit line. A carriage return or a line
//! feed commits the line to a short queue, from which one reader at a time
//! takes the oldest.

use vstd::prelude::*;
use crate::status::{Status, STATUS_BUSY};

verus! {

pub const LINE_MAX: usize = 120;
pub const QUEUE_DEPTH: usize = 4;

/// The thread number that stands for no thread.
pub const NO_TID: u64 = 0xFFFF_FFFF_FFFF_FFFF;

/// How often each thing has happened.
#[derive(Clone, Copy, Debug, PartialEq, Eq, Structural)]
pub struct ConsoleStats {
    pub rx_bytes: u64,
    pub lines_in: u64,
    pub dropped_lines: u64,
    pub dropped_bytes: u64,
    pub truncations: u64,
    pub reads: u64,
    pub blocks: u64,
}

impl ConsoleStats {
    /// Every counter can still count.
    pub open spec fn room(self) -> bool {
        &&& self.rx_bytes < u64::MAX
        &&& self.lines_in < u64::MAX
        &&& self.dropped_lines < u64::MAX
        &&& self.dropped_bytes < u64::MAX
        &&& self.truncations < u64::MAX
        &&& self.reads < u64::MAX
        &&& self.blocks < u64::MAX
    }
}

/// The edit line, the committed lines from the oldest on, and the reader that
/// sleeps for one.
pub struct Console {
    pub edit: Vec<u8>,
    pub q: Vec<Vec<u8>>,
    pub waiter: u64,
    pub stats: ConsoleStats,
}

/// What typing a byte asks for: bytes to send back, and a thread to wake.
pub struct Fed {
    pub echo: Vec<u8>,
    pub wake: Option<u64>,
}

impl Console {
    pub open spec fn wf(&self) -> bool {
        self.edit@.len() <= LINE_MAX && self.q@.len() <= QUEUE_DEPTH
    }

    /// The committed lines.
    pub open spec fn lines(&self) -> Seq<Seq<u8>> {
        Seq::new(self.q@.len(), |i: int| self.q@[i]@)
    }

    /// Nothing typed, nothing counted.
    pub fn new() -> (c: Console)
        ensures
            c.wf(),
            c.edit@ == Seq::<u8>::empty(),
            c.lines() == Seq::<Seq<u8>>::empty(),
            c.waiter == NO_TID,
            c.stats == (ConsoleStats {
                rx_bytes: 0,
                lines_in: 0,
                dropped_lines: 0,
                dropped_bytes: 0,
                truncations: 0,
                reads: 0,
                blocks: 0,
            }),
    {
        let c = Console {
            edit: Vec::new(),
            q: Vec::new(),
            waiter: NO_TID,
            stats: ConsoleStats {
                rx_bytes: 0,
                lines_in: 0,
                dropped_lines: 0,
                dropped_bytes: 0,
                truncations: 0,
                reads: 0,
                blocks: 0,
            },
        };
        assert(c.lines() =~= Seq::<Seq<u8>>::empty());
        c
    }
}

/// The counters.
pub fn stats(c: &Console) -> (r: ConsoleStats)
    ensures
        r == c.stats,
{
    c.stats
}

/// How many lines wait for a reader.
pub fn pending_lines(c: &Console) -> (r: usize)
    ensures
        r == c.lines().len(),
{
    c.q.len()
}

pub open spec fn erases(b: u8) -> bool {
    b == 0x08 || b == 0x7F
}

pub open spec fn commits(b: u8) -> bool {
    b == 0x0D || b == 0x0A
}

pub open spec fn printable(b: u8) -> bool {
    0x20 <= b <= 0x7E
}

/// The edit line after byte `b`.
pub open spec fn edit_after(edit: Seq<u8>, b: u8) -> Seq<u8> {
    if erases(b) && edit.len() > 0 {
        edit.drop_last()
    } else if commits(b) {
        Seq::empty()
    } else if printable(b) && edit.len() < LINE_MAX {
        edit.push(b)
    } else {
        edit
    }
}

/// The lines after one more was committed: a full queue loses its oldest.
pub open spec fn committed(lines: Seq<Seq<u8>>, line: Seq<u8>) -> Seq<Seq<u8>> {
    if lines.len() == QUEUE_DEPTH {
        lines.drop_first().push(line)
    } else {
        lines.push(line)
    }
}

/// The lines after byte `b`: only a line that is not empty is committed.
pub open spec fn lines_after(edit: Seq<u8>, lines: Seq<Seq<u8>>, b: u8) -> Seq<Seq<u8>> {
    if commits(b) && edit.len() > 0 {
        committed(lines, edit)
    } else {
        lines
    }
}

/// What is sent back for byte `b`: what was accepted, an erased place, or a
/// new line.
pub open spec fn echo_for(edit: Seq<u8>, b: u8) -> Seq<u8> {
    if erases(b) {
        if edit.len() > 0 {
            seq![0x08u8, 0x20, 0x08]
        } else {
            Seq::empty()
        }
    } else if commits(b) {
        seq![0x0Du8, 0x0A]
    } else if printable(b) && edit.len() < LINE_MAX {
        seq![b]
    } else {
        Seq::empty()
    }
}

/// The counters after byte `b`.
pub open spec fn stats_after(c: &Console, b: u8) -> ConsoleStats {
    let s = ConsoleStats { rx_bytes: (c.stats.rx_bytes + 1) as u64, ..c.stats };
    if commits(b) && c.edit@.len() > 0 {
        ConsoleStats {
            lines_in: (s.lines_in + 1) as u64,
            dropped_lines: if c.q@.len() == QUEUE_DEPTH {
                (s.dropped_lines + 1) as u64
            } else {
                s.dropped_lines
            },
            ..s
        }
    } else if printable(b) && c.edit@.len() >= LINE_MAX {
        ConsoleStats { dropped_bytes: (s.dropped_bytes + 1) as u64, ..s }
    } else {
        s
    }
}

/// Commit the edit line.
fn commit(c: &mut Console) -> (wake: Option<u64>)
    requires
        old(c).wf(),
        old(c).stats.lines_in < u64::MAX,
        old(c).stats.dropped_lines < u64::MAX,
    ensures
        final(c).wf(),
        final(c).edit@ == Seq::<u8>::empty(),
        final(c).lines() == committed(old(c).lines(), old(c).edit@),
        final(c).waiter == old(c).waiter,
        final(c).stats == (ConsoleStats {
            lines_in: (old(c).stats.lines_in + 1) as u64,
            dropped_lines: if old(c).q@.len() == QUEUE_DEPTH {
                (old(c).stats.dropped_lines + 1) as u64
            } else {
                old(c).stats.dropped_lines
            },
            ..old(c).stats
        }),
        wake == (if old(c).waiter == NO_TID {
            None::<u64>
        } else {
            Some(old(c).waiter)
        }),
{
    let ghost lines0 = c.lines();
    if c.q.len() == QUEUE_DEPTH {
        let _ = c.q.remove(0);
        c.stats.dropped_lines = c.stats.dropped_lines + 1;
    }
    let mut line: Vec<u8> = Vec::new();
    std::mem::swap(&mut line, &mut c.edit);
    c.q.push(line);
    c.stats.lines_in = c.stats.lines_in + 1;
    proof {
        assert(c.lines() =~= committed(lines0, old(c).edit@));
    }
    if c.waiter == NO_TID {
        None
    } else {
        Some(c.waiter)
    }
}

/// Byte `b` took the console from `pre` to `post`.
pub open spec fn took_byte(pre: &Console, post: &Console, b: u8) -> bool {
    &&& post.edit@ == edit_after(pre.edit@, b)
    &&& post.lines() == lines_after(pre.edit@, pre.lines(), b)
    &&& post.waiter == pre.waiter
    &&& post.stats == stats_after(pre, b)
}

/// What [`feed`] answers and does.
pub open spec fn byte_fed(
    c0: &Console,
    c1: &Console,
    b: u8,
    r: Fed,
) -> bool {
    &&& c1.wf()
    &&& took_byte(c0, c1, b)
    &&& r.echo@ == echo_for(c0.edit@, b)
    &&& r.wake == (if commits(b) && c0.edit@.len() > 0 && c0.waiter != NO_TID {
        Some(c0.waiter)
    } else {
        None::<u64>
    })
}

/// A byte was typed.
pub fn feed(c: &mut Console, b: u8) -> (r: Fed)
    requires
        old(c).wf(),
        old(c).stats.room(),
    ensures
        byte_fed(old(c), final(c), b, r),
{
    c.stats.rx_bytes = c.stats.rx_bytes + 1;
    let mut echo: Vec<u8> = Vec::new();
    let mut wake: Option<u64> = None;
    if b == 0x08 || b == 0x7F {
        if c.edit.len() > 0 {
            let _ = c.edit.pop();
            echo.push(0x08);
            echo.push(0x20);
            echo.push(0x08);
        }
    } else if b == 0x0D || b == 0x0A {
        echo.push(0x0D);
        echo.push(0x0A);
        if c.edit.len() > 0 {
            let ghost mid = *c;
            assert(mid.lines() =~= old(c).lines());
            wake = commit(c);
        }
    } else if 0x20 <= b && b <= 0x7E {
        if c.edit.len() < LINE_MAX {
            c.edit.push(b);
            echo.push(b);
        } else {
            c.stats.dropped_bytes = c.stats.dropped_bytes + 1;
        }
    }
    proof {
        assert(echo@ =~= echo_for(old(c).edit@, b));
        assert(c.edit@ =~= edit_after(old(c).edit@, b));
        assert(c.lines() =~= lines_after(old(c).edit@, old(c).lines(), b));
    }
    Fed { echo, wake }
}

/// The edit line after all of `bytes`.
pub open spec fn edit_of(edit: Seq<u8>, bytes: Seq<u8>) -> Seq<u8>
    decreases bytes.len(),
{
    if bytes.len() == 0 {
        edit
    } else {
        edit_after(edit_of(edit, bytes.drop_last()), bytes.last())
    }
}

/// The lines that `bytes` enter, from the oldest on: what stood in the edit
/// line whenever a line end found it not empty.
pub open spec fn entered(edit: Seq<u8>, bytes: Seq<u8>) -> Seq<Seq<u8>>
    decreases bytes.len(),
{
    if bytes.len() == 0 {
        Seq::empty()
    } else {
        let line = edit_of(edit, bytes.drop_last());
        let before = entered(edit, bytes.drop_last());
        if commits(bytes.last()) && line.len() > 0 {
            before.push(line)
        } else {
            before
        }
    }
}

/// How many printable bytes among `bytes` find the edit line full.
pub open spec fn overrun(edit: Seq<u8>, bytes: Seq<u8>) -> int
    decreases bytes.len(),
{
    if bytes.len() == 0 {
        0
    } else {
        overrun(edit, bytes.drop_last()) + (if printable(bytes.last()) && edit_of(
            edit,
            bytes.drop_last(),
        ).len() >= LINE_MAX {
            1int
        } else {
            0int
        })
    }
}

/// How many of `n` lines a queue cannot hold.
pub open spec fn excess(n: int) -> int {
    if n <= QUEUE_DEPTH {
        0
    } else {
        n - QUEUE_DEPTH
    }
}

/// The newest lines, as many as a queue holds.
pub open spec fn newest(lines: Seq<Seq<u8>>) -> Seq<Seq<u8>> {
    lines.skip(excess(lines.len() as int))
}

/// The consoles of `trail` follow each other as `bytes` are typed.
pub open spec fn typed(trail: Seq<Console>, bytes: Seq<u8>) -> bool {
    &&& trail.len() == bytes.len() + 1
    &&& trail[0].wf()
    &&& forall|i: int|
        0 <= i < bytes.len() ==> took_byte(#[trigger] &trail[i], &trail[i + 1], bytes[i])
}

/// Every counter that typing moves can count `n` more.
pub open spec fn can_count(s: ConsoleStats, n: int) -> bool {
    &&& s.rx_bytes + n <= u64::MAX
    &&& s.lines_in + n <= u64::MAX
    &&& s.dropped_lines + n <= u64::MAX
    &&& s.dropped_bytes + n <= u64::MAX
}

/// After any bytes the queue holds the newest four of the lines it had and
/// the lines that were entered, none of them empty, and the counters follow:
/// every byte, every line entered, every line that the queue could not hold
/// and every byte that the edit line could not hold is counted once.
#[verifier::spinoff_prover]
#[verifier::rlimit(60)]
pub proof fn law_newest_lines_wait(trail: Seq<Console>, bytes: Seq<u8>)
    requires
        typed(trail, bytes),
        can_count(trail[0].stats, bytes.len() as int),
    ensures
        ({
            let a = trail[0];
            let z = trail.last();
            let lines = entered(a.edit@, bytes);
            let all = a.lines() + lines;
            &&& z.edit@ == edit_of(a.edit@, bytes)
            &&& z.edit@.len() <= LINE_MAX
            &&& z.lines() == newest(all)
            &&& forall|i: int| 0 <= i < lines.len() ==> 0 < (#[trigger] lines[i]).len() <= LINE_MAX
            &&& lines.len() <= bytes.len()
            &&& 0 <= overrun(a.edit@, bytes) <= bytes.len()
            &&& z.waiter == a.waiter
            &&& z.stats == (ConsoleStats {
                rx_bytes: (a.stats.rx_bytes + bytes.len()) as u64,
                lines_in: (a.stats.lines_in + lines.len()) as u64,
                dropped_lines: (a.stats.dropped_lines + excess(all.len() as int)) as u64,
                dropped_bytes: (a.stats.dropped_bytes + overrun(a.edit@, bytes)) as u64,
                ..a.stats
            })
        }),
    decreases bytes.len(),
{
    let a = trail[0];
    if bytes.len() == 0 {
        assert(a.lines() + entered(a.edit@, bytes) =~= a.lines());
        assert(newest(a.lines()) =~= a.lines());
    } else {
        let bs = bytes.drop_last();
        let t = trail.drop_last();
        let n = bs.len() as int;
        assert forall|i: int| 0 <= i < bs.len() implies took_byte(#[trigger] &t[i], &t[i + 1], bs[i]) by {
            assert(took_byte(&trail[i], &trail[i + 1], bytes[i]));
        }
        law_newest_lines_wait(t, bs);
        let y = trail[n];
        let z = trail[n + 1];
        assert(t.last() == y);
        assert(took_byte(&trail[n], &trail[n + 1], bytes[n]));
        let b0 = a.lines() + entered(a.edit@, bs);
        let b1 = a.lines() + entered(a.edit@, bytes);
        if commits(bytes.last()) && y.edit@.len() > 0 {
            assert(b1 =~= b0.push(y.edit@));
            assert(newest(b1) =~= committed(newest(b0), y.edit@));
        } else {
            assert(b1 =~= b0);
        }
        assert(y.lines().len() == y.q@.len());
        assert(trail.last() == z);
    }
}

/// What a reader with room for `max` bytes gets of a line.
pub open spec fn clipped(line: Seq<u8>, max: nat) -> Seq<u8> {
    if line.len() <= max {
        line
    } else {
        line.take(max as int)
    }
}

/// Take the oldest line, as much of it as fits.
fn pop_line(c: &mut Console, max: usize) -> (r: Vec<u8>)
    requires
        old(c).wf(),
        old(c).stats.truncations < u64::MAX,
        old(c).q@.len() > 0,
    ensures
        final(c).wf(),
        final(c).edit == old(c).edit,
        final(c).waiter == old(c).waiter,
        final(c).lines() == old(c).lines().drop_first(),
        r@ == clipped(old(c).lines()[0], max as nat),
        final(c).stats == (if old(c).lines()[0].len() > max {
            ConsoleStats {
                truncations: (old(c).stats.truncations + 1) as u64,
                ..old(c).stats
            }
        } else {
            old(c).stats
        }),
{
    let line: Vec<u8> = c.q.remove(0);
    proof {
        assert(c.lines() =~= old(c).lines().drop_first());
    }
    let len: usize = line.len();
    let n: usize = if len <= max {
        len
    } else {
        max
    };
    let mut out: Vec<u8> = Vec::new();
    let mut i: usize = 0;
    while i < n
        invariant
            i <= n <= line@.len(),
            out@ == line@.take(i as int),
        decreases n - i,
    {
        out.push(line[i]);
        i = i + 1;
        assert(out@ =~= line@.take(i as int));
    }
    if n < len {
        c.stats.truncations = c.stats.truncations + 1;
    }
    proof {
        assert(out@ =~= clipped(line@, max as nat));
    }
    out
}

/// What [`read_line`] answers and does.
pub open spec fn read_answer(
    a: &Console,
    b: &Console,
    tid: u64,
    max: nat,
    r: Result<Option<Seq<u8>>, Status>,
) -> bool {
    let counted = ConsoleStats { reads: (a.stats.reads + 1) as u64, ..a.stats };
    &&& b.edit == a.edit
    &&& if a.waiter != NO_TID {
        &&& r == Err::<Option<Seq<u8>>, Status>(STATUS_BUSY)
        &&& b.lines() == a.lines()
        &&& b.waiter == a.waiter
        &&& b.stats == counted
    } else if a.lines().len() > 0 {
        &&& r == Ok::<Option<Seq<u8>>, Status>(Some(clipped(a.lines()[0], max)))
        &&& b.lines() == a.lines().drop_first()
        &&& b.waiter == NO_TID
        &&& b.stats == (if a.lines()[0].len() > max {
            ConsoleStats { truncations: (counted.truncations + 1) as u64, ..counted }
        } else {
            counted
        })
    } else {
        &&& r == Ok::<Option<Seq<u8>>, Status>(None)
        &&& b.lines() == a.lines()
        &&& b.waiter == tid
        &&& b.stats == (ConsoleStats { blocks: (counted.blocks + 1) as u64, ..counted })
    }
}

/// The bytes of an answer.
pub open spec fn bytes_of(r: Result<Option<Vec<u8>>, Status>) -> Result<Option<Seq<u8>>, Status> {
    match r {
        Ok(Some(v)) => Ok(Some(v@)),
        Ok(None) => Ok(None),
        Err(e) => Err(e),
    }
}

/// Thread `tid` reads a line with room for `max` bytes: the oldest line, or
/// sleep until one comes.
///
/// Without a line the answer is `Ok(None)`: the thread sleeps and goes on
/// with [`read_finish`]. The next line is then kept for it.
pub fn read_line(c: &mut Console, tid: u64, max: usize) -> (r: Result<Option<Vec<u8>>, Status>)
    requires
        old(c).wf(),
        old(c).stats.room(),
    ensures
        final(c).wf(),
        read_answer(old(c), final(c), tid, max as nat, bytes_of(r)),
{
    c.stats.reads = c.stats.reads + 1;
    proof {
        assert(c.lines() =~= old(c).lines());
    }
    if c.waiter == NO_TID && c.q.len() > 0 {
        let line: Vec<u8> = pop_line(c, max);
        return Ok(Some(line));
    }
    if c.waiter != NO_TID {
        return Err(STATUS_BUSY);
    }
    c.waiter = tid;
    c.stats.blocks = c.stats.blocks + 1;
    proof {
        assert(c.lines() =~= old(c).lines());
    }
    Ok(None)
}

/// What [`read_finish`] answers and does.
pub open spec fn read_finished(
    c0: &Console,
    c1: &Console,
    max: usize,
    r: Result<Vec<u8>, &'static str>,
) -> bool {
    &&& c1.wf()
    &&& c1.edit == c0.edit
    &&& if c0.lines().len() == 0 {
        &&& r == Err::<Vec<u8>, &'static str>("console: read woken without a line")
        &&& *c1 == *c0
    } else {
        &&& r matches Ok(v) && v@ == clipped(c0.lines()[0], max as nat)
        &&& c1.lines() == c0.lines().drop_first()
        &&& c1.waiter == NO_TID
        &&& c1.stats == (if c0.lines()[0].len() > max {
            ConsoleStats {
                truncations: (c0.stats.truncations + 1) as u64,
                ..c0.stats
            }
        } else {
            c0.stats
        })
    }
}

/// After a reader's sleep: the oldest line.
///
/// The kernel stops on an error.
pub fn read_finish(c: &mut Console, max: usize) -> (r: Result<Vec<u8>, &'static str>)
    requires
        old(c).wf(),
        old(c).stats.room(),
    ensures
        read_finished(old(c), final(c), max, r),
{
    if c.q.len() == 0 {
        return Err("console: read woken without a line");
    }
    let line: Vec<u8> = pop_line(c, max);
    let ghost mid = *c;
    c.waiter = NO_TID;
    assert(c.lines() =~= mid.lines());
    Ok(line)
}

/// The edit line and the committed lines after a run of bytes.
pub open spec fn fed(edit: Seq<u8>, lines: Seq<Seq<u8>>, bytes: Seq<u8>) -> (Seq<u8>, Seq<Seq<u8>>)
    decreases bytes.len(),
{
    if bytes.len() == 0 {
        (edit, lines)
    } else {
        let b = bytes[0];
        fed(edit_after(edit, b), lines_after(edit, lines, b), bytes.drop_first())
    }
}

proof fn lemma_typed(edit: Seq<u8>, lines: Seq<Seq<u8>>, s: Seq<u8>, end: u8)
    requires
        forall|i: int| 0 <= i < s.len() ==> printable(#[trigger] s[i]),
        edit.len() + s.len() <= LINE_MAX,
        edit.len() + s.len() > 0,
        commits(end),
    ensures
        fed(edit, lines, s.push(end)) == (Seq::<u8>::empty(), committed(lines, edit + s)),
    decreases s.len(),
{
    let all = s.push(end);
    if s.len() == 0 {
        assert(edit + s =~= edit);
        assert(all.drop_first() =~= Seq::<u8>::empty());
        reveal_with_fuel(fed, 2);
    } else {
        let rest = s.drop_first();
        assert(all.drop_first() =~= rest.push(end));
        assert(edit.push(s[0]) + rest =~= edit + s);
        assert forall|i: int| 0 <= i < rest.len() implies printable(#[trigger] rest[i]) by {
            assert(printable(s[i + 1]));
        }
        lemma_typed(edit.push(s[0]), lines, rest, end);
    }
}

/// What is typed is what is read. A line of printable bytes that is neither
/// empty nor too long, and its end, typed into an empty edit line, are
/// committed whole as the newest line.
pub proof fn law_typed_line(lines: Seq<Seq<u8>>, s: Seq<u8>, end: u8)
    requires
        forall|i: int| 0 <= i < s.len() ==> printable(#[trigger] s[i]),
        0 < s.len() <= LINE_MAX,
        commits(end),
    ensures
        fed(Seq::empty(), lines, s.push(end)) == (Seq::<u8>::empty(), committed(lines, s)),
{
    assert(Seq::<u8>::empty() + s =~= s);
    lemma_typed(Seq::empty(), lines, s, end);
}

/// An erase takes the last printable byte back.
pub proof fn law_erase_undoes(edit: Seq<u8>, lines: Seq<Seq<u8>>, b: u8, e: u8)
    requires
        printable(b),
        erases(e),
        edit.len() < LINE_MAX,
    ensures
        fed(edit, lines, seq![b, e]) == (edit, lines),
{
    reveal_with_fuel(fed, 3);
    assert(seq![b, e].drop_first() =~= seq![e]);
    assert(seq![e].drop_first() =~= Seq::<u8>::empty());
    assert(edit.push(b).drop_last() =~= edit);
}

/// An empty line is not queued.
pub proof fn law_empty_line(lines: Seq<Seq<u8>>, e: u8)
    requires
        commits(e),
    ensures
        fed(Seq::empty(), lines, seq![e]) == (Seq::<u8>::empty(), lines),
{
    reveal_with_fuel(fed, 2);
    assert(seq![e].drop_first() =~= Seq::<u8>::empty());
}

/// A line that is committed while a reader sleeps is kept for that reader: a
/// second one is turned away, whatever is queued.
pub proof fn law_line_is_reserved(
    a: Console,
    b: Console,
    tid: u64,
    max: nat,
    r: Result<Option<Seq<u8>>, Status>,
)
    requires
        a.waiter != NO_TID,
        read_answer(&a, &b, tid, max, r),
    ensures
        r == Err::<Option<Seq<u8>>, Status>(STATUS_BUSY),
        b.lines() == a.lines(),
        b.waiter == a.waiter,
{
}

} // verus!
