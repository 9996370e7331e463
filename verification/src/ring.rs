//! The ready queue: a bounded ring of thread slots, first in, first out.

use vstd::prelude::*;

verus! {

pub const MAX_THREADS: usize = 64;

/// A queue of at most [`MAX_THREADS`] slot numbers.
#[derive(Clone, Copy)]
pub struct Ring {
    pub q: [usize; MAX_THREADS],
    pub head: usize,
    pub len: usize,
}

impl View for Ring {
    type V = Seq<usize>;

    /// The numbers in the order in which they will leave.
    open spec fn view(&self) -> Seq<usize> {
        Seq::new(self.len as nat, |i: int| self.q@[(self.head + i) % 64])
    }
}

impl Ring {
    pub open spec fn wf(&self) -> bool {
        self.head < MAX_THREADS && self.len <= MAX_THREADS
    }

    /// An empty queue.
    pub fn new() -> (r: Ring)
        ensures
            r.wf(),
            r@ == Seq::<usize>::empty(),
    {
        let r = Ring { q: [0;MAX_THREADS], head: 0, len: 0 };
        assert(r@ =~= Seq::<usize>::empty());
        r
    }

    /// Put a number at the end, unless the queue is full.
    pub fn push(&mut self, idx: usize) -> (ok: bool)
        requires
            old(self).wf(),
        ensures
            final(self).wf(),
            ok == (old(self)@.len() < MAX_THREADS),
            ok ==> final(self)@ == old(self)@.push(idx),
            !ok ==> *final(self) == *old(self),
    {
        if self.len == MAX_THREADS {
            return false;
        }
        let at: usize = (self.head + self.len) % MAX_THREADS;
        self.q[at] = idx;
        self.len = self.len + 1;
        proof {
            assert forall|i: int| 0 <= i < self.len implies #[trigger] self@[i] == old(
                self,
            )@.push(idx)[i] by {
                if i < old(self).len {
                    assert((self.head + i) % 64 != (self.head + old(self).len) % 64);
                }
            }
            assert(self@ =~= old(self)@.push(idx));
        }
        true
    }

    /// Take the number at the front, unless the queue is empty.
    pub fn pop(&mut self) -> (r: Option<usize>)
        requires
            old(self).wf(),
        ensures
            final(self).wf(),
            match r {
                Some(i) => {
                    &&& old(self)@.len() > 0
                    &&& i == old(self)@[0]
                    &&& final(self)@ == old(self)@.drop_first()
                },
                None => old(self)@.len() == 0 && *final(self) == *old(self),
            },
    {
        if self.len == 0 {
            return None;
        }
        let idx: usize = self.q[self.head];
        self.head = (self.head + 1) % MAX_THREADS;
        self.len = self.len - 1;
        proof {
            assert forall|i: int| 0 <= i < self.len implies #[trigger] self@[i] == old(
                self,
            )@.drop_first()[i] by {
                assert((self.head + i) % 64 == (old(self).head + (i + 1)) % 64);
            }
            assert(self@ =~= old(self)@.drop_first());
        }
        Some(idx)
    }
}

} // verus!
