//! Memory and processes together.

use vstd::prelude::*;
use crate::frames::FrameAllocator;
use crate::proc::ProcTable;
use crate::views;
use crate::views::Paging;

verus! {

/// The frame pool, the address spaces, and the processes that live in them.
pub struct Kernel {
    pub fa: FrameAllocator,
    pub pg: Paging,
    pub procs: ProcTable,
}

impl Kernel {
    /// Each part is in order, the kernel's view stands, and every process has
    /// a root of its own that borrows the kernel's upper half.
    pub open spec fn wf(&self) -> bool {
        &&& self.fa.ready
        &&& self.pg.wf(&self.fa)
        &&& self.pg.kernel_built()
        &&& self.procs.wf()
        &&& forall|i: int|
            0 <= i < self.procs.slots@.len() && #[trigger] self.procs.slots@[i] is Some
                ==> views::process_root(
                &self.pg.mem,
                self.pg.kernel_root as int,
                self.procs.slots@[i]->0.pml4_phys as int,
            )
        &&& forall|i: int, j: int|
            0 <= i < j < self.procs.slots@.len() && #[trigger] self.procs.slots@[i] is Some
                && #[trigger] self.procs.slots@[j] is Some ==> self.procs.slots@[i]->0.pml4_phys
                != self.procs.slots@[j]->0.pml4_phys
    }
}

} // verus!
