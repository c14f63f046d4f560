//! Processor-level definitions: the page size and critical sections.
use vstd::prelude::*;
use crate::hw::{HW, DAIF_I};

verus! {

/// Bytes in one page.
pub const PAGE_SIZE: usize = 0x1_0000;

/// Proof that interrupts were masked, holding the interrupt flags to put
/// back when the critical section ends.
pub struct CriticalSectionGuard {
    flags: u64,
}

impl CriticalSectionGuard {
    pub closed spec fn spec_flags(self) -> u64 {
        self.flags
    }

    /// The interrupt flags saved at the start of the critical section, to be
    /// written back when it ends.
    pub fn flags(&self) -> (r: u64)
        ensures
            r == self.spec_flags(),
    {
        self.flags
    }
}

/// Starts a critical section on a core whose DAIF mask reads `flags`: masks
/// IRQs, keeping the D, A and F bits, and returns a guard that remembers
/// `flags` to be written back when the section ends.
pub fn critical_section_start<H: HW>(hw: &mut H, flags: u64) -> (r: CriticalSectionGuard)
    ensures
        r.spec_flags() == flags,
        H::tracks_daif() ==> final(hw).daif() == old(hw).daif() | DAIF_I,
        H::records_accesses() ==> final(hw).accesses() == old(hw).accesses(),
{
    let ret = CriticalSectionGuard { flags: flags };
    hw.local_irqs_disable();
    ret
}

} // verus!
