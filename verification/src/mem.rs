//! Early memory setup.
use vstd::prelude::*;

verus! {

/// Zeroes the zero-initialised data area `bss` before anything uses it.
pub fn preinit(bss: &mut [u8])
    ensures
        final(bss)@.len() == old(bss)@.len(),
        forall|i: int| 0 <= i < final(bss)@.len() ==> final(bss)@[i] == 0,
{
    let mut i: usize = 0;
    while i < bss.len()
        invariant
            i <= bss@.len(),
            bss@.len() == old(bss)@.len(),
            forall|j: int| 0 <= j < i ==> bss@[j] == 0,
        decreases bss@.len() - i,
    {
        bss[i] = 0;
        i = i + 1;
    }
}

} // verus!
