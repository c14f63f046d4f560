use vstd::prelude::*;

pub mod arch;
pub mod bitfield;
pub mod drv;
pub mod hw;
pub mod mem;
pub mod mm;
pub mod pagetable;
pub mod pl011;
pub mod pte;
pub mod reg;
pub mod selftest;
pub mod translation;
pub mod world;

verus! {
} // verus!
