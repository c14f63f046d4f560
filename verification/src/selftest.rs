//! Built-in self tests; none are compiled into this kernel.
use vstd::prelude::*;
use crate::drv::Uart;
use crate::hw::HW;

verus! {

/// Runs the built-in self tests, reporting through `uart`. With no test
/// built in, it does nothing.
pub fn selftest<W: HW, U: Uart<W>>(_uart: &mut U)
    ensures
        *final(_uart) == *old(_uart),
{
}

} // verus!
