//! The ARM PrimeCell PL011 UART.
use vstd::prelude::*;
use crate::drv::{Driver, Uart, puts_accesses};
use crate::hw::{HW, RegAccess};

verus! {

/// Offset of the data register.
pub const PL011_DR: usize = 0x000;

/// Offset of the control register.
pub const PL011_CR: usize = 0x0c0;

/// UARTCR value that enables the UART (UARTEN) and its transmitter (TXE).
pub const PL011_CR_ENABLE: u16 = 0x101;

/// A PL011 whose registers start at `base`.
pub struct PL011 {
    base: usize,
}

impl PL011 {
    pub closed spec fn spec_base(self) -> usize {
        self.base
    }

    /// The PL011 whose registers start at `base`.
    pub fn new(base: usize) -> (r: PL011)
        ensures
            r.spec_base() == base,
    {
        PL011 { base: base }
    }
}

impl Driver for PL011 {
    open spec fn obeys_init_spec() -> bool {
        true
    }

    /// The control register lies within the address space.
    open spec fn init_ready(&self) -> bool {
        self.spec_base() + PL011_CR <= usize::MAX
    }

    /// One access: a 16-bit write of `PL011_CR_ENABLE` to the control register.
    open spec fn init_accesses(&self) -> Seq<RegAccess> {
        seq![((self.spec_base() + PL011_CR) as usize, 2nat, Some(PL011_CR_ENABLE as nat))]
    }

    /// Enables the UART and its transmitter.
    fn init<H: HW>(&mut self, hw: &mut H)
        ensures
            *final(self) == *old(self),
            H::records_accesses() ==> final(hw).accesses() == old(hw).accesses().push(
                ((old(self).spec_base() + PL011_CR) as usize, 2nat, Some(PL011_CR_ENABLE as nat)),
            ),
    {
        hw.write::<u16>(self.base + PL011_CR, PL011_CR_ENABLE);
        assert(H::records_accesses() ==> hw.accesses() == old(hw).accesses() + self.init_accesses());
    }
}

impl<W: HW> Uart<W> for PL011 {
    open spec fn obeys_put_spec() -> bool {
        true
    }

    /// One access: an 8-bit write of the byte to the data register.
    open spec fn put_accesses(&self, ch: u8) -> Seq<RegAccess> {
        seq![((self.spec_base() + PL011_DR) as usize, 1nat, Some(ch as nat))]
    }

    /// Writes `ch` to the data register.
    fn put(&self, w: &mut W, ch: u8)
        ensures
            W::records_accesses() ==> final(w).accesses() == old(w).accesses().push(
                ((self.spec_base() + PL011_DR) as usize, 1nat, Some(ch as nat)),
            ),
    {
        w.write::<u8>(self.base + PL011_DR, ch);
        assert(W::records_accesses() ==> w.accesses() == old(w).accesses() + <PL011 as Uart<W>>::put_accesses(
            self,
            ch,
        ));
    }
}

/// Sending `bytes` through a PL011 writes each byte, first to last and none
/// left out, to its data register: the `i`-th access is an 8-bit write of
/// `bytes[i]` there, and there is one access per byte.
pub proof fn lemma_pl011_puts<W: HW>(u: PL011, bytes: Seq<u8>)
    ensures
        puts_accesses::<W, PL011>(u, bytes) == Seq::new(
            bytes.len(),
            |i: int| ((u.spec_base() + PL011_DR) as usize, 1nat, Some(bytes[i] as nat)),
        ),
    decreases bytes.len(),
{
    if bytes.len() > 0 {
        lemma_pl011_puts::<W>(u, bytes.drop_last());
        assert(puts_accesses::<W, PL011>(u, bytes) =~= Seq::new(
            bytes.len(),
            |i: int| ((u.spec_base() + PL011_DR) as usize, 1nat, Some(bytes[i] as nat)),
        ));
    } else {
        assert(puts_accesses::<W, PL011>(u, bytes) =~= Seq::new(
            bytes.len(),
            |i: int| ((u.spec_base() + PL011_DR) as usize, 1nat, Some(bytes[i] as nat)),
        ));
    }
}

} // verus!
