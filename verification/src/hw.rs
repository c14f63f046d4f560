//! Access to the machine: memory-mapped registers and interrupt masking.
use vstd::prelude::*;

verus! {

/// One register access: the address, the width in bytes, and the value
/// written, or `None` for a read.
pub type RegAccess = (usize, nat, Option<nat>);

/// The unsigned widths that can be read from or written to a device register.
pub trait UnsignedInt: Sized {
    /// The number this value stands for.
    spec fn spec_value(self) -> nat;

    /// Bytes in a value of this type.
    spec fn spec_width() -> nat;

    /// The value with no bit set.
    fn zero() -> (r: Self)
        ensures
            r.spec_value() == 0,
    ;
}

impl UnsignedInt for u8 {
    open spec fn spec_value(self) -> nat {
        self as nat
    }

    open spec fn spec_width() -> nat {
        1
    }

    fn zero() -> (r: u8) {
        0
    }
}

impl UnsignedInt for u16 {
    open spec fn spec_value(self) -> nat {
        self as nat
    }

    open spec fn spec_width() -> nat {
        2
    }

    fn zero() -> (r: u16) {
        0
    }
}

impl UnsignedInt for u32 {
    open spec fn spec_value(self) -> nat {
        self as nat
    }

    open spec fn spec_width() -> nat {
        4
    }

    fn zero() -> (r: u32) {
        0
    }
}

impl UnsignedInt for u64 {
    open spec fn spec_value(self) -> nat {
        self as nat
    }

    open spec fn spec_width() -> nat {
        8
    }

    fn zero() -> (r: u64) {
        0
    }
}

/// The bit of the DAIF interrupt mask register that masks IRQs (PSTATE.I);
/// D, A and F are the bits 0x200, 0x100 and 0x40.
pub const DAIF_I: u64 = 0x80;

/// The hardware a driver talks to: its device registers and the core's
/// DAIF interrupt mask.
///
/// Hardware that keeps a record of the register accesses issued to it says
/// so with `records_accesses`; for it, every read and every write is
/// recorded, in order, and nothing else is. Hardware that keeps track of its
/// DAIF mask says so with `tracks_daif`. Hardware that does neither (the
/// default) promises nothing about `accesses` or `daif`.
pub trait HW {
    /// Whether `accesses` is this hardware's record of the register accesses
    /// issued to it.
    open spec fn records_accesses() -> bool {
        false
    }

    /// The register accesses issued to this hardware so far, oldest first.
    open spec fn accesses(&self) -> Seq<RegAccess> {
        Seq::empty()
    }

    /// Whether `daif` is this hardware's DAIF mask.
    open spec fn tracks_daif() -> bool {
        false
    }

    /// The DAIF mask: which of debug, SError, IRQ and FIQ exceptions are masked.
    open spec fn daif(&self) -> u64 {
        0
    }

    /// Masks IRQs: sets the I bit of DAIF and keeps D, A and F; accesses no
    /// register.
    fn local_irqs_disable(&mut self)
        ensures
            Self::tracks_daif() ==> final(self).daif() == old(self).daif() | DAIF_I,
            Self::records_accesses() ==> final(self).accesses() == old(self).accesses(),
    ;

    /// Unmasks IRQs: clears the I bit of DAIF and keeps D, A and F; accesses
    /// no register.
    fn local_irqs_enable(&mut self)
        ensures
            Self::tracks_daif() ==> final(self).daif() == old(self).daif() & !DAIF_I,
            Self::records_accesses() ==> final(self).accesses() == old(self).accesses(),
    ;

    /// Writes `data` to the register at `addr`: one access, a write.
    fn write<T: UnsignedInt>(&mut self, addr: usize, data: T)
        ensures
            Self::records_accesses() ==> final(self).accesses() == old(self).accesses().push(
                (addr, T::spec_width(), Some(data.spec_value())),
            ),
            Self::tracks_daif() ==> final(self).daif() == old(self).daif(),
    ;

    /// Reads the register at `addr`: one access, a read.
    fn read<T: UnsignedInt>(&mut self, addr: usize) -> (r: T)
        ensures
            Self::records_accesses() ==> final(self).accesses() == old(self).accesses().push(
                (addr, T::spec_width(), None),
            ),
            Self::tracks_daif() ==> final(self).daif() == old(self).daif(),
    ;
}

} // verus!
