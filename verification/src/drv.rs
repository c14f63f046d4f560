//! Device drivers and the UART writer interfaces.
use vstd::prelude::*;
use crate::hw::{HW, RegAccess};
use vstd::string::StringSliceAdditionalSpecFns;

verus! {

/// A device that can be brought up. A driver that states the register
/// accesses bringing it up issues says so with `obeys_init_spec`.
pub trait Driver {
    /// Whether `init_accesses` states the register accesses of `init`.
    open spec fn obeys_init_spec() -> bool {
        false
    }

    /// The register accesses that bringing this device up issues.
    open spec fn init_accesses(&self) -> Seq<RegAccess> {
        Seq::empty()
    }

    /// The device can be brought up: its registers can be addressed.
    open spec fn init_ready(&self) -> bool {
        true
    }

    fn init<H: HW>(&mut self, hw: &mut H)
        requires
            old(self).init_ready(),
        ensures
            Self::obeys_init_spec() && H::records_accesses() ==> final(hw).accesses() == old(hw).accesses()
                + old(self).init_accesses(),
    ;
}

/// A serial port that can send a byte through the hardware `W`. A port that
/// states the register accesses sending a byte issues says so with
/// `obeys_put_spec`.
pub trait Uart<W: HW> {
    /// Whether `put_accesses` states the register accesses of `put`.
    open spec fn obeys_put_spec() -> bool {
        false
    }

    /// The register accesses that sending `ch` issues.
    open spec fn put_accesses(&self, ch: u8) -> Seq<RegAccess> {
        Seq::empty()
    }

    fn put(&self, w: &mut W, ch: u8)
        ensures
            Self::obeys_put_spec() && W::records_accesses() ==> final(w).accesses() == old(w).accesses()
                + self.put_accesses(ch),
    ;
}

/// The register accesses that sending `bytes` through `uart`, one by one and
/// first to last, issues.
pub open spec fn puts_accesses<W: HW, U: Uart<W>>(uart: U, bytes: Seq<u8>) -> Seq<RegAccess>
    decreases bytes.len(),
{
    if bytes.len() == 0 {
        Seq::empty()
    } else {
        puts_accesses::<W, U>(uart, bytes.drop_last()) + <U as Uart<W>>::put_accesses(&uart, bytes.last())
    }
}

/// Sending no bytes issues no access.
pub proof fn lemma_puts_accesses_empty<W: HW, U: Uart<W>>(uart: U)
    ensures
        puts_accesses::<W, U>(uart, Seq::empty()) == Seq::<RegAccess>::empty(),
{
}

/// Sending one byte issues exactly the accesses of one `put` of it,
/// whatever its value.
pub proof fn lemma_puts_accesses_one<W: HW, U: Uart<W>>(uart: U, c: u8)
    ensures
        puts_accesses::<W, U>(uart, seq![c]) == <U as Uart<W>>::put_accesses(&uart, c),
{
    reveal_with_fuel(puts_accesses, 2);
    assert(seq![c].drop_last() =~= Seq::<u8>::empty());
    assert(Seq::<RegAccess>::empty() + <U as Uart<W>>::put_accesses(&uart, c)
        =~= <U as Uart<W>>::put_accesses(&uart, c));
}

/// Sending `a` and then `b` issues the accesses of sending `a` followed by
/// those of sending `b`: no byte is dropped, repeated or reordered.
pub proof fn lemma_puts_accesses_concat<W: HW, U: Uart<W>>(uart: U, a: Seq<u8>, b: Seq<u8>)
    ensures
        puts_accesses::<W, U>(uart, a + b) == puts_accesses::<W, U>(uart, a) + puts_accesses::<
            W,
            U,
        >(uart, b),
    decreases b.len(),
{
    if b.len() == 0 {
        assert(a + b =~= a);
        assert(puts_accesses::<W, U>(uart, a) + Seq::<RegAccess>::empty() =~= puts_accesses::<
            W,
            U,
        >(uart, a));
    } else {
        lemma_puts_accesses_concat::<W, U>(uart, a, b.drop_last());
        assert((a + b).drop_last() =~= a + b.drop_last());
        assert((a + b).last() == b.last());
        let pa = puts_accesses::<W, U>(uart, a);
        let pb = puts_accesses::<W, U>(uart, b.drop_last());
        let pc = <U as Uart<W>>::put_accesses(&uart, b.last());
        assert(pa + pb + pc =~= pa + (pb + pc));
    }
}

/// Something text can be written to.
pub trait UartWriter {
    fn write_str(&mut self, s: &str);
}

/// A writer that drops everything written to it.
pub struct DummyUartWriter;

impl UartWriter for DummyUartWriter {
    fn write_str(&mut self, _s: &str)
        ensures
            *final(self) == *old(self),
    {
    }
}

/// A writer that sends every byte, in order, through a UART, waiting for
/// each to be taken.
pub struct BlockingUartWriter<H: HW, U: Uart<H>> {
    uart: U,
    hw: H,
}

impl<H: HW, U: Uart<H>> BlockingUartWriter<H, U> {
    pub closed spec fn spec_uart(self) -> U {
        self.uart
    }

    pub closed spec fn spec_hw(self) -> H {
        self.hw
    }

    /// A writer that sends through `uart` on the hardware `hw`.
    pub fn new(hw: H, uart: U) -> (r: Self)
        ensures
            r.spec_uart() == uart,
            r.spec_hw() == hw,
    {
        BlockingUartWriter { uart: uart, hw: hw }
    }

    /// Sends the bytes of `s` one by one, first to last.
    pub fn write_bytes(&mut self, s: &[u8])
        ensures
            final(self).spec_uart() == old(self).spec_uart(),
            U::obeys_put_spec() && H::records_accesses() ==> final(self).spec_hw().accesses() == old(
                self,
            ).spec_hw().accesses() + puts_accesses::<H, U>(old(self).spec_uart(), s@),
    {
        let mut i: usize = 0;
        while i < s.len()
            invariant
                i <= s@.len(),
                self.uart == old(self).uart,
                U::obeys_put_spec() && H::records_accesses() ==> self.hw.accesses() == old(self).hw.accesses()
                    + puts_accesses::<H, U>(self.uart, s@.take(i as int)),
            decreases s@.len() - i,
        {
            self.uart.put(&mut self.hw, s[i]);
            proof {
                let t = s@.take(i + 1);
                reveal_with_fuel(puts_accesses, 1);
                assert(t.drop_last() == s@.take(i as int));
                assert(t.last() == s@[i as int]);
                assert(old(self).hw.accesses() + puts_accesses::<H, U>(self.uart, s@.take(i as int))
                    + <U as Uart<H>>::put_accesses(&self.uart, s@[i as int]) == old(self).hw.accesses() + puts_accesses::<H, U>(self.uart, t));
            }
            i = i + 1;
        }
        assert(s@.take(s@.len() as int) == s@);
    }
}

impl<H: HW, U: Uart<H>> UartWriter for BlockingUartWriter<H, U> {
    /// Sends the bytes of `s` one by one, first to last.
    fn write_str(&mut self, s: &str)
        ensures
            final(self).spec_uart() == old(self).spec_uart(),
            U::obeys_put_spec() && H::records_accesses() ==> final(self).spec_hw().accesses() == old(
                self,
            ).spec_hw().accesses() + puts_accesses::<H, U>(old(self).spec_uart(), s.spec_bytes()),
    {
        self.write_bytes(s.as_bytes());
    }
}

} // verus!
