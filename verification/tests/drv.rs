use std::cell::RefCell;
use std::rc::Rc;
use lib::arch::critical_section_start;
use lib::drv::{BlockingUartWriter, Driver, DummyUartWriter, Uart, UartWriter};
use lib::hw::{UnsignedInt, HW};
use lib::mem::preinit;
use lib::pl011::PL011;
use lib::selftest::selftest;

/// Records every register access as (address, width, is a write), and keeps
/// a DAIF mask.
#[derive(Default)]
struct Recorder {
    accesses: Vec<(usize, usize, bool)>,
    daif: u64,
}

impl HW for Recorder {
    fn local_irqs_disable(&mut self) {
        self.daif |= 0x80;
    }
    fn local_irqs_enable(&mut self) {
        self.daif &= !0x80;
    }
    fn write<T: UnsignedInt>(&mut self, addr: usize, _data: T) {
        self.accesses.push((addr, std::mem::size_of::<T>(), true));
    }
    fn read<T: UnsignedInt>(&mut self, addr: usize) -> T {
        self.accesses.push((addr, std::mem::size_of::<T>(), false));
        T::zero()
    }
}

struct Mock;

impl HW for Mock {
    fn local_irqs_disable(&mut self) {}
    fn local_irqs_enable(&mut self) {}
    fn write<T: UnsignedInt>(&mut self, _addr: usize, _data: T) {}
    fn read<T: UnsignedInt>(&mut self, _addr: usize) -> T {
        T::zero()
    }
}

#[test]
fn pl011_basic() {
    let mut hw = Mock;
    let base = 0x10000000;
    let mut pl011 = PL011::new(base);
    pl011.init(&mut hw);
    pl011.put(&mut hw, 1);
    assert_eq!(hw.read::<u32>(base), 0);
}

#[test]
fn pl011_init_writes_control_register() {
    let mut hw = Recorder::default();
    let mut u = PL011::new(0x1c09_0000);
    u.init(&mut hw);
    assert_eq!(hw.accesses, vec![(0x1c09_00c0, 2, true)]);
}

#[test]
fn pl011_put_writes_data_register() {
    let mut hw = Recorder::default();
    let u = PL011::new(0x1c09_0000);
    u.put(&mut hw, b'x');
    assert_eq!(hw.accesses, vec![(0x1c09_0000, 1, true)]);
}

struct ByteLog(Rc<RefCell<Vec<u8>>>);

impl<W: HW> Uart<W> for ByteLog {
    fn put(&self, _w: &mut W, ch: u8) {
        self.0.borrow_mut().push(ch);
    }
}

#[test]
fn blocking_writer_sends_each_byte_in_order() {
    let log = Rc::new(RefCell::new(Vec::new()));
    let mut w = BlockingUartWriter::new(Mock, ByteLog(log.clone()));
    w.write_str("Hi!");
    w.write_bytes(b"\n");
    assert_eq!(*log.borrow(), b"Hi!\n".to_vec());
}

#[test]
fn dummy_writer_accepts_anything() {
    let mut d = DummyUartWriter;
    d.write_str("Hello Embedded World!");
}

#[test]
fn critical_section_masks_irqs_and_keeps_flags() {
    let mut hw = Recorder { accesses: Vec::new(), daif: 0x340 };
    let g = critical_section_start(&mut hw, 0x340);
    assert_eq!(g.flags(), 0x340);
    assert_eq!(hw.daif, 0x3c0);
    assert!(hw.accesses.is_empty());
}

#[test]
fn irqs_enable_clears_only_the_irq_mask() {
    let mut hw = Recorder { accesses: Vec::new(), daif: 0x3c0 };
    hw.local_irqs_enable();
    assert_eq!(hw.daif, 0x340);
    hw.local_irqs_disable();
    assert_eq!(hw.daif, 0x3c0);
}

#[test]
fn mem_preinit_zeroes_bss() {
    let mut bss = vec![0xa5u8; 100];
    preinit(&mut bss);
    assert!(bss.iter().all(|&b| b == 0));
    let mut empty: Vec<u8> = Vec::new();
    preinit(&mut empty);
    assert!(empty.is_empty());
}

#[test]
fn selftest_without_tests_does_nothing() {
    let mut u = PL011::new(0x1000);
    selftest::<Mock, PL011>(&mut u);
}

#[test]
fn unsigned_zeroes() {
    assert_eq!(<u8 as UnsignedInt>::zero(), 0);
    assert_eq!(<u16 as UnsignedInt>::zero(), 0);
    assert_eq!(<u32 as UnsignedInt>::zero(), 0);
    assert_eq!(<u64 as UnsignedInt>::zero(), 0);
}

#[test]
fn pl011_new_takes_any_base() {
    let _u = PL011::new(usize::MAX);
    let _v = PL011::new(0x1c09_0000);
}
