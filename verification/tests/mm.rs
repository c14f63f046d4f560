use lib::hw::{UnsignedInt, HW};
use lib::mm::{init, PageArena};
use lib::world::World;

struct NoHw;

impl HW for NoHw {
    fn local_irqs_disable(&mut self) {}
    fn local_irqs_enable(&mut self) {}
    fn write<T: UnsignedInt>(&mut self, _addr: usize, _data: T) {}
    fn read<T: UnsignedInt>(&mut self, _addr: usize) -> T {
        T::zero()
    }
}

#[test]
fn arena_new_starts_at_start() {
    let a = PageArena::new(0x10_0000, 0x20_0000);
    assert_eq!(a.start, 0x10_0000);
    assert_eq!(a.end, 0x20_0000);
    assert_eq!(a.current, 0x10_0000);
}

#[test]
fn arena_hands_out_pages_in_order_until_empty() {
    let mut a = PageArena::new(0x10_0000, 0x13_0000);
    assert_eq!(a.get(), Some(0x10_0000));
    assert_eq!(a.get(), Some(0x11_0000));
    assert_eq!(a.get(), Some(0x12_0000));
    assert_eq!(a.get(), None);
    assert_eq!(a.get(), None);
    assert_eq!(a.current, 0x13_0000);
}

#[test]
fn arena_pages_never_overlap() {
    let mut a = PageArena::new(0, 0x8_0000);
    let mut prev: Option<usize> = None;
    while let Some(p) = a.get() {
        if let Some(q) = prev {
            assert!(q + 0x1_0000 <= p);
        }
        assert!(p < 0x8_0000);
        prev = Some(p);
    }
}

#[test]
fn arena_with_partial_last_page_still_hands_it_out() {
    let mut a = PageArena::new(0, 0x1_8000);
    assert_eq!(a.get(), Some(0));
    assert_eq!(a.get(), Some(0x1_0000));
    assert_eq!(a.get(), None);
}

#[test]
fn empty_arena_hands_out_nothing() {
    let mut a = PageArena::new(0x5_0000, 0x5_0000);
    assert_eq!(a.get(), None);
    let mut b = PageArena::new(0x6_0000, 0x5_0000);
    assert_eq!(b.get(), None);
    assert_eq!(b.current, 0x6_0000);
}

#[test]
fn world_new_checks_the_pool() {
    assert!(World::new(1, NoHw, PageArena::new(0x1_0000, 0x2_0000)).is_some());
    assert!(World::new(1, NoHw, PageArena::new(0x1_0001, 0x2_0000)).is_none());
    assert!(World::new(1, NoHw, PageArena::new(0x1_0000, 0x1_0000_0000_0001)).is_none());
    let mut used = PageArena::new(0x1_0000, 0x3_0000);
    used.get();
    assert!(World::new(1, NoHw, used).is_none());
}

#[test]
fn world_alloc_table_takes_zeroed_pages() {
    let mut w = World::new(7, NoHw, PageArena::new(0x1_0000, 0x3_0000)).unwrap();
    assert_eq!(w.alloc_table(), Some(0x1_0000));
    assert_eq!(w.alloc_table(), Some(0x2_0000));
    assert_eq!(w.alloc_table(), None);
    assert_eq!(w.pt_pages.len(), 2);
    assert!(w.pt_pages[1].iter().all(|&e| e == 0));
    assert_eq!(w.pt_pages[1].len(), 8192);
    let t = w.take_page(0x2_0000);
    assert_eq!(t.len(), 8192);
    assert_eq!(w.pt_pages[1].len(), 0);
    let mut t = t;
    t[5] = 42;
    w.put_page(0x2_0000, t);
    assert_eq!(w.pt_pages[1][5], 42);
    assert_eq!(w.int, 7);
}

#[test]
fn mm_init_leaves_world_alone() {
    let mut w = World::new(3, NoHw, PageArena::new(0x1_0000, 0x3_0000)).unwrap();
    init(&mut w);
    assert_eq!(w.page_pool.current, 0x1_0000);
    assert_eq!(w.pt_pages.len(), 0);
}

#[test]
fn world_is_wf_matches_its_conditions() {
    let mut w = World::new(1, NoHw, PageArena::new(0x1_0000, 0x3_0000)).unwrap();
    assert!(w.is_wf());
    w.alloc_table();
    assert!(w.is_wf());
    w.pt_pages[0].pop();
    assert!(!w.is_wf());
    w.pt_pages[0].push(0);
    w.page_pool.current += 1;
    assert!(!w.is_wf());
}

#[test]
fn aligned_arena_pages_lie_inside_and_rise_by_a_page() {
    let mut a = PageArena::new(0x4000_0000, 0x4005_0000);
    let mut got = Vec::new();
    while let Some(p) = a.get() {
        assert!(0x4000_0000 <= p && p + 0x1_0000 <= 0x4005_0000 && p % 0x1_0000 == 0);
        got.push(p);
    }
    assert_eq!(got, vec![0x4000_0000, 0x4001_0000, 0x4002_0000, 0x4003_0000, 0x4004_0000]);
    assert_eq!(a.get(), None);
    assert_eq!((a.start, a.end), (0x4000_0000, 0x4005_0000));
}
