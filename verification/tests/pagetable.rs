use lib::hw::{UnsignedInt, HW};
use lib::mm::PageArena;
use lib::pagetable::{init, kernel_attr_for, root, root_mut, MapError, Mapping, PageTableMut, MAIR_IDX_MEM, MAIR_IDX_SO};
use lib::pte::{ADDR_MASK, ATTRS_MASK, ENTRIES, L2_REGION_SIZE, L3_REGION_SIZE, TYPE_BLOCK, TYPE_MASK, TYPE_TABLE};
use lib::world::World;

struct NoHw;

impl HW for NoHw {
    fn local_irqs_disable(&mut self) {}
    fn local_irqs_enable(&mut self) {}
    fn write<T: UnsignedInt>(&mut self, _addr: usize, _data: T) {}
    fn read<T: UnsignedInt>(&mut self, _addr: usize) -> T {
        T::zero()
    }
}

const POOL_START: usize = 0x4000_0000;

fn world_with_pages(n: usize) -> World<NoHw> {
    let pool = PageArena::new(POOL_START, POOL_START + n * 0x1_0000);
    World::new(0xdeadbeaf, NoHw, pool).expect("pool is usable")
}

/// Follows the descriptors of `t` for `va` the way the MMU does, reading the
/// next-level tables through the library's own accessors.
fn walk(world: &World<NoHw>, t: &PageTableMut, va: u64) -> Option<(u64, u64)> {
    let r = root(t);
    let idx2 = ((va >> 29) & 0x1fff) as usize;
    let e = r.pte(idx2);
    if e.is_table() {
        let sub = e.as_table(world);
        let idx3 = ((va >> 16) & 0x1fff) as usize;
        let p = sub.pte(idx3);
        if p.is_valid() {
            Some(((p.as_raw() & ADDR_MASK) + (va & 0xffff), p.as_raw() & ATTRS_MASK))
        } else {
            None
        }
    } else if e.is_valid() {
        Some(((e.as_raw() & ADDR_MASK) + (va & 0x1fff_ffff), e.as_raw() & ATTRS_MASK))
    } else {
        None
    }
}

#[test]
fn root_mut_starts_empty() {
    let t = root_mut();
    let r = root(&t);
    for i in 0..ENTRIES {
        assert_eq!(r.pte(i).as_raw(), 0);
        assert!(!r.pte(i).is_valid());
        assert!(r.pte(i).can_be_table());
    }
}

#[test]
fn map_aligned_block_writes_one_block_descriptor() {
    let mut world = world_with_pages(0);
    let mut t = root_mut();
    let attr = kernel_attr_for(MAIR_IDX_MEM);
    let m = Mapping { va: 3 * L2_REGION_SIZE, pa: 5 * L2_REGION_SIZE, size: L2_REGION_SIZE, attr };
    assert_eq!(t.map(&mut world, m), Ok(()));
    let r = root(&t);
    assert_eq!(r.pte(3).as_raw(), 5 * L2_REGION_SIZE | attr | TYPE_BLOCK);
    assert_eq!(r.pte(2).as_raw(), 0);
    assert_eq!(r.pte(4).as_raw(), 0);
    assert_eq!(world.page_pool.current, POOL_START);
    assert_eq!(walk(&world, &t, 3 * L2_REGION_SIZE + 0x1234), Some((5 * L2_REGION_SIZE + 0x1234, attr)));
    assert_eq!(walk(&world, &t, 4 * L2_REGION_SIZE), None);
}

#[test]
fn map_small_region_creates_table() {
    let mut world = world_with_pages(4);
    let mut t = root_mut();
    let attr = kernel_attr_for(MAIR_IDX_SO);
    let m = Mapping { va: 0x2000_0000 + 0x3_0000, pa: 0x9_0000, size: 0x2_0000, attr };
    assert_eq!(t.map(&mut world, m), Ok(()));
    // one page was taken for the level-3 table
    assert_eq!(world.page_pool.current, POOL_START + 0x1_0000);
    assert_eq!(world.pt_pages.len(), 1);
    let e = root(&t).pte(1);
    assert!(e.is_table());
    assert_eq!(e.as_raw() & ADDR_MASK, POOL_START as u64);
    assert_eq!(e.as_raw() & TYPE_MASK, TYPE_TABLE);
    let sub = e.as_table(&world);
    assert_eq!(sub.pte(3).as_raw(), 0x9_0000 | attr | TYPE_TABLE);
    assert_eq!(sub.pte(4).as_raw(), 0xA_0000 | attr | TYPE_TABLE);
    assert_eq!(sub.pte(2).as_raw(), 0);
    assert_eq!(sub.pte(5).as_raw(), 0);
    assert!(!sub.pte(5).can_be_table());
    assert_eq!(walk(&world, &t, 0x2003_0010), Some((0x9_0010, attr)));
    assert_eq!(walk(&world, &t, 0x2004_ffff), Some((0xA_ffff, attr)));
    assert_eq!(walk(&world, &t, 0x2005_0000), None);
    assert_eq!(walk(&world, &t, 0x2002_ffff), None);
}

#[test]
fn map_into_existing_table_takes_no_page() {
    let mut world = world_with_pages(4);
    let mut t = root_mut();
    let attr = kernel_attr_for(MAIR_IDX_SO);
    let m1 = Mapping { va: 0x2001_0000, pa: 0x1_0000, size: 0x1_0000, attr };
    let m2 = Mapping { va: 0x2005_0000, pa: 0x5_0000, size: 0x1_0000, attr };
    assert_eq!(t.map(&mut world, m1), Ok(()));
    assert_eq!(t.map(&mut world, m2), Ok(()));
    assert_eq!(world.pt_pages.len(), 1);
    assert_eq!(walk(&world, &t, 0x2001_0004), Some((0x1_0004, attr)));
    assert_eq!(walk(&world, &t, 0x2005_0004), Some((0x5_0004, attr)));
}

#[test]
fn partial_remap_of_block_expands_it() {
    let mut world = world_with_pages(2);
    let mut t = root_mut();
    let ram = kernel_attr_for(MAIR_IDX_MEM);
    let dev = kernel_attr_for(MAIR_IDX_SO);
    let block = Mapping { va: 0, pa: 0x8000_0000, size: L2_REGION_SIZE, attr: ram };
    assert_eq!(t.map(&mut world, block), Ok(()));
    assert_eq!(world.pt_pages.len(), 0);
    let page = Mapping { va: 0x10_0000, pa: 0x1c09_0000, size: L3_REGION_SIZE, attr: dev };
    assert_eq!(t.map(&mut world, page), Ok(()));
    assert_eq!(world.pt_pages.len(), 1);
    assert!(root(&t).pte(0).is_table());
    // the rest of the block still maps as before, page by page
    assert_eq!(walk(&world, &t, 0), Some((0x8000_0000, ram)));
    assert_eq!(walk(&world, &t, 0xf_fff8), Some((0x800f_fff8, ram)));
    assert_eq!(walk(&world, &t, 0x1fff_fff0), Some((0x9fff_fff0, ram)));
    // the remapped page goes to the device
    assert_eq!(walk(&world, &t, 0x10_0010), Some((0x1c09_0010, dev)));
    assert_eq!(walk(&world, &t, 0x11_0000), Some((0x8011_0000, ram)));
    let sub = root(&t).pte(0).as_table(&world);
    assert_eq!(sub.pte(0).as_raw(), 0x8000_0000 | ram | TYPE_TABLE);
    assert_eq!(sub.pte(8191).as_raw(), (0x8000_0000 + 8191 * 0x1_0000) | ram | TYPE_TABLE);
}

#[test]
fn map_spanning_regions_uses_blocks_in_the_middle() {
    let mut world = world_with_pages(4);
    let mut t = root_mut();
    let attr = kernel_attr_for(MAIR_IDX_MEM);
    // from 64KB below a region boundary to 64KB above the next one
    let m = Mapping {
        va: L2_REGION_SIZE - 0x1_0000,
        pa: 0x4000_0000 - 0x1_0000,
        size: L2_REGION_SIZE + 0x2_0000,
        attr,
    };
    assert_eq!(t.map(&mut world, m), Ok(()));
    assert_eq!(world.pt_pages.len(), 2);
    assert!(root(&t).pte(0).is_table());
    assert!(!root(&t).pte(1).is_table());
    assert_eq!(root(&t).pte(1).as_raw(), 0x4000_0000 | attr | TYPE_BLOCK);
    assert!(root(&t).pte(2).is_table());
    assert_eq!(walk(&world, &t, L2_REGION_SIZE - 0x1_0000), Some((0x3fff_0000, attr)));
    assert_eq!(walk(&world, &t, 2 * L2_REGION_SIZE + 0xffff), Some((0x6000_ffff, attr)));
    assert_eq!(walk(&world, &t, 2 * L2_REGION_SIZE + 0x1_0000), None);
    assert_eq!(walk(&world, &t, L2_REGION_SIZE - 0x1_0001), None);
}

#[test]
fn map_fails_when_pool_is_empty() {
    let mut world = world_with_pages(0);
    let mut t = root_mut();
    let attr = kernel_attr_for(MAIR_IDX_SO);
    let m = Mapping { va: 0x1_0000, pa: 0x1_0000, size: 0x1_0000, attr };
    assert_eq!(t.map(&mut world, m), Err(MapError::OutOfPages));
    assert_eq!(root(&t).pte(0).as_raw(), 0);
    assert_eq!(world.page_pool.current, POOL_START);
}

#[test]
fn map_fails_midway_keeps_earlier_regions() {
    let mut world = world_with_pages(1);
    let mut t = root_mut();
    let attr = kernel_attr_for(MAIR_IDX_SO);
    // needs a table for region 0 and another for region 1
    let m = Mapping { va: L2_REGION_SIZE - 0x1_0000, pa: 0, size: 0x2_0000, attr };
    assert_eq!(t.map(&mut world, m), Err(MapError::OutOfPages));
    assert_eq!(walk(&world, &t, L2_REGION_SIZE - 0x1_0000), Some((0, attr)));
    assert_eq!(walk(&world, &t, L2_REGION_SIZE), None);
    assert_eq!(root(&t).pte(1).as_raw(), 0);
}

#[test]
fn later_mapping_wins() {
    let mut world = world_with_pages(2);
    let mut t = root_mut();
    let ram = kernel_attr_for(MAIR_IDX_MEM);
    let dev = kernel_attr_for(MAIR_IDX_SO);
    let m1 = Mapping { va: 0x2000_0000, pa: 0x2000_0000, size: 0x10_0000, attr: ram };
    let m2 = Mapping { va: 0x2008_0000, pa: 0x1_0000_0000, size: 0x10_0000, attr: dev };
    assert_eq!(t.map(&mut world, m1), Ok(()));
    assert_eq!(t.map(&mut world, m2), Ok(()));
    assert_eq!(walk(&world, &t, 0x2007_0000), Some((0x2007_0000, ram)));
    assert_eq!(walk(&world, &t, 0x2008_0000), Some((0x1_0000_0000, dev)));
    assert_eq!(walk(&world, &t, 0x2017_ffff), Some((0x1_000f_ffff, dev)));
    assert_eq!(walk(&world, &t, 0x2018_0000), None);
}

#[test]
fn init_identity_maps_four_gigabytes() {
    let mut world = world_with_pages(0);
    let t = init(&mut world);
    let dev = kernel_attr_for(MAIR_IDX_SO);
    let ram = kernel_attr_for(MAIR_IDX_MEM);
    assert_eq!(dev, 0x720);
    assert_eq!(ram, 0x724);
    let r = root(&t);
    for i in 0..4usize {
        assert_eq!(r.pte(i).as_raw(), (i as u64) * L2_REGION_SIZE | dev | TYPE_BLOCK);
    }
    for i in 4..8usize {
        assert_eq!(r.pte(i).as_raw(), (i as u64) * L2_REGION_SIZE | ram | TYPE_BLOCK);
    }
    assert_eq!(r.pte(8).as_raw(), 0);
    assert_eq!(walk(&world, &t, 0x1c09_0000), Some((0x1c09_0000, dev)));
    assert_eq!(walk(&world, &t, 0x8000_1000), Some((0x8000_1000, ram)));
    assert_eq!(walk(&world, &t, 0x1_0000_0000), None);
    assert_eq!(world.page_pool.current, POOL_START);
}

#[test]
fn install_points_both_ttbrs_at_root() {
    let t = root_mut();
    let regs = t.install(0x4008_0000);
    assert_eq!(regs.ttbr0, 0x4008_0000);
    assert_eq!(regs.ttbr1, 0x4008_0000);
    assert_eq!(regs.sctlr, 1);
}

#[test]
fn with_pte_stores_what_the_closure_returns() {
    let mut world = world_with_pages(0);
    let mut t = init(&mut world);
    t.with_pte(2, |mut p| {
        p.clear();
        p
    });
    assert_eq!(root(&t).pte(2).as_raw(), 0);
    assert!(root(&t).pte(3).is_valid());
}

#[test]
fn pte_mut_write_and_clear() {
    let t = root_mut();
    let mut p = t.pte(7);
    assert_eq!(p.as_pte().as_raw(), 0);
    let attr = kernel_attr_for(MAIR_IDX_MEM);
    p.write(Mapping { va: 7 * L2_REGION_SIZE, pa: 0x6000_0000, size: L2_REGION_SIZE, attr });
    assert_eq!(p.as_raw(), 0x6000_0000 | attr | TYPE_BLOCK);
    assert!(p.is_valid());
    assert!(!p.is_table());
    p.clear();
    assert_eq!(p.as_raw(), 0);
    let mut t2 = root_mut();
    let mut q = t2.pte(1);
    q.write(Mapping { va: L2_REGION_SIZE, pa: 0, size: L2_REGION_SIZE, attr });
    t2.set_pte(1, q);
    assert_eq!(root(&t2).pte(1).as_raw(), attr | TYPE_BLOCK);
}

#[test]
fn create_and_expand_tables_take_pages() {
    let mut world = world_with_pages(2);
    let t = root_mut();
    let mut p = t.pte(0);
    let table = p.create_table(&mut world, 0).expect("a page is left");
    assert!(p.is_table());
    assert_eq!(p.as_raw() & ADDR_MASK, POOL_START as u64);
    assert_eq!(world.page_pool.current, POOL_START + 0x1_0000);
    drop(table);
    let attr = kernel_attr_for(MAIR_IDX_MEM);
    let mut q = t.pte(1);
    q.write(Mapping { va: L2_REGION_SIZE, pa: 0x4000_0000, size: L2_REGION_SIZE, attr });
    let _expanded = q.expand_to_table(&mut world).expect("a page is left");
    assert!(q.is_table());
    assert_eq!(q.as_raw() & ADDR_MASK, (POOL_START + 0x1_0000) as u64);
    assert_eq!(q.as_raw() & ATTRS_MASK, attr);
    let mut r = t.pte(2);
    assert!(r.create_table(&mut world, 0).is_err());
    assert_eq!(r.as_raw(), 0);
}

#[test]
fn map_level3_writes_page_words() {
    let mut world = world_with_pages(1);
    let t = root_mut();
    let mut p = t.pte(1);
    let mut table = p.create_table(&mut world, 0).expect("a page is left");
    let m = Mapping { va: 0x2001_0000, pa: 0x8000_0000, size: 0x2_0000, attr: 0 };
    assert_eq!(table.map(&mut world, m), Ok(()));
    let r = root(&table);
    assert_eq!(r.pte(1).as_raw(), 0x8000_0000 | TYPE_TABLE);
    assert_eq!(r.pte(2).as_raw(), 0x8001_0000 | TYPE_TABLE);
    for i in 0..ENTRIES {
        if i != 1 && i != 2 {
            assert_eq!(r.pte(i).as_raw(), 0);
        }
    }
    assert_eq!(world.page_pool.current, POOL_START + 0x1_0000);
}

#[test]
fn empty_mapping_changes_nothing() {
    let mut world = world_with_pages(1);
    let mut t = init(&mut world);
    let before: Vec<u64> = (0..ENTRIES).map(|i| root(&t).pte(i).as_raw()).collect();
    let m = Mapping { va: 0x1234_0000, pa: 0x10_0000, size: 0, attr: 0 };
    assert_eq!(t.map(&mut world, m), Ok(()));
    let after: Vec<u64> = (0..ENTRIES).map(|i| root(&t).pte(i).as_raw()).collect();
    assert_eq!(before, after);
    assert_eq!(world.page_pool.current, POOL_START);
}

#[test]
fn repeating_a_mapping_takes_no_page() {
    let mut world = world_with_pages(2);
    let mut t = root_mut();
    let attr = kernel_attr_for(MAIR_IDX_MEM);
    let m = Mapping { va: L2_REGION_SIZE - 0x1_0000, pa: 0x10_0000, size: L2_REGION_SIZE, attr };
    assert_eq!(t.map(&mut world, m), Ok(()));
    let used = world.page_pool.current;
    let before: Vec<u64> = (0..ENTRIES).map(|i| root(&t).pte(i).as_raw()).collect();
    assert_eq!(t.map(&mut world, m), Ok(()));
    let after: Vec<u64> = (0..ENTRIES).map(|i| root(&t).pte(i).as_raw()).collect();
    assert_eq!(before, after);
    assert_eq!(world.page_pool.current, used);
}

#[test]
fn map_twice_changes_nothing() {
    let mut world = world_with_pages(4);
    let mut t = root_mut();
    let ram = kernel_attr_for(MAIR_IDX_MEM);
    // a partial region (a fresh table), a whole block, and an expanded block
    let blk = Mapping { va: 2 * L2_REGION_SIZE, pa: 0x4_0000_0000, size: L2_REGION_SIZE, attr: ram };
    assert_eq!(t.map(&mut world, blk), Ok(()));
    let m = Mapping { va: L2_REGION_SIZE - 0x2_0000, pa: 0x8_0000_0000, size: L2_REGION_SIZE + 0x6_0000, attr: ram };
    assert_eq!(t.map(&mut world, m), Ok(()));
    let m2 = Mapping { va: 2 * L2_REGION_SIZE + 0x10_0000, pa: 0x9_0000_0000, size: 0x3_0000, attr: ram };
    assert_eq!(t.map(&mut world, m2), Ok(()));
    let root_before: Vec<u64> = (0..ENTRIES).map(|i| root(&t).pte(i).as_raw()).collect();
    let pages_before = world.pt_pages.clone();
    let pool_before = world.page_pool.current;
    assert_eq!(t.map(&mut world, m), Ok(()));
    assert_eq!(t.map(&mut world, m2), Ok(()));
    let root_after: Vec<u64> = (0..ENTRIES).map(|i| root(&t).pte(i).as_raw()).collect();
    assert_eq!(root_after, root_before);
    assert_eq!(world.pt_pages, pages_before);
    assert_eq!(world.page_pool.current, pool_before);
}

#[test]
fn map_of_nothing_changes_nothing_wherever_it_starts() {
    let mut world = world_with_pages(1);
    let mut t = root_mut();
    let attr = kernel_attr_for(MAIR_IDX_SO);
    let m = Mapping { va: 0x1234, pa: 0x5678_9abc, size: 0, attr: u64::MAX };
    assert_eq!(t.map(&mut world, m), Ok(()));
    for i in 0..ENTRIES {
        assert_eq!(root(&t).pte(i).as_raw(), 0);
    }
    assert_eq!(world.page_pool.current, POOL_START);
    let m = Mapping { va: 0x1_0000, pa: 0x1_0000, size: 0x1_0000, attr };
    assert_eq!(t.map(&mut world, m), Ok(()));
    assert_eq!(walk(&world, &t, 0x1_0000), Some((0x1_0000, attr)));
}
