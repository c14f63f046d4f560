//! Translation tables: descriptors, tables, and mapping regions into them.
use vstd::prelude::*;
use crate::arch::PAGE_SIZE;
use crate::bitfield::field_to;
use crate::reg::{SCTLR_M_MASK, TTBR_ASID_SHIFT, TTBR_BADDR_SHIFT, ttbr_value};
use crate::hw::HW;
use crate::mm::get_spec;
use crate::world::World;
use crate::translation::{
    translate, translate_l3, translate_leaf, mapping_target, table_span, root_wf, mapping_fits,
    maps_between, fresh_page_taken, world_grows, region_needs_page, chunk_of, pages_needed,
    word_written, words_written, region_meets, region_chunk, page_touched, pages_kept,
    pages_available, lemma_region_start, lemma_table_index, lemma_in_region, lemma_chunk_end_grows,
    lemma_pages_available_none, lemma_pages_available_step, lemma_maps_compose, lemma_entries_ahead,
    lemma_pages_needed_step, lemma_pages_needed_done, lemma_pages_needed_blocks, lemma_empty_root,
    lemma_words_step, lemma_pages_kept_step, lemma_nothing_written_yet, zero_table, expanded_block,
    table_before, subtable_written, subtables_written, lemma_expansion_written, lemma_no_subtable_written_yet, lemma_subtables_step,
};
use crate::pte::{
    ENTRIES, GRANULE, L2_REGION_SIZE, VA_LIMIT, START_LEVEL, END_LEVEL,
    TYPE_INVALID, TYPE_BLOCK, TYPE_TABLE, TYPE_MASK, ATTRS_MASK, ADDR_MASK,
    BLOCK_UATTRS_MASK, BLOCK_LATTRS_MASK, TABLE_ATTRS_MASK, desc_type, desc_addr, desc_attrs,
    AF_MASK, NS_MASK, ATTRINDX_SHIFT, ATTRINDX_BITS, AP_SHIFT, AP_BITS, SH_SHIFT, SH_BITS,
    AP_KERNEL, SH_INNER, desc_is_valid, desc_is_leaf, desc_is_table, region_size_spec, table_index, is_out_addr, region_size, index_of,
    lemma_desc_fields, lemma_desc_parts, lemma_align_down,
};

verus! {

/// A request to map `size` bytes at virtual address `va` to physical address
/// `pa`, with the block/page attributes `attr`.
#[derive(Clone, Copy)]
pub struct Mapping {
    pub va: u64,
    pub pa: u64,
    pub size: u64,
    pub attr: u64,
}

/// Why a mapping could not be completed.
#[derive(Clone, Copy, Debug, PartialEq, Eq)]
pub enum MapError {
    /// The page pool had no page left for a new translation table.
    OutOfPages,
}


/// A descriptor read out of a table at `level`, covering the virtual
/// addresses from `va` on.
#[derive(Clone, Copy)]
pub struct Pte {
    raw: u64,
    level: u8,
    va: u64,
}

impl Pte {
    pub closed spec fn spec_raw(self) -> u64 {
        self.raw
    }

    pub closed spec fn spec_level(self) -> u8 {
        self.level
    }

    pub closed spec fn spec_va(self) -> u64 {
        self.va
    }

    /// The raw descriptor.
    pub fn as_raw(&self) -> (r: u64)
        ensures
            r == self.spec_raw(),
    {
        self.raw
    }

    /// Whether a descriptor at this level may point to a next-level table.
    pub fn can_be_table(&self) -> (r: bool)
        ensures
            r == (self.spec_level() != END_LEVEL),
    {
        self.level != END_LEVEL
    }

    /// Whether the descriptor is valid (its type is not the invalid one).
    pub fn is_valid(&self) -> (r: bool)
        ensures
            r == desc_is_valid(self.spec_raw()),
    {
        (self.raw & TYPE_MASK) != TYPE_INVALID
    }

    /// Whether the descriptor points to a next-level table.
    pub fn is_table(&self) -> (r: bool)
        ensures
            r == desc_is_table(self.spec_raw(), self.spec_level()),
    {
        ((self.raw & TYPE_MASK) == TYPE_TABLE) && (self.level != END_LEVEL)
    }

    /// The next-level table this descriptor points to, as stored in the world.
    pub fn as_table<'w, H: HW>(&self, world: &'w World<H>) -> (r: PageTable<'w>)
        requires
            desc_is_table(self.spec_raw(), self.spec_level()),
            self.spec_level() < END_LEVEL,
            world.holds_page(desc_addr(self.spec_raw())),
        ensures
            r.spec_entries() == world.page_at(desc_addr(self.spec_raw())),
            r.spec_level() == self.spec_level() + 1,
            r.spec_va() == self.spec_va(),
    {
        let a = self.raw & ADDR_MASK;
        let n = world.pt_pages.len();
        let d: u64 = a - (world.page_pool.start as u64);
        let q: u64 = d / (crate::arch::PAGE_SIZE as u64);
        assert(q == world.page_slot(a));
        assert(q < n);
        let k = q as usize;
        PageTable { raw: &world.pt_pages[k], level: self.level + 1, va: self.va }
    }
}

/// A read-only view of a translation table at `level`, covering the virtual
/// addresses from `va` on.
pub struct PageTable<'a> {
    raw: &'a Vec<u64>,
    level: u8,
    va: u64,
}

impl<'a> PageTable<'a> {
    pub closed spec fn spec_entries(self) -> Seq<u64> {
        self.raw@
    }

    pub closed spec fn spec_level(self) -> u8 {
        self.level
    }

    pub closed spec fn spec_va(self) -> u64 {
        self.va
    }

    /// The `i`-th descriptor, with the first virtual address it covers.
    pub fn pte(&self, i: usize) -> (r: Pte)
        requires
            i < ENTRIES,
            self.spec_entries().len() == ENTRIES,
            2 <= self.spec_level() <= 3,
            self.spec_va() + (ENTRIES as int) * region_size_spec(self.spec_level()) <= u64::MAX,
        ensures
            r.spec_raw() == self.spec_entries()[i as int],
            r.spec_level() == self.spec_level(),
            r.spec_va() == self.spec_va() + i * region_size_spec(self.spec_level()),
    {
        let rs = region_size(self.level);
        proof {
            assert(i * rs <= ENTRIES * rs) by (nonlinear_arith)
                requires
                    i < ENTRIES,
                    rs >= 0,
            ;
        }
        Pte { raw: self.raw[i], level: self.level, va: self.va + (i as u64) * rs }
    }
}


/// A descriptor taken out of a table to be rewritten; it goes back into the
/// table with `PageTableMut::set_pte` or `PageTableMut::with_pte`.
pub struct PteMut {
    pte: Pte,
}

impl PteMut {
    pub closed spec fn spec_raw(self) -> u64 {
        self.pte.raw
    }

    pub closed spec fn spec_level(self) -> u8 {
        self.pte.level
    }

    pub closed spec fn spec_va(self) -> u64 {
        self.pte.va
    }

    /// The descriptor as a read-only `Pte`.
    pub fn as_pte(&self) -> (r: Pte)
        ensures
            r.spec_raw() == self.spec_raw(),
            r.spec_level() == self.spec_level(),
            r.spec_va() == self.spec_va(),
    {
        self.pte
    }

    /// The raw descriptor.
    pub fn as_raw(&self) -> (r: u64)
        ensures
            r == self.spec_raw(),
    {
        self.pte.raw
    }

    /// Makes the descriptor invalid.
    pub fn clear(&mut self)
        ensures
            final(self).spec_raw() == 0,
            final(self).spec_level() == old(self).spec_level(),
            final(self).spec_va() == old(self).spec_va(),
    {
        self.pte.raw = 0;
    }

    /// Makes the descriptor a block (before the last level) or a page (at the
    /// last level) that maps its whole region to `mapping.pa`.
    pub fn write(&mut self, mapping: Mapping)
        requires
            2 <= old(self).spec_level() <= 3,
            mapping.va == old(self).spec_va(),
            mapping.size == region_size_spec(old(self).spec_level()),
            mapping.attr & !ATTRS_MASK == 0,
            is_out_addr(mapping.pa),
            mapping.pa % mapping.size == 0,
        ensures
            final(self).spec_raw() == mapping.pa | mapping.attr | (if old(self).spec_level()
                == END_LEVEL {
                TYPE_TABLE
            } else {
                TYPE_BLOCK
            }),
            desc_addr(final(self).spec_raw()) == mapping.pa,
            desc_attrs(final(self).spec_raw()) == mapping.attr,
            desc_is_valid(final(self).spec_raw()),
            desc_is_leaf(final(self).spec_raw(), old(self).spec_level()),
            old(self).spec_level() == START_LEVEL ==> !desc_is_table(final(self).spec_raw(), 2),
            final(self).spec_level() == old(self).spec_level(),
            final(self).spec_va() == old(self).spec_va(),
    {
        let t = if self.pte.level == END_LEVEL {
            TYPE_TABLE
        } else {
            TYPE_BLOCK
        };
        proof {
            lemma_desc_fields(mapping.pa, mapping.attr, t);
        }
        self.pte.raw = mapping.pa | mapping.attr | t;
    }

    /// Puts a new, empty next-level table in place of this invalid
    /// descriptor, with the table attributes of `attrs`. The table's contents
    /// are handed back to be filled and then stored in the world's page.
    pub fn create_table<H: HW>(&mut self, world: &mut World<H>, attrs: u64) -> (r: Result<
        PageTableMut,
        MapError,
    >)
        requires
            old(self).spec_level() == START_LEVEL,
            !desc_is_valid(old(self).spec_raw()),
            old(self).spec_va() % L2_REGION_SIZE == 0,
            old(self).spec_va() < VA_LIMIT,
            old(world).wf(),
        ensures
            final(self).spec_level() == old(self).spec_level(),
            final(self).spec_va() == old(self).spec_va(),
            r is Err <==> !(old(world).page_pool.current < old(world).page_pool.end),
            r is Err ==> *final(self) == *old(self) && *final(world) == *old(world),
            r matches Ok(t) ==> {
                let a = desc_addr(final(self).spec_raw());
                &&& final(self).spec_raw() == a | (TABLE_ATTRS_MASK & attrs) | TYPE_TABLE
                &&& desc_is_table(final(self).spec_raw(), START_LEVEL)
                &&& fresh_page_taken(*old(world), *final(world), a)
                &&& t.wf()
                &&& t.spec_level() == END_LEVEL
                &&& t.spec_va() == old(self).spec_va()
                &&& t.spec_entries() == Seq::new(ENTRIES as nat, |i: int| 0u64)
            },
    {
        match world.alloc_table() {
            None => Err(MapError::OutOfPages),
            Some(start) => {
                let ta = TABLE_ATTRS_MASK & attrs;
                proof {
                    lemma_desc_parts(attrs);
                    lemma_desc_fields(start, ta, TYPE_TABLE);
                }
                self.pte.raw = start | ta | TYPE_TABLE;
                let raw = world.take_page(start);
                Ok(PageTableMut { raw: raw, level: self.pte.level + 1, va: self.pte.va })
            },
        }
    }
}

/// A translation table at `level` that can be rewritten, covering the
/// virtual addresses from `va` on.
pub struct PageTableMut {
    raw: Vec<u64>,
    level: u8,
    va: u64,
}

impl PageTableMut {
    pub closed spec fn spec_entries(self) -> Seq<u64> {
        self.raw@
    }

    pub closed spec fn spec_level(self) -> u8 {
        self.level
    }

    pub closed spec fn spec_va(self) -> u64 {
        self.va
    }

    /// A full table, either the root (level 2, covering the whole input
    /// address space) or a level-3 table covering one level-2 region.
    pub open spec fn wf(self) -> bool {
        &&& self.spec_entries().len() == ENTRIES
        &&& {
            ||| self.spec_level() == START_LEVEL && self.spec_va() == 0
            ||| self.spec_level() == END_LEVEL && self.spec_va() % L2_REGION_SIZE == 0
                && self.spec_va() < VA_LIMIT
        }
    }

    /// The `i`-th descriptor, taken out to be rewritten.
    pub fn pte(&self, i: usize) -> (r: PteMut)
        requires
            self.wf(),
            i < ENTRIES,
        ensures
            r.spec_raw() == self.spec_entries()[i as int],
            r.spec_level() == self.spec_level(),
            r.spec_va() == self.spec_va() + i * region_size_spec(self.spec_level()),
    {
        let rs = region_size(self.level);
        proof {
            assert(i * rs <= ENTRIES * rs) by (nonlinear_arith)
                requires
                    i < ENTRIES,
                    rs >= 0,
            ;
        }
        PteMut { pte: Pte { raw: self.raw[i], level: self.level, va: self.va + (i as u64) * rs } }
    }

    /// Stores `p` as the `i`-th descriptor.
    pub fn set_pte(&mut self, i: usize, p: PteMut)
        requires
            old(self).wf(),
            i < ENTRIES,
        ensures
            final(self).spec_entries() == old(self).spec_entries().update(i as int, p.spec_raw()),
            final(self).spec_level() == old(self).spec_level(),
            final(self).spec_va() == old(self).spec_va(),
            final(self).wf(),
    {
        self.raw.set(i, p.pte.raw);
    }
}



impl PteMut {
    /// The next-level table this descriptor points to, with its contents taken
    /// out of the world's page so that they can be rewritten.
    pub fn as_table_mut<H: HW>(&self, world: &mut World<H>) -> (r: PageTableMut)
        requires
            desc_is_table(self.spec_raw(), self.spec_level()),
            self.spec_level() == START_LEVEL,
            self.spec_va() % L2_REGION_SIZE == 0,
            self.spec_va() < VA_LIMIT,
            old(world).holds_page(desc_addr(self.spec_raw())),
            old(world).page_at(desc_addr(self.spec_raw())).len() == ENTRIES,
        ensures
            r.wf(),
            r.spec_entries() == old(world).page_at(desc_addr(self.spec_raw())),
            r.spec_level() == END_LEVEL,
            r.spec_va() == self.spec_va(),
            final(world).int == old(world).int,
            final(world).hw == old(world).hw,
            final(world).page_pool == old(world).page_pool,
            final(world).pt_pages@.len() == old(world).pt_pages@.len(),
            forall|k: int|
                0 <= k < old(world).pt_pages@.len() && k != old(world).page_slot(
                    desc_addr(self.spec_raw()),
                ) ==> #[trigger] final(world).pt_pages@[k] == old(world).pt_pages@[k],
    {
        let a = self.pte.raw & ADDR_MASK;
        let raw = world.take_page(a);
        PageTableMut { raw: raw, level: self.pte.level + 1, va: self.pte.va }
    }

    /// Rewrites this valid block descriptor as a table descriptor pointing to
    /// a fresh table of the next level that maps the block's region exactly
    /// as the block did, page by page. The table's contents are handed back
    /// to be stored in the world's page.
    pub fn expand_to_table<H: HW>(&mut self, world: &mut World<H>) -> (r: Result<
        PageTableMut,
        MapError,
    >)
        requires
            old(self).spec_level() == START_LEVEL,
            desc_is_leaf(old(self).spec_raw(), START_LEVEL),
            desc_addr(old(self).spec_raw()) % L2_REGION_SIZE == 0,
            old(self).spec_va() % L2_REGION_SIZE == 0,
            old(self).spec_va() < VA_LIMIT,
            old(world).wf(),
        ensures
            final(self).spec_level() == old(self).spec_level(),
            final(self).spec_va() == old(self).spec_va(),
            r is Err <==> !(old(world).page_pool.current < old(world).page_pool.end),
            r is Err ==> *final(self) == *old(self) && *final(world) == *old(world),
            r matches Ok(t) ==> {
                let a = desc_addr(final(self).spec_raw());
                &&& final(self).spec_raw() == a | desc_attrs(old(self).spec_raw()) | TYPE_TABLE
                &&& desc_is_table(final(self).spec_raw(), START_LEVEL)
                &&& fresh_page_taken(*old(world), *final(world), a)
                &&& t.wf()
                &&& t.spec_level() == END_LEVEL
                &&& t.spec_va() == old(self).spec_va()
                &&& t.spec_entries() == expanded_block(old(self).spec_raw())
                &&& forall|x: int|
                    old(self).spec_va() <= x < old(self).spec_va() + L2_REGION_SIZE
                        ==> #[trigger] translate_l3(t.spec_entries(), x) == translate_leaf(
                        old(self).spec_raw(),
                        START_LEVEL,
                        x,
                    )
            },
        decreases 2int,
    {
        let old_raw = self.pte.raw;
        match world.alloc_table() {
            None => Err(MapError::OutOfPages),
            Some(start) => {
                let attrs = (BLOCK_UATTRS_MASK | BLOCK_LATTRS_MASK | TABLE_ATTRS_MASK) & old_raw;
                proof {
                    assert((0x0070_0000_0000_0000u64 | 0xFFCu64 | 0xF800_0000_0000_0000u64) & old_raw
                        == old_raw & 0xF870_0000_0000_0FFCu64) by (bit_vector);
                    lemma_desc_parts(old_raw);
                    lemma_desc_fields(start, attrs, TYPE_TABLE);
                }
                self.pte.raw = start | attrs | TYPE_TABLE;
                let mapping = Mapping {
                    va: self.pte.va,
                    size: L2_REGION_SIZE,
                    pa: old_raw & ADDR_MASK,
                    attr: attrs,
                };
                let ghost w1 = *world;
                let raw = world.take_page(start);
                let mut table = PageTableMut { raw: raw, level: END_LEVEL, va: self.pte.va };
                let ghost zeros = table.raw@;
                let _ = table.map(world, mapping);
                proof {
                    lemma_expansion_written(table.raw@, old_raw, mapping);
                    assert forall|x: int|
                        old(self).spec_va() <= x < old(self).spec_va() + L2_REGION_SIZE
                            implies #[trigger] translate_l3(table.spec_entries(), x) == translate_leaf(
                            old_raw,
                            START_LEVEL,
                            x,
                        ) by {
                        assert(translate(*world, table.raw@, END_LEVEL, x) == mapping_target(
                            mapping,
                            x,
                        ));
                        lemma_in_region(START_LEVEL, 0, (mapping.va / L2_REGION_SIZE) as int, x);
                    }
                }
                Ok(table)
            },
        }
    }
}


impl PageTableMut {
    /// A request to map `sub` into the region of descriptor `idx` of `t`,
    /// with the world `w` holding its next-level tables.
    pub open spec fn region_request<H: HW>(t: PageTableMut, w: World<H>, idx: int, sub: Mapping) -> bool {
        &&& t.wf()
        &&& 0 <= idx < ENTRIES
        &&& mapping_fits(sub, t.spec_level(), t.spec_va())
        &&& sub.size > 0
        &&& t.spec_va() + idx * region_size_spec(t.spec_level()) <= sub.va
        &&& sub.va + sub.size <= t.spec_va() + idx * region_size_spec(t.spec_level())
            + region_size_spec(t.spec_level())
        &&& t.spec_level() == START_LEVEL ==> w.wf() && root_wf(w, t.spec_entries())
    }

    /// `(t1, w1)` is a consistent successor of `(t0, w0)`.
    pub open spec fn updated<H: HW>(t0: PageTableMut, w0: World<H>, t1: PageTableMut, w1: World<H>) -> bool {
        &&& t1.wf()
        &&& t1.spec_level() == t0.spec_level()
        &&& t1.spec_va() == t0.spec_va()
        &&& t0.spec_level() == END_LEVEL ==> w1 == w0
        &&& t0.spec_level() == START_LEVEL ==> w1.wf() && root_wf(w1, t1.spec_entries())
            && world_grows(w0, w1)
    }

    /// Maps the part `sub` of the region covered by the `idx`-th descriptor.
    fn map_region<H: HW>(&mut self, world: &mut World<H>, idx: usize, sub: Mapping) -> (r: Result<
        (),
        MapError,
    >)
        requires
            Self::region_request(*old(self), *old(world), idx as int, sub),
        ensures
            Self::updated(*old(self), *old(world), *final(self), *final(world)),
            old(self).spec_level() == END_LEVEL ==> r is Ok,
            r is Ok ==> maps_between(
                *old(world),
                old(self).spec_entries(),
                *final(world),
                final(self).spec_entries(),
                old(self).spec_level(),
                old(self).spec_va() as int,
                sub.va as int,
                sub.va + sub.size,
                sub,
            ),
            r is Err ==> *final(self) == *old(self) && *final(world) == *old(world),
            r is Err <==> region_needs_page(
                old(self).spec_entries()[idx as int],
                old(self).spec_level(),
                sub,
            ) && !(old(world).page_pool.current < old(world).page_pool.end),
            r is Ok ==> final(world).page_pool == if region_needs_page(
                old(self).spec_entries()[idx as int],
                old(self).spec_level(),
                sub,
            ) {
                crate::mm::get_spec(old(world).page_pool).1
            } else {
                old(world).page_pool
            },
            forall|i: int|
                0 <= i < ENTRIES && i != idx ==> #[trigger] final(self).spec_entries()[i] == old(
                    self,
                ).spec_entries()[i],
            r is Ok ==> word_written(
                old(self).spec_entries()[idx as int],
                final(self).spec_entries()[idx as int],
                old(self).spec_level(),
                sub,
            ),
            r is Ok && old(self).spec_level() == START_LEVEL ==> subtable_written(
                *old(world),
                old(self).spec_entries()[idx as int],
                *final(world),
                final(self).spec_entries()[idx as int],
                idx as int,
                sub,
            ),
            final(world).pt_pages@.len() >= old(world).pt_pages@.len(),
            forall|k: int|
                0 <= k < old(world).pt_pages@.len() && !(old(self).spec_level() == START_LEVEL
                    && desc_is_table(old(self).spec_entries()[idx as int], START_LEVEL)
                    && k == old(world).page_slot(desc_addr(old(self).spec_entries()[idx as int])))
                    ==> #[trigger] final(world).pt_pages@[k] == old(world).pt_pages@[k],
        decreases 9 - 3 * old(self).spec_level(),
    {
        let level = self.level;
        let rsize = region_size(level);
        let mut pte = self.pte(idx);
        proof {
            lemma_align_down(sub.pa, level);
            if level == START_LEVEL {
                lemma_region_start(idx as int);
            }
        }
        if pte.pte.is_table() {
            self.map_into_table(world, idx, pte, sub);
            proof {
                reveal(subtable_written);
            }
            Ok(())
        } else if rsize == sub.size && (sub.pa & (rsize - 1)) == 0 {
            let ghost t0 = self.raw@;
            pte.write(sub);
            self.set_pte(idx, pte);
            proof {
                self.lemma_region_written(*world, t0, idx, sub);
                reveal(subtable_written);
            }
            Ok(())
        } else if pte.pte.is_valid() {
            let ghost w0 = *world;
            let ghost t0 = self.raw@;
            proof {
                lemma_desc_parts(t0[idx as int]);
                assert(desc_type(t0[idx as int]) != 2);
            }
            match pte.expand_to_table(world) {
                Err(e) => Err(e),
                Ok(table) => {
                    let ghost te = table.spec_entries();
                    proof {
                        let e = pte.pte.raw;
                        let o = t0[idx as int];
                        assert(e & 0xF800_0000_0000_0000u64 == 0) by (bit_vector)
                            requires
                                e == (e & 0x0000_FFFF_FFFF_0000u64) | (o & 0xF870_0000_0000_0FFCu64) | 3u64,
                                o & 0xF800_0000_0000_0000u64 == 0,
                        ;
                    }
                    self.fill_new_table(world, idx, pte, table, sub, Ghost(w0), Ghost(t0));
                    proof {
                        reveal(subtable_written);
                        assert(desc_is_leaf(t0[idx as int], START_LEVEL));
                        assert(table_before(w0, t0[idx as int]) == te);
                    }
                    Ok(())
                },
            }
        } else {
            let ghost w0 = *world;
            let ghost t0 = self.raw@;
            match pte.create_table(world, sub.attr) {
                Err(e) => Err(e),
                Ok(table) => {
                    proof {
                        let rs = idx * L2_REGION_SIZE;
                        assert(0u64 & 3u64 == 0) by (bit_vector);
                        assert forall|x: int| rs <= x < rs + L2_REGION_SIZE implies
                            #[trigger] translate_l3(table.spec_entries(), x) == translate_leaf(t0[idx as int], START_LEVEL, x) by {
                            lemma_table_index(END_LEVEL, rs, x);
                        }
                    }
                    let ghost te = table.spec_entries();
                    proof {
                        let e = pte.pte.raw;
                        let at = sub.attr;
                        assert(e & 0xF800_0000_0000_0000u64 == 0) by (bit_vector)
                            requires
                                e == (e & 0x0000_FFFF_FFFF_0000u64) | (0xF800_0000_0000_0000u64 & at) | 3u64,
                                at & 0xF800_0000_0000_0000u64 == 0,
                        ;
                    }
                    self.fill_new_table(world, idx, pte, table, sub, Ghost(w0), Ghost(t0));
                    proof {
                        reveal(subtable_written);
                        assert(table_before(w0, t0[idx as int]) == te);
                    }
                    Ok(())
                },
            }
        }
    }

    /// Maps `sub` into the existing next-level table that descriptor `idx`
    /// (read out as `pte`) points to.
    fn map_into_table<H: HW>(&mut self, world: &mut World<H>, idx: usize, pte: PteMut, sub: Mapping)
        requires
            Self::region_request(*old(self), *old(world), idx as int, sub),
            old(self).spec_level() == START_LEVEL,
            pte.spec_raw() == old(self).spec_entries()[idx as int],
            pte.spec_level() == START_LEVEL,
            pte.spec_va() == idx * L2_REGION_SIZE,
            desc_is_table(pte.spec_raw(), START_LEVEL),
        ensures
            Self::updated(*old(self), *old(world), *final(self), *final(world)),
            final(self).spec_entries() == old(self).spec_entries(),
            final(world).page_pool == old(world).page_pool,
            final(world).pt_pages@.len() == old(world).pt_pages@.len(),
            forall|k: int|
                0 <= k < old(world).pt_pages@.len() && k != old(world).page_slot(
                    desc_addr(pte.spec_raw()),
                ) ==> #[trigger] final(world).pt_pages@[k] == old(world).pt_pages@[k],
            maps_between(
                *old(world),
                old(self).spec_entries(),
                *final(world),
                final(self).spec_entries(),
                START_LEVEL,
                0,
                sub.va as int,
                sub.va + sub.size,
                sub,
            ),
            words_written(
                old(world).page_at(desc_addr(pte.spec_raw())),
                final(world).page_at(desc_addr(pte.spec_raw())),
                END_LEVEL,
                idx * L2_REGION_SIZE,
                sub.va as int,
                sub.va + sub.size,
                sub,
            ),
        decreases 2int,
    {
        let ghost w0 = *world;
        let ghost t0 = self.raw@;
        let a = pte.pte.raw & ADDR_MASK;
        proof {
            lemma_region_start(idx as int);
            assert(w0.pt_pages@[w0.page_slot(a)]@.len() == ENTRIES);
        }
        let mut table = pte.as_table_mut(world);
        let ghost w1 = *world;
        let ghost tt0 = table.raw@;
        let _ = table.map(world, sub);
        world.put_page(a, table.raw);
        proof {
            assert(world.page_at(a) == table.raw@);
            assert forall|x: int| 0 <= x < table_span(START_LEVEL) implies #[trigger] translate(
                *world,
                self.raw@,
                START_LEVEL,
                x,
            ) == if sub.va <= x < sub.va + sub.size {
                mapping_target(sub, x)
            } else {
                translate(w0, t0, START_LEVEL, x)
            } by {
                lemma_in_region(START_LEVEL, 0, idx as int, x);
                let j = table_index(START_LEVEL, x);
                if j == idx {
                    assert(world.page_at(a) == table.raw@);
                    assert(translate(w1, table.raw@, END_LEVEL, x) == translate_l3(table.raw@, x));
                    assert(translate(w1, tt0, END_LEVEL, x) == translate_l3(tt0, x));
                } else {
                    let e = t0[j];
                    if desc_is_table(e, 2) {
                        assert(desc_addr(e) != a);
                        assert(w0.page_slot(desc_addr(e)) != w0.page_slot(a));
                        assert(world.pt_pages@[w0.page_slot(desc_addr(e))] == w0.pt_pages@[w0.page_slot(desc_addr(e))]);
                    }
                }
            }
            assert forall|k: int| 0 <= k < world.pt_pages@.len() implies (#[trigger] world.pt_pages@[k])@.len() == ENTRIES by {
                if k != w0.page_slot(a) {
                    assert(world.pt_pages@[k] == w0.pt_pages@[k]);
                }
            }
            assert forall|i: int| 0 <= i < ENTRIES && desc_is_table(#[trigger] self.raw@[i], 2) implies world.holds_page(desc_addr(self.raw@[i])) by {
                assert(w0.holds_page(desc_addr(t0[i])));
            }
        }
    }

    /// Puts the fresh next-level table `table` (at the page `pte` now points
    /// to, and translating as descriptor `idx` did) under descriptor `idx`,
    /// after mapping `sub` into it.
    fn fill_new_table<H: HW>(
        &mut self,
        world: &mut World<H>,
        idx: usize,
        pte: PteMut,
        table: PageTableMut,
        sub: Mapping,
        Ghost(w0): Ghost<World<H>>,
        Ghost(t0): Ghost<Seq<u64>>,
    )
        requires
            Self::region_request(*old(self), w0, idx as int, sub),
            old(self).spec_level() == START_LEVEL,
            old(self).spec_entries() == t0,
            !desc_is_table(t0[idx as int], START_LEVEL),
            pte.spec_level() == START_LEVEL,
            desc_is_table(pte.spec_raw(), START_LEVEL),
            pte.spec_raw() & TABLE_ATTRS_MASK == 0,
            fresh_page_taken(w0, *old(world), desc_addr(pte.spec_raw())),
            table.wf(),
            table.spec_level() == END_LEVEL,
            table.spec_va() == idx * L2_REGION_SIZE,
            forall|x: int|
                idx * L2_REGION_SIZE <= x < idx * L2_REGION_SIZE + L2_REGION_SIZE
                    ==> #[trigger] translate_l3(table.spec_entries(), x) == translate_leaf(
                    t0[idx as int],
                    START_LEVEL,
                    x,
                ),
        ensures
            final(self).spec_entries() == t0.update(idx as int, pte.spec_raw()),
            Self::updated(*old(self), w0, *final(self), *final(world)),
            final(world).page_pool == old(world).page_pool,
            final(world).pt_pages@.len() == old(world).pt_pages@.len(),
            forall|k: int|
                0 <= k < w0.pt_pages@.len() ==> #[trigger] final(world).pt_pages@[k]
                    == w0.pt_pages@[k],
            maps_between(
                w0,
                t0,
                *final(world),
                final(self).spec_entries(),
                START_LEVEL,
                0,
                sub.va as int,
                sub.va + sub.size,
                sub,
            ),
            words_written(
                table.spec_entries(),
                final(world).page_at(desc_addr(pte.spec_raw())),
                END_LEVEL,
                idx * L2_REGION_SIZE,
                sub.va as int,
                sub.va + sub.size,
                sub,
            ),
        decreases 2int,
    {
        let mut table = table;
        let a = pte.pte.raw & ADDR_MASK;
        let ghost w1 = *world;
        let ghost t1 = table.raw@;
        proof {
            lemma_region_start(idx as int);
        }
        let _ = table.map(world, sub);
        world.put_page(a, table.raw);
        self.set_pte(idx, pte);
        proof {
            assert(world.page_at(a) == table.raw@);
            assert(world.pt_pages@ == w1.pt_pages@.update(w1.page_slot(a), world.pt_pages@[w1.page_slot(a)]));
            self.lemma_new_table_frame(w0, t0, w1, *world, idx, a, t1, table.raw@, sub);
        }
    }

    /// After descriptor `idx` was written as one block or page for `sub`,
    /// the table maps `sub` over what it mapped before.
    proof fn lemma_region_written<H: HW>(&self, w: World<H>, t0: Seq<u64>, idx: usize, sub: Mapping)
        requires
            self.wf(),
            t0.len() == ENTRIES,
            idx < ENTRIES,
            sub.size == region_size_spec(self.spec_level()),
            self.spec_va() + idx * region_size_spec(self.spec_level()) == sub.va,
            self.spec_entries() == t0.update(idx as int, self.spec_entries()[idx as int]),
            desc_addr(self.spec_entries()[idx as int]) == sub.pa,
            desc_attrs(self.spec_entries()[idx as int]) == sub.attr,
            desc_is_leaf(self.spec_entries()[idx as int], self.spec_level()),
            self.spec_level() == START_LEVEL ==> !desc_is_table(self.spec_entries()[idx as int], 2)
                && root_wf(w, t0) && sub.pa % L2_REGION_SIZE == 0 && sub.attr & TABLE_ATTRS_MASK == 0,
        ensures
            maps_between(
                w,
                t0,
                w,
                self.spec_entries(),
                self.spec_level(),
                self.spec_va() as int,
                sub.va as int,
                sub.va + sub.size,
                sub,
            ),
            self.spec_level() == START_LEVEL ==> root_wf(w, self.spec_entries()),
    {
        let level = self.spec_level();
        let base = self.spec_va() as int;
        let t = self.spec_entries();
        assert forall|x: int| base <= x < base + table_span(level) implies #[trigger] translate(
            w,
            t,
            level,
            x,
        ) == if sub.va <= x < sub.va + sub.size {
            mapping_target(sub, x)
        } else {
            translate(w, t0, level, x)
        } by {
            lemma_in_region(level, base, idx as int, x);
        }
        if level == START_LEVEL {
            assert forall|i: int| 0 <= i < ENTRIES && desc_is_table(#[trigger] t[i], 2) implies w.holds_page(desc_addr(t[i])) by {
                assert(t[i] == t0[i]);
            }
            assert forall|i: int, j: int|
                0 <= i < ENTRIES && 0 <= j < ENTRIES && i != j && desc_is_table(#[trigger] t[i], 2)
                    && desc_is_table(#[trigger] t[j], 2) implies desc_addr(t[i]) != desc_addr(t[j]) by {
                assert(t[i] == t0[i]);
                assert(t[j] == t0[j]);
            }
            assert forall|i: int| 0 <= i < ENTRIES && desc_is_leaf(#[trigger] t[i], 2)
                implies desc_addr(t[i]) % L2_REGION_SIZE == 0 by {
                if i != idx {
                    assert(t[i] == t0[i]);
                }
            }
            assert forall|i: int| 0 <= i < ENTRIES implies desc_type(#[trigger] t[i]) != 2
                && t[i] & TABLE_ATTRS_MASK == 0 by {
                if i != idx {
                    assert(t[i] == t0[i]);
                } else {
                    let e = t[i];
                    let at = sub.attr;
                    assert(e & 0xF800_0000_0000_0000u64 == 0) by (bit_vector)
                        requires
                            e & 0xF870_0000_0000_0FFCu64 == at,
                            at & 0xF800_0000_0000_0000u64 == 0,
                    ;
                }
            }
        }
    }


    /// After a fresh table at `a` was put in place of descriptor `idx` and
    /// filled with `sub` over what it first held (`t1`, which translated as
    /// the old descriptor did), the root maps `sub` over what it mapped before.
    proof fn lemma_new_table_frame<H: HW>(
        &self,
        w0: World<H>,
        t0: Seq<u64>,
        w1: World<H>,
        w2: World<H>,
        idx: usize,
        a: u64,
        t1: Seq<u64>,
        t2: Seq<u64>,
        sub: Mapping,
    )
        requires
            self.wf(),
            self.spec_level() == START_LEVEL,
            w0.wf(),
            root_wf(w0, t0),
            t0.len() == ENTRIES,
            idx < ENTRIES,
            sub.size > 0,
            idx * L2_REGION_SIZE <= sub.va,
            sub.va + sub.size <= idx * L2_REGION_SIZE + L2_REGION_SIZE,
            self.spec_entries() == t0.update(idx as int, self.spec_entries()[idx as int]),
            desc_is_table(self.spec_entries()[idx as int], 2),
            self.spec_entries()[idx as int] & TABLE_ATTRS_MASK == 0,
            desc_addr(self.spec_entries()[idx as int]) == a,
            !desc_is_table(t0[idx as int], 2),
            fresh_page_taken(w0, w1, a),
            t2.len() == ENTRIES,
            w2.int == w1.int,
            w2.hw == w1.hw,
            w2.page_pool == w1.page_pool,
            w2.pt_pages@ == w1.pt_pages@.update(w1.page_slot(a), w2.pt_pages@[w1.page_slot(a)]),
            w2.pt_pages@[w1.page_slot(a)]@ == t2,
            forall|x: int|
                idx * L2_REGION_SIZE <= x < idx * L2_REGION_SIZE + L2_REGION_SIZE ==> #[trigger] translate_l3(t1, x)
                    == translate_leaf(t0[idx as int], START_LEVEL, x),
            maps_between(
                w1,
                t1,
                w1,
                t2,
                END_LEVEL,
                idx * L2_REGION_SIZE,
                sub.va as int,
                sub.va + sub.size,
                sub,
            ),
        ensures
            w2.wf(),
            root_wf(w2, self.spec_entries()),
            world_grows(w0, w2),
            maps_between(
                w0,
                t0,
                w2,
                self.spec_entries(),
                START_LEVEL,
                0,
                sub.va as int,
                sub.va + sub.size,
                sub,
            ),
    {
        let t = self.spec_entries();
        let rs = idx * L2_REGION_SIZE;
        assert forall|x: int| 0 <= x < table_span(START_LEVEL) implies #[trigger] translate(
            w2,
            t,
            START_LEVEL,
            x,
        ) == if sub.va <= x < sub.va + sub.size {
            mapping_target(sub, x)
        } else {
            translate(w0, t0, START_LEVEL, x)
        } by {
            lemma_in_region(START_LEVEL, 0, idx as int, x);
            let j = table_index(START_LEVEL, x);
            if j == idx {
                assert(w2.page_at(a) == t2);
                assert(translate(w1, t2, END_LEVEL, x) == translate_l3(t2, x));
                assert(translate(w1, t1, END_LEVEL, x) == translate_l3(t1, x));
            } else {
                let e = t0[j];
                assert(t[j] == e);
                if desc_is_table(e, 2) {
                    assert(w0.holds_page(desc_addr(e)));
                    assert(w2.pt_pages@[w0.page_slot(desc_addr(e))] == w0.pt_pages@[w0.page_slot(desc_addr(e))]);
                }
            }
        }
        assert forall|k: int| 0 <= k < w2.pt_pages@.len() implies (#[trigger] w2.pt_pages@[k])@.len() == ENTRIES by {
            if k != w1.page_slot(a) {
                assert(w2.pt_pages@[k] == w0.pt_pages@[k]);
            }
        }
        assert forall|i: int| 0 <= i < ENTRIES && desc_is_table(#[trigger] t[i], 2) implies w2.holds_page(desc_addr(t[i])) by {
            if i != idx {
                assert(w0.holds_page(desc_addr(t0[i])));
            }
        }
        assert forall|i: int, j: int|
            0 <= i < ENTRIES && 0 <= j < ENTRIES && i != j && desc_is_table(#[trigger] t[i], 2)
                && desc_is_table(#[trigger] t[j], 2) implies desc_addr(t[i]) != desc_addr(t[j]) by {
            if i != idx && j != idx {
            } else if i == idx {
                assert(w0.holds_page(desc_addr(t0[j])));
            } else {
                assert(w0.holds_page(desc_addr(t0[i])));
            }
        }
        assert forall|i: int| 0 <= i < ENTRIES && desc_is_leaf(#[trigger] t[i], 2)
            implies desc_addr(t[i]) % L2_REGION_SIZE == 0 by {
            assert(i != idx);
            assert(t[i] == t0[i]);
        }
        assert forall|i: int| 0 <= i < ENTRIES implies desc_type(#[trigger] t[i]) != 2
            && t[i] & TABLE_ATTRS_MASK == 0 by {
            if i != idx {
                assert(t[i] == t0[i]);
            }
        }
    }

    /// Maps `mapping` into this table: afterwards every address of
    /// `[mapping.va, mapping.va + mapping.size)` translates to the same
    /// offset from `mapping.pa` with `mapping.attr`, and every other address
    /// of the table's span translates as before. Regions that cannot be
    /// mapped by one descriptor get a table of the next level, taken from the
    /// world's page pool; a block that is partly remapped is first expanded
    /// into pages that map it as before. An empty mapping changes nothing,
    /// wherever it starts. If the pool runs out, the regions before the one
    /// that needed the page are mapped, the rest is as before, and
    /// `MapError::OutOfPages` is returned.
    #[verifier::rlimit(100)]
    pub fn map<H: HW>(&mut self, world: &mut World<H>, mapping: Mapping) -> (r: Result<
        (),
        MapError,
    >)
        requires
            old(self).wf(),
            mapping.size > 0 ==> mapping_fits(mapping, old(self).spec_level(), old(self).spec_va()),
            old(self).spec_level() == START_LEVEL ==> old(world).wf() && root_wf(
                *old(world),
                old(self).spec_entries(),
            ),
        ensures
            final(self).wf(),
            final(self).spec_level() == old(self).spec_level(),
            final(self).spec_va() == old(self).spec_va(),
            old(self).spec_level() == END_LEVEL ==> r is Ok && *final(world) == *old(world),
            old(self).spec_level() == START_LEVEL ==> final(world).wf() && root_wf(
                *final(world),
                final(self).spec_entries(),
            ) && world_grows(*old(world), *final(world)),
            r is Ok ==> maps_between(
                *old(world),
                old(self).spec_entries(),
                *final(world),
                final(self).spec_entries(),
                old(self).spec_level(),
                old(self).spec_va() as int,
                mapping.va as int,
                mapping.va + mapping.size,
                mapping,
            ),
            r is Err ==> !(final(world).page_pool.current < final(world).page_pool.end) && exists|
                b: int,
            |
                mapping.va <= b <= mapping.va + mapping.size && #[trigger] maps_between(
                    *old(world),
                    old(self).spec_entries(),
                    *final(world),
                    final(self).spec_entries(),
                    old(self).spec_level(),
                    old(self).spec_va() as int,
                    mapping.va as int,
                    b,
                    mapping,
                ) && words_written(
                    old(self).spec_entries(),
                    final(self).spec_entries(),
                    old(self).spec_level(),
                    old(self).spec_va() as int,
                    mapping.va as int,
                    b,
                    mapping,
                ) && pages_kept(
                    *old(world),
                    old(self).spec_entries(),
                    *final(world),
                    old(self).spec_level(),
                    old(self).spec_va() as int,
                    mapping.va as int,
                    b,
                ) && (old(self).spec_level() == START_LEVEL ==> subtables_written(
                    *old(world),
                    old(self).spec_entries(),
                    *final(world),
                    final(self).spec_entries(),
                    mapping.va as int,
                    b,
                    mapping,
                )),
            r is Ok ==> words_written(
                old(self).spec_entries(),
                final(self).spec_entries(),
                old(self).spec_level(),
                old(self).spec_va() as int,
                mapping.va as int,
                mapping.va + mapping.size,
                mapping,
            ),
            r is Ok ==> pages_kept(
                *old(world),
                old(self).spec_entries(),
                *final(world),
                old(self).spec_level(),
                old(self).spec_va() as int,
                mapping.va as int,
                mapping.va + mapping.size,
            ),
            r is Ok && old(self).spec_level() == START_LEVEL ==> subtables_written(
                *old(world),
                old(self).spec_entries(),
                *final(world),
                final(self).spec_entries(),
                mapping.va as int,
                mapping.va + mapping.size,
                mapping,
            ),
            r is Ok <==> pages_needed(old(self).spec_entries(), old(self).spec_level(), mapping, mapping.va as int)
                <= pages_available(old(world).page_pool),
            r is Ok ==> final(world).page_pool.current == old(world).page_pool.current + pages_needed(
                old(self).spec_entries(),
                old(self).spec_level(),
                mapping,
                mapping.va as int,
            ) * PAGE_SIZE,
        decreases 10 - 3 * old(self).spec_level(),
    {
        let ghost w0 = *world;
        let ghost t0 = self.raw@;
        if mapping.size == 0 {
            proof {
                lemma_nothing_written_yet(w0, t0, self.level, self.va as int, mapping.va as int, mapping);
                lemma_pages_needed_done(t0, self.level, mapping, mapping.va as int);
                lemma_no_subtable_written_yet(w0, t0, mapping.va as int, mapping);
            }
            return Ok(());
        }
        let level = self.level;
        let region_size = region_size(level);
        let region_mask = region_size - 1;
        let mut va = mapping.va;
        let mut pa = mapping.pa;
        let mut left = mapping.size;
        let ghost base = self.va as int;
        let ghost mut used: nat = 0;
        proof {
            lemma_nothing_written_yet(w0, t0, level, base, mapping.va as int, mapping);
            lemma_no_subtable_written_yet(w0, t0, mapping.va as int, mapping);
        }
        while left > 0
            invariant
                self.wf(),
                self.level == level,
                self.va == base,
                level == old(self).spec_level(),
                base == old(self).spec_va(),
                t0 == old(self).spec_entries(),
                t0.len() == ENTRIES,
                w0 == *old(world),
                region_size == region_size_spec(level),
                region_mask == region_size - 1,
                mapping_fits(mapping, level, base as u64),
                mapping.va <= va,
                va + left == mapping.va + mapping.size,
                pa == mapping.pa + (va - mapping.va),
                va % GRANULE == 0,
                left % GRANULE == 0,
                level == END_LEVEL ==> *world == w0,
                level == START_LEVEL ==> world.wf() && root_wf(*world, self.raw@) && world_grows(
                    w0,
                    *world,
                ),
                maps_between(w0, t0, *world, self.raw@, level, base, mapping.va as int, va as int, mapping),
                world.page_pool.current == w0.page_pool.current + used * PAGE_SIZE,
                pages_available(w0.page_pool) == used + pages_available(world.page_pool),
                pages_needed(t0, level, mapping, mapping.va as int) == used + pages_needed(t0, level, mapping, va as int),
                forall|x: int| va <= x < mapping.va + mapping.size ==> self.raw@[#[trigger] table_index(level, x)] == t0[table_index(level, x)],
                va == mapping.va || va % region_size == 0 || left == 0,
                words_written(t0, self.raw@, level, base, mapping.va as int, va as int, mapping),
                pages_kept(w0, t0, *world, level, base, mapping.va as int, va as int),
                level == START_LEVEL ==> w0.wf() && root_wf(w0, t0),
                level == START_LEVEL ==> subtables_written(w0, t0, *world, self.raw@, mapping.va as int, va as int, mapping),
            decreases left,
        {
            proof {
                lemma_align_down(va, level);
            }
            let va_start_aligned = va & !region_mask;
            let va_end_aligned = va_start_aligned + region_size;
            let va_end = if va + left < va_end_aligned {
                va + left
            } else {
                va_end_aligned
            };
            let size = va_end - va;
            let idx = index_of(level, va);
            let sub = Mapping { va: va, pa: pa, size: size, attr: mapping.attr };
            let ghost w1 = *world;
            let ghost t1 = self.raw@;
            proof {
                lemma_in_region(level, base, idx as int, va as int);
                assert(sub == chunk_of(mapping, level, va as int));
                assert(self.raw@[idx as int] == t0[idx as int]);
                lemma_chunk_end_grows(mapping, level, va as int);
                lemma_pages_needed_step(t0, level, mapping, va as int);
            }
            let ghost needs = region_needs_page(t0[idx as int], level, sub);
            match self.map_region(world, idx, sub) {
                Err(e) => {
                    proof {
                        lemma_pages_available_none(world.page_pool);
                    }
                    return Err(e);
                },
                Ok(()) => {},
            }
            proof {
                if needs {
                    lemma_pages_available_step(w1.page_pool);
                    used = used + 1;
                }
                lemma_entries_ahead(t0, t1, self.raw@, level, base, idx as int, va as int, va + size, mapping);
                lemma_maps_compose(w0, t0, w1, t1, *world, self.raw@, level, base, mapping, va as int, sub);
                lemma_words_step(t0, t1, self.raw@, level, base, mapping, va as int, size as int, idx as int);
                if level == START_LEVEL {
                    lemma_subtables_step(w0, t0, w1, t1, *world, self.raw@, mapping, va as int, size as int, idx as int);
                }
                lemma_pages_kept_step(w0, t0, w1, *world, level, base, mapping, va as int, size as int, idx as int);
            }
            left = left - size;
            va = va + size;
            pa = pa + size;
        }
        proof {
            lemma_pages_needed_done(t0, level, mapping, va as int);
        }
        Ok(())
    }
}


/// Memory attribute index of strongly-ordered (device) memory in MAIR.
pub const MAIR_IDX_SO: u64 = 0;

/// Memory attribute index of normal memory in MAIR.
pub const MAIR_IDX_MEM: u64 = 1;

/// Attributes of the kernel's device mappings: accessed, non-secure,
/// strongly ordered, inner shareable, kernel read/write.
pub open spec fn kernel_attr(mair_idx: u64) -> u64 {
    AF_MASK | NS_MASK | ((mair_idx & ATTRINDX_BITS) << ATTRINDX_SHIFT) | ((SH_INNER & SH_BITS)
        << SH_SHIFT) | ((AP_KERNEL & AP_BITS) << AP_SHIFT)
}

/// The attributes the kernel maps memory with, for the MAIR index `mair_idx`.
pub fn kernel_attr_for(mair_idx: u64) -> (r: u64)
    requires
        mair_idx <= 7,
    ensures
        r == kernel_attr(mair_idx),
        r & !ATTRS_MASK == 0,
        r & TABLE_ATTRS_MASK == 0,
{
    let r = AF_MASK | NS_MASK | field_to(mair_idx, ATTRINDX_SHIFT, ATTRINDX_BITS) | field_to(
        SH_INNER,
        SH_SHIFT,
        SH_BITS,
    ) | field_to(AP_KERNEL, AP_SHIFT, AP_BITS);
    proof {
        assert((0x400u64 | 0x20u64 | ((mair_idx & 7u64) << 2u64) | ((3u64 & 3u64) << 8u64) | ((
        0u64 & 3u64) << 6u64)) & !0xF870_0000_0000_0FFCu64 == 0) by (bit_vector);
        assert((0x400u64 | 0x20u64 | ((mair_idx & 7u64) << 2u64) | ((3u64 & 3u64) << 8u64) | ((
        0u64 & 3u64) << 6u64)) & 0xF800_0000_0000_0000u64 == 0) by (bit_vector);
    }
    r
}

/// A fresh root table with every descriptor invalid.
pub fn root_mut() -> (r: PageTableMut)
    ensures
        r.wf(),
        r.spec_level() == START_LEVEL,
        r.spec_va() == 0,
        r.spec_entries() == Seq::new(ENTRIES as nat, |i: int| 0u64),
{
    let mut raw: Vec<u64> = Vec::new();
    while raw.len() < ENTRIES
        invariant
            raw.len() <= ENTRIES,
            forall|i: int| 0 <= i < raw@.len() ==> raw@[i] == 0u64,
        decreases ENTRIES - raw.len(),
    {
        raw.push(0u64);
    }
    assert(raw@ == Seq::new(ENTRIES as nat, |i: int| 0u64));
    PageTableMut { raw: raw, level: START_LEVEL, va: 0 }
}

/// A read-only view of the root table `t`.
pub fn root(t: &PageTableMut) -> (r: PageTable<'_>)
    ensures
        r.spec_entries() == t.spec_entries(),
        r.spec_level() == t.spec_level(),
        r.spec_va() == t.spec_va(),
{
    PageTable { raw: &t.raw, level: t.level, va: t.va }
}

/// Builds the kernel's root table: the first 2GB of the address space
/// identity mapped as device memory, the next 2GB identity mapped as normal
/// memory, and nothing else. Only blocks are used, so the page pool is left
/// as it was.
pub fn init<H: HW>(world: &mut World<H>) -> (r: PageTableMut)
    requires
        old(world).wf(),
    ensures
        r.wf(),
        r.spec_level() == START_LEVEL,
        r.spec_va() == 0,
        final(world).wf(),
        root_wf(*final(world), r.spec_entries()),
        world_grows(*old(world), *final(world)),
        final(world).page_pool == old(world).page_pool,
        forall|x: int|
            0 <= x < VA_LIMIT ==> #[trigger] translate(*final(world), r.spec_entries(), START_LEVEL, x)
                == if x < 0x8000_0000 {
                Some((x, kernel_attr(MAIR_IDX_SO)))
            } else if x < 0x1_0000_0000 {
                Some((x, kernel_attr(MAIR_IDX_MEM)))
            } else {
                None
            },
        forall|i: int|
            0 <= i < ENTRIES ==> #[trigger] r.spec_entries()[i] == if i < 4 {
                ((i * L2_REGION_SIZE) as u64) | kernel_attr(MAIR_IDX_SO) | TYPE_BLOCK
            } else if i < 8 {
                ((i * L2_REGION_SIZE) as u64) | kernel_attr(MAIR_IDX_MEM) | TYPE_BLOCK
            } else {
                0
            },
{
    let mut root_table = root_mut();
    let ghost w0 = *world;
    let ghost t0 = root_table.raw@;
    proof {
        assert forall|x: int| true implies translate(w0, t0, START_LEVEL, x) is None by {
            lemma_empty_root(w0, x);
        }
        lemma_empty_root(w0, 0);
    }
    let attr = kernel_attr_for(MAIR_IDX_SO);
    let mapping = Mapping { va: 0x0, pa: 0x0, size: 0x8000_0000, attr: attr };
    proof {
        lemma_pages_needed_blocks(t0, mapping, 0);
    }
    let _ = root_table.map(world, mapping);
    let ghost w1 = *world;
    let ghost t1 = root_table.raw@;
    let attr = kernel_attr_for(MAIR_IDX_MEM);
    let mapping2 = Mapping { va: 0x8000_0000, pa: 0x8000_0000, size: 0x8000_0000, attr: attr };
    proof {
        lemma_pages_needed_blocks(t1, mapping2, 0x8000_0000);
    }
    let _ = root_table.map(world, mapping2);
    proof {
        assert forall|x: int| 0 <= x < VA_LIMIT implies #[trigger] translate(*world, root_table.raw@, START_LEVEL, x)
            == if x < 0x8000_0000 {
            Some((x, kernel_attr(MAIR_IDX_SO)))
        } else if x < 0x1_0000_0000 {
            Some((x, kernel_attr(MAIR_IDX_MEM)))
        } else {
            None
        } by {
            assert(translate(w1, t1, START_LEVEL, x) == if 0 <= x < 0x8000_0000 {
                mapping_target(mapping, x)
            } else {
                translate(w0, t0, START_LEVEL, x)
            });
        }
        assert(0u64 & 3u64 == 0) by (bit_vector);
        assert forall|i: int| 0 <= i < 4 implies !desc_is_table(#[trigger] t0[i], START_LEVEL) by {
            assert(t0[i] == 0);
        }
        lemma_identity_blocks_written(t0, t1, mapping, 0);
        assert forall|i: int| 4 <= i < 8 implies !desc_is_table(#[trigger] t1[i], START_LEVEL) by {
            assert(t1[i] == t0[i]);
            assert(t0[i] == 0);
        }
        lemma_identity_blocks_written(t1, root_table.raw@, mapping2, 4);
        assert forall|i: int| 0 <= i < ENTRIES implies #[trigger] root_table.raw@[i] == if i < 4 {
            ((i * L2_REGION_SIZE) as u64) | kernel_attr(MAIR_IDX_SO) | TYPE_BLOCK
        } else if i < 8 {
            ((i * L2_REGION_SIZE) as u64) | kernel_attr(MAIR_IDX_MEM) | TYPE_BLOCK
        } else {
            0
        } by {
            assert(t1[i] == if i < 4 {
                ((i * L2_REGION_SIZE) as u64) | mapping.attr | TYPE_BLOCK
            } else {
                t0[i]
            });
        }
    }
    root_table
}

/// An identity mapping of the four blocks from block `first` on writes a
/// block descriptor `i * 512MB | attr | 0b01` into each of their root
/// descriptors and leaves the rest as they were.
proof fn lemma_identity_blocks_written(t0: Seq<u64>, t1: Seq<u64>, m: Mapping, first: int)
    requires
        0 <= first <= 8188,
        m.va == first * L2_REGION_SIZE,
        m.pa == m.va,
        m.size == 4 * L2_REGION_SIZE,
        t0.len() == ENTRIES,
        forall|i: int| first <= i < first + 4 ==> !desc_is_table(#[trigger] t0[i], START_LEVEL),
        words_written(t0, t1, START_LEVEL, 0, m.va as int, m.va + m.size, m),
    ensures
        forall|i: int|
            0 <= i < ENTRIES ==> #[trigger] t1[i] == if first <= i < first + 4 {
                ((i * L2_REGION_SIZE) as u64) | m.attr | TYPE_BLOCK
            } else {
                t0[i]
            },
{
    reveal(words_written);
    assert forall|i: int| 0 <= i < ENTRIES implies #[trigger] t1[i] == if first <= i < first + 4 {
        ((i * L2_REGION_SIZE) as u64) | m.attr | TYPE_BLOCK
    } else {
        t0[i]
    } by {
        assert(region_meets(START_LEVEL, 0, i, m.va as int, m.va + m.size) <==> first <= i < first
            + 4);
        if first <= i < first + 4 {
            let c = region_chunk(m, START_LEVEL, 0, i);
            assert((i * L2_REGION_SIZE) % (L2_REGION_SIZE as int) == 0) by (nonlinear_arith);
            assert(c.va == i * L2_REGION_SIZE);
            assert(c.size == L2_REGION_SIZE);
            assert(c.pa == i * L2_REGION_SIZE);
        }
    }
}

impl PageTableMut {
    /// The descriptor that `pte(i)` takes out.
    pub closed spec fn pte_spec(self, i: int) -> PteMut {
        PteMut {
            pte: Pte {
                raw: self.raw@[i],
                level: self.level,
                va: (self.va + i * region_size_spec(self.level)) as u64,
            },
        }
    }

    /// Hands the `i`-th descriptor, with the table's level and the address
    /// its region starts at, to `f`, and stores the descriptor `f` gives back.
    pub fn with_pte<F: FnOnce(PteMut) -> PteMut>(&mut self, i: usize, f: F)
        requires
            old(self).wf(),
            i < ENTRIES,
            f.requires((old(self).pte_spec(i as int),)),
        ensures
            old(self).pte_spec(i as int).spec_raw() == old(self).spec_entries()[i as int],
            old(self).pte_spec(i as int).spec_level() == old(self).spec_level(),
            old(self).pte_spec(i as int).spec_va() == old(self).spec_va() + i * region_size_spec(
                old(self).spec_level(),
            ),
            final(self).wf(),
            final(self).spec_level() == old(self).spec_level(),
            final(self).spec_va() == old(self).spec_va(),
            exists|p: PteMut|
                f.ensures((old(self).pte_spec(i as int),), p) && final(self).spec_entries()
                    == old(self).spec_entries().update(i as int, p.spec_raw()),
    {
        let p = self.pte(i);
        assert(p == self.pte_spec(i as int));
        let q = f(p);
        self.set_pte(i, q);
    }
}


/// The register values that switch translation to a root table.
pub struct InstallRegs {
    /// TTBR0_EL1: the root table, address space 0.
    pub ttbr0: u64,
    /// TTBR1_EL1: the same root table for the upper half.
    pub ttbr1: u64,
    /// SCTLR_EL1: the MMU enabled.
    pub sctlr: u64,
}

impl PageTableMut {
    /// The register values that make this root table, stored at
    /// `table_addr`, translate both halves of the address space, with the
    /// MMU turned on.
    pub fn install(&self, table_addr: u64) -> (r: InstallRegs)
        requires
            self.spec_level() == START_LEVEL,
        ensures
            r.ttbr0 == (0u64 << TTBR_ASID_SHIFT) | (table_addr << TTBR_BADDR_SHIFT),
            r.ttbr1 == r.ttbr0,
            r.ttbr0 == table_addr,
            r.sctlr == SCTLR_M_MASK,
    {
        let asid: u64 = 0;
        let ttbr = ttbr_value(asid, table_addr);
        proof {
            assert((0u64 << 48u64) | (table_addr << 0u64) == table_addr) by (bit_vector);
        }
        InstallRegs { ttbr0: ttbr, ttbr1: ttbr, sctlr: SCTLR_M_MASK }
    }
}

impl core::ops::Deref for PteMut {
    type Target = Pte;

    fn deref(&self) -> (r: &Pte)
        ensures
            r.spec_raw() == self.spec_raw(),
            r.spec_level() == self.spec_level(),
            r.spec_va() == self.spec_va(),
    {
        &self.pte
    }
}


} // verus!
