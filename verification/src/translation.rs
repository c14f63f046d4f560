//! The meaning of translation tables: what a table, with the next-level
//! tables kept in the world's pages, translates each virtual address to;
//! and the facts about indexes, regions and page use that mapping rests on.
use vstd::prelude::*;
use crate::arch::PAGE_SIZE;
use crate::hw::HW;
use crate::mm::{PageArena, get_spec};
use crate::pagetable::Mapping;
use crate::world::World;
use crate::pte::{
    ENTRIES, L2_REGION_SIZE, VA_LIMIT, PA_LIMIT, GRANULE, START_LEVEL, END_LEVEL, ATTRS_MASK,
    TYPE_BLOCK, TYPE_TABLE, TABLE_ATTRS_MASK,
    desc_addr, desc_attrs, desc_type, desc_is_leaf, desc_is_table, region_size_spec, table_index, is_out_addr,
};

verus! {

/// What a leaf descriptor `e` at `level` translates `va` to: the output
/// address and the attributes, or nothing if it is invalid.
pub open spec fn translate_leaf(e: u64, level: u8, va: int) -> Option<(int, u64)> {
    if desc_is_leaf(e, level) {
        Some((desc_addr(e) + va % region_size_spec(level), desc_attrs(e)))
    } else {
        None
    }
}

/// What the level-3 table `t` translates `va` to.
pub open spec fn translate_l3(t: Seq<u64>, va: int) -> Option<(int, u64)> {
    translate_leaf(t[table_index(3, va)], 3, va)
}

/// What the table `t` at `level`, with the next-level tables stored in the
/// world's pages, translates `va` to. The hierarchical attributes of a table
/// descriptor (bits [63:59]) are not applied to what lies under it: the
/// roots that `root_wf` admits carry none.
pub open spec fn translate<H: HW>(w: World<H>, t: Seq<u64>, level: u8, va: int) -> Option<(int, u64)> {
    if level == END_LEVEL {
        translate_l3(t, va)
    } else {
        let e = t[table_index(2, va)];
        if desc_is_table(e, 2) {
            if w.holds_page(desc_addr(e)) {
                translate_l3(w.page_at(desc_addr(e)), va)
            } else {
                None
            }
        } else {
            translate_leaf(e, 2, va)
        }
    }
}

/// Where `m` sends `va`.
pub open spec fn mapping_target(m: Mapping, va: int) -> Option<(int, u64)> {
    Some((m.pa + (va - m.va), m.attr))
}

/// Bytes of virtual address space that a table at `level` covers.
pub open spec fn table_span(level: u8) -> int {
    ENTRIES * region_size_spec(level)
}

/// A root table is consistent with the world: its table descriptors point
/// to distinct pages the world holds, its blocks are block aligned, no
/// descriptor has the reserved type 0b10, and none carries the hierarchical
/// attributes of bits [63:59], so that a table descriptor restricts nothing
/// that the descriptors under it grant.
pub open spec fn root_wf<H: HW>(w: World<H>, t: Seq<u64>) -> bool {
    &&& t.len() == ENTRIES
    &&& forall|i: int|
        0 <= i < ENTRIES && desc_is_table(#[trigger] t[i], 2) ==> w.holds_page(desc_addr(t[i]))
    &&& forall|i: int, j: int|
        0 <= i < ENTRIES && 0 <= j < ENTRIES && i != j && desc_is_table(#[trigger] t[i], 2)
            && desc_is_table(#[trigger] t[j], 2) ==> desc_addr(t[i]) != desc_addr(t[j])
    &&& forall|i: int|
        0 <= i < ENTRIES && desc_is_leaf(#[trigger] t[i], 2) ==> desc_addr(t[i]) % L2_REGION_SIZE
            == 0
    &&& forall|i: int|
        0 <= i < ENTRIES ==> desc_type(#[trigger] t[i]) != 2 && t[i] & TABLE_ATTRS_MASK == 0
}

/// `m` is a mapping the table at `level` covering `[base, base + span)` can
/// take. A mapping into the root carries no hierarchical table attributes,
/// since the tables made for it take theirs from it.
pub open spec fn mapping_fits(m: Mapping, level: u8, base: u64) -> bool {
    &&& m.va % GRANULE == 0
    &&& m.pa % GRANULE == 0
    &&& m.size % GRANULE == 0
    &&& base <= m.va
    &&& m.va + m.size <= base + table_span(level)
    &&& m.pa + m.size <= PA_LIMIT
    &&& m.attr & !ATTRS_MASK == 0
    &&& level == START_LEVEL ==> m.attr & TABLE_ATTRS_MASK == 0
}

/// Between `(w0, t0)` and `(w1, t1)`, the table at `level` covering
/// `[base, base + span)` came to map `[lo, hi)` as `m` says, and nothing
/// else it translates changed.
pub open spec fn maps_between<H: HW>(
    w0: World<H>,
    t0: Seq<u64>,
    w1: World<H>,
    t1: Seq<u64>,
    level: u8,
    base: int,
    lo: int,
    hi: int,
    m: Mapping,
) -> bool {
    forall|x: int|
        base <= x < base + table_span(level) ==> #[trigger] translate(w1, t1, level, x) == if lo <= x < hi {
            mapping_target(m, x)
        } else {
            translate(w0, t0, level, x)
        }
}

/// The region of the `idx`-th descriptor of the root is block aligned and
/// lies in the input address space.
pub proof fn lemma_region_start(idx: int)
    requires
        0 <= idx < ENTRIES,
    ensures
        (idx * L2_REGION_SIZE) % (L2_REGION_SIZE as int) == 0,
        idx * L2_REGION_SIZE + L2_REGION_SIZE <= VA_LIMIT,
        idx * L2_REGION_SIZE == idx * region_size_spec(START_LEVEL),
{
    assert((idx * 0x2000_0000) % 0x2000_0000 == 0) by (nonlinear_arith);
    assert(idx * 0x2000_0000 + 0x2000_0000 <= 0x400_0000_0000) by (nonlinear_arith)
        requires
            0 <= idx < 8192,
    ;
}

/// Where a table's lookup index for `x` comes from: the offset of `x` in the table's span.
pub proof fn lemma_table_index(level: u8, base: int, x: int)
    requires
        2 <= level <= 3,
        base >= 0,
        base % table_span(level) == 0,
        base <= x < base + table_span(level),
    ensures
        table_index(level, x) == (x - base) / region_size_spec(level),
        0 <= table_index(level, x) < ENTRIES,
{
    let r = region_size_spec(level);
    let q = base / table_span(level);
    assert(table_span(level) == 8192 * r);
    vstd::arithmetic::div_mod::lemma_fundamental_div_mod(base, table_span(level));
    assert(base == q * table_span(level)) by (nonlinear_arith)
        requires
            base == table_span(level) * (base / table_span(level)) + base % table_span(level),
            base % table_span(level) == 0,
            q == base / table_span(level),
    ;
    assert(x / r == q * 8192 + (x - base) / r) by (nonlinear_arith)
        requires
            base == q * (8192 * r),
            r > 0,
            base <= x,
            q >= 0,
    ;
    assert(0 <= (x - base) / r < 8192) by (nonlinear_arith)
        requires
            r > 0,
            base <= x < base + 8192 * r,
    ;
    assert((q * 8192 + (x - base) / r) % 8192 == (x - base) / r) by (nonlinear_arith)
        requires
            0 <= (x - base) / r < 8192,
            q >= 0,
    ;
}

/// `w1` is `w0` after a fresh page was taken from the pool and its
/// contents taken out to fill a new table: the page is at `a`.
pub open spec fn fresh_page_taken<H: HW>(w0: World<H>, w1: World<H>, a: u64) -> bool {
    &&& a == w0.page_pool.current
    &&& is_out_addr(a)
    &&& !w0.holds_page(a)
    &&& w1.holds_page(a)
    &&& w1.int == w0.int
    &&& w1.hw == w0.hw
    &&& w1.page_pool == crate::mm::get_spec(w0.page_pool).1
    &&& w0.page_pool.current < w0.page_pool.end
    &&& w1.page_pool.start == w0.page_pool.start
    &&& w1.page_pool.end == w0.page_pool.end
    &&& w1.page_pool.current == w0.page_pool.current + crate::arch::PAGE_SIZE
    &&& w1.pt_pages@.len() == w0.pt_pages@.len() + 1
    &&& w1.page_slot(a) == w0.pt_pages@.len()
    &&& forall|k: int| 0 <= k < w0.pt_pages@.len() ==> #[trigger] w1.pt_pages@[k] == w0.pt_pages@[k]
}

/// `w1` only differs from `w0` in pages added or rewritten, never in the
/// pool's bounds or in the machine.
pub open spec fn world_grows<H: HW>(w0: World<H>, w1: World<H>) -> bool {
    &&& w1.int == w0.int
    &&& w1.hw == w0.hw
    &&& w1.page_pool.start == w0.page_pool.start
    &&& w1.page_pool.end == w0.page_pool.end
    &&& w1.page_pool.current >= w0.page_pool.current
    &&& w1.pt_pages@.len() >= w0.pt_pages@.len()
}

/// Which addresses of a table's span a descriptor index covers, and where in
/// its region an address lies.
pub proof fn lemma_in_region(level: u8, base: int, idx: int, x: int)
    requires
        2 <= level <= 3,
        base >= 0,
        base % table_span(level) == 0,
        0 <= idx < ENTRIES,
        base <= x < base + table_span(level),
    ensures
        table_index(level, x) == idx <==> (base + idx * region_size_spec(level) <= x && x < base
            + idx * region_size_spec(level) + region_size_spec(level)),
        table_index(level, x) == idx ==> x % region_size_spec(level) == x - (base + idx
            * region_size_spec(level)),
{
    lemma_table_index(level, base, x);
    let r = region_size_spec(level);
    let s = table_span(level);
    assert(s == 8192 * r);
    vstd::arithmetic::div_mod::lemma_fundamental_div_mod(base, s);
    let q = base / s;
    assert(base == q * 8192 * r) by (nonlinear_arith)
        requires
            base == s * (base / s) + base % s,
            base % s == 0,
            q == base / s,
            s == 8192 * r,
    ;
    let ti = (x - base) / r;
    vstd::arithmetic::div_mod::lemma_fundamental_div_mod(x - base, r);
    assert(0 <= (x - base) % r < r) by {
        vstd::arithmetic::div_mod::lemma_mod_bound(x - base, r);
    }
    assert(ti == idx <==> (base + idx * r <= x && x < base + idx * r + r)) by (nonlinear_arith)
        requires
            x - base == r * ti + (x - base) % r,
            0 <= (x - base) % r < r,
            r > 0,
    ;
    if ti == idx {
        assert(x % r == x - (base + idx * r)) by (nonlinear_arith)
            requires
                x - base == r * idx + (x - base) % r,
                0 <= (x - base) % r < r,
                base == q * 8192 * r,
                r > 0,
        {
            vstd::arithmetic::div_mod::lemma_fundamental_div_mod(x, r);
            vstd::arithmetic::div_mod::lemma_mod_bound(x, r);
            assert(x == r * (q * 8192 + idx) + (x - base) % r);
            vstd::arithmetic::div_mod::lemma_mod_multiples_vanish(q * 8192 + idx, (x - base) % r, r);
            vstd::arithmetic::div_mod::lemma_small_mod(((x - base) % r) as nat, r as nat);
        }
    }
}

/// The region of `sub` at `level` cannot be written as one descriptor in
/// place of `e`, so mapping it takes a fresh page for a table.
pub open spec fn region_needs_page(e: u64, level: u8, sub: Mapping) -> bool {
    &&& level == START_LEVEL
    &&& !desc_is_table(e, START_LEVEL)
    &&& !(sub.size == L2_REGION_SIZE && sub.pa % L2_REGION_SIZE == 0)
}

/// Where the part of `m` that starts at `va` ends within the region of a
/// descriptor at `level`.
pub open spec fn chunk_end(m: Mapping, level: u8, va: int) -> int {
    let e = va - va % region_size_spec(level) + region_size_spec(level);
    if m.va + m.size < e {
        m.va + m.size
    } else {
        e
    }
}

/// The part of `m` that starts at `va` and stays within one region at `level`.
pub open spec fn chunk_of(m: Mapping, level: u8, va: int) -> Mapping {
    Mapping {
        va: va as u64,
        pa: (m.pa + (va - m.va)) as u64,
        size: (chunk_end(m, level, va) - va) as u64,
        attr: m.attr,
    }
}

/// Region `i` of a table at `level` covering the addresses from `base` on
/// meets `[lo, hi)`.
pub open spec fn region_meets(level: u8, base: int, i: int, lo: int, hi: int) -> bool {
    &&& lo < hi
    &&& base + i * region_size_spec(level) < hi
    &&& lo < base + i * region_size_spec(level) + region_size_spec(level)
}

/// The part of `m` that lies in region `i` of a table at `level` covering
/// the addresses from `base` on.
pub open spec fn region_chunk(m: Mapping, level: u8, base: int, i: int) -> Mapping {
    let rs = base + i * region_size_spec(level);
    chunk_of(m, level, if m.va < rs { rs } else { m.va as int })
}

/// The descriptor word `new` that mapping `sub` leaves in place of the
/// descriptor `old` at `level`: a page `sub.pa | sub.attr | 0b11` at the last
/// level; before it, an existing table stays as it was, a whole aligned
/// region becomes a block `sub.pa | sub.attr | 0b01`, and anything else
/// becomes a table descriptor `addr | attrs | 0b11` for a fresh table, with
/// the old block's attributes, or the table attributes of `sub.attr` where
/// there was no block.
pub open spec fn word_written(old: u64, new: u64, level: u8, sub: Mapping) -> bool {
    if level == END_LEVEL {
        new == sub.pa | sub.attr | TYPE_TABLE
    } else if desc_is_table(old, START_LEVEL) {
        new == old
    } else if sub.size == L2_REGION_SIZE && sub.pa % L2_REGION_SIZE == 0 {
        new == sub.pa | sub.attr | TYPE_BLOCK
    } else if desc_type(old) == TYPE_BLOCK {
        desc_is_table(new, START_LEVEL) && new == desc_addr(new) | desc_attrs(old) | TYPE_TABLE
    } else {
        desc_is_table(new, START_LEVEL) && new == desc_addr(new) | (TABLE_ATTRS_MASK & sub.attr)
            | TYPE_TABLE
    }
}

/// Between the tables `t0` and `t1` at `level` covering the addresses from
/// `base` on, every descriptor whose region meets `[lo, hi)` came to hold
/// the word that mapping its part of `m` leaves, and every other descriptor
/// stayed the same word.
#[verifier::opaque]
pub open spec fn words_written(
    t0: Seq<u64>,
    t1: Seq<u64>,
    level: u8,
    base: int,
    lo: int,
    hi: int,
    m: Mapping,
) -> bool {
    forall|i: int|
        0 <= i < ENTRIES ==> if region_meets(level, base, i, lo, hi) {
            word_written(t0[i], #[trigger] t1[i], level, region_chunk(m, level, base, i))
        } else {
            t1[i] == t0[i]
        }
}

/// Page `k` of the world `w` holds the table of a descriptor of `t` whose
/// region meets `[lo, hi)`.
pub open spec fn page_touched<H: HW>(
    w: World<H>,
    t: Seq<u64>,
    level: u8,
    base: int,
    lo: int,
    hi: int,
    k: int,
) -> bool {
    exists|i: int|
        0 <= i < ENTRIES && #[trigger] region_meets(level, base, i, lo, hi) && desc_is_table(
            t[i],
            level,
        ) && w.page_slot(desc_addr(t[i])) == k
}

/// Pages of `w0` that hold no table under a region meeting `[lo, hi)` are
/// the same in `w1`.
#[verifier::opaque]
pub open spec fn pages_kept<H: HW>(
    w0: World<H>,
    t0: Seq<u64>,
    w1: World<H>,
    level: u8,
    base: int,
    lo: int,
    hi: int,
) -> bool {
    &&& w1.pt_pages@.len() >= w0.pt_pages@.len()
    &&& forall|k: int|
        0 <= k < w0.pt_pages@.len() && !page_touched(w0, t0, level, base, lo, hi, k)
            ==> #[trigger] w1.pt_pages@[k] == w0.pt_pages@[k]
}

/// The level-3 table of invalid descriptors that a fresh page holds.
pub open spec fn zero_table() -> Seq<u64> {
    Seq::new(ENTRIES as nat, |j: int| 0u64)
}

/// The level-3 table that maps the region of the level-2 block `e` page by
/// page, with the block's attributes: what expanding the block leaves.
pub open spec fn expanded_block(e: u64) -> Seq<u64> {
    Seq::new(
        ENTRIES as nat,
        |j: int| ((desc_addr(e) + j * GRANULE) as u64) | desc_attrs(e) | TYPE_TABLE,
    )
}

/// The level-3 table that lies under the level-2 descriptor `e` of a table
/// in `w` when a mapping reaches its region: the table `e` points to, the
/// expansion of the block `e`, or a fresh table where `e` is invalid.
pub open spec fn table_before<H: HW>(w: World<H>, e: u64) -> Seq<u64> {
    if desc_is_table(e, START_LEVEL) {
        w.page_at(desc_addr(e))
    } else if desc_is_leaf(e, START_LEVEL) {
        expanded_block(e)
    } else {
        zero_table()
    }
}

/// Where the root descriptor `e0` of region `i` in `w0` became `e1` in `w1`
/// by mapping `c`, and `e1` is a table: that table came to hold the words
/// that mapping `c` leaves over the table that lay under `e0`.
#[verifier::opaque]
pub open spec fn subtable_written<H: HW>(
    w0: World<H>,
    e0: u64,
    w1: World<H>,
    e1: u64,
    i: int,
    c: Mapping,
) -> bool {
    desc_is_table(e1, START_LEVEL) ==> words_written(
        table_before(w0, e0),
        w1.page_at(desc_addr(e1)),
        END_LEVEL,
        i * L2_REGION_SIZE,
        c.va as int,
        c.va + c.size,
        c,
    )
}

/// Between the roots `(w0, t0)` and `(w1, t1)`, the level-3 table under
/// every root descriptor whose region meets `[lo, hi)` and that is a table
/// came to hold the words that mapping that region's part of `m` leaves
/// over the table that lay under it before.
#[verifier::opaque]
pub open spec fn subtables_written<H: HW>(
    w0: World<H>,
    t0: Seq<u64>,
    w1: World<H>,
    t1: Seq<u64>,
    lo: int,
    hi: int,
    m: Mapping,
) -> bool {
    forall|i: int|
        0 <= i < ENTRIES && region_meets(START_LEVEL, 0, i, lo, hi) ==> subtable_written(
            w0,
            t0[i],
            w1,
            #[trigger] t1[i],
            i,
            region_chunk(m, START_LEVEL, 0, i),
        )
}

/// How many fresh pages mapping the part of `m` from `va` on into the
/// table `t` at `level` takes.
#[verifier::opaque]
pub open spec fn pages_needed(t: Seq<u64>, level: u8, m: Mapping, va: int) -> nat
    decreases m.va + m.size - va,
{
    if 2 <= level <= 3 && va < m.va + m.size {
        let n: nat = if region_needs_page(t[table_index(level, va)], level, chunk_of(m, level, va)) {
            1
        } else {
            0
        };
        proof {
            lemma_chunk_end_grows(m, level, va);
        }
        n + pages_needed(t, level, m, chunk_end(m, level, va))
    } else {
        0
    }
}

pub proof fn lemma_chunk_end_grows(m: Mapping, level: u8, va: int)
    requires
        2 <= level <= 3,
        va < m.va + m.size,
    ensures
        va < chunk_end(m, level, va),
{
    let r = region_size_spec(level);
    vstd::arithmetic::div_mod::lemma_mod_bound(va, r);
}

/// How many pages the pool `p` can still hand out.
#[verifier::opaque]
pub open spec fn pages_available(p: PageArena) -> nat {
    if p.current < p.end {
        ((p.end - p.current + PAGE_SIZE - 1) / (PAGE_SIZE as int)) as nat
    } else {
        0
    }
}

/// A pool whose cursor reached its end has nothing left.
pub proof fn lemma_pages_available_none(p: PageArena)
    ensures
        !(p.current < p.end) <==> pages_available(p) == 0,
{
    reveal(pages_available);
    if p.current < p.end {
        assert((p.end - p.current + 0xFFFF) / 0x1_0000 >= 1);
    }
}

/// Handing out a page leaves one fewer.
pub proof fn lemma_pages_available_step(p: PageArena)
    requires
        p.current < p.end,
        p.current + PAGE_SIZE <= usize::MAX,
    ensures
        pages_available(get_spec(p).1) + 1 == pages_available(p),
{
    reveal(pages_available);
    let d = p.end - p.current;
    assert(d > 0);
    if d <= PAGE_SIZE {
        assert((d + 0xFFFF) / 0x1_0000 == 1);
    } else {
        assert((d + 0xFFFF) / 0x1_0000 == (d - 0x1_0000 + 0xFFFF) / 0x1_0000 + 1);
    }
}

/// Mapping `[lo, mid)` of `m` and then the part `[mid, mid + sub.size)` as
/// `sub` maps `[lo, mid + sub.size)` of `m`.
pub proof fn lemma_maps_compose<H: HW>(
    w0: World<H>,
    t0: Seq<u64>,
    w1: World<H>,
    t1: Seq<u64>,
    w2: World<H>,
    t2: Seq<u64>,
    level: u8,
    base: int,
    m: Mapping,
    mid: int,
    sub: Mapping,
)
    requires
        maps_between(w0, t0, w1, t1, level, base, m.va as int, mid, m),
        maps_between(w1, t1, w2, t2, level, base, mid, mid + sub.size, sub),
        sub.va == mid,
        sub.pa == m.pa + (mid - m.va),
        sub.attr == m.attr,
        m.va <= mid,
    ensures
        maps_between(w0, t0, w2, t2, level, base, m.va as int, mid + sub.size, m),
{
    assert forall|x: int| base <= x < base + table_span(level) implies #[trigger] translate(
        w2,
        t2,
        level,
        x,
    ) == if m.va <= x < mid + sub.size {
        mapping_target(m, x)
    } else {
        translate(w0, t0, level, x)
    } by {
        assert(translate(w1, t1, level, x) == if m.va <= x < mid {
            mapping_target(m, x)
        } else {
            translate(w0, t0, level, x)
        });
    }
}

/// Rewriting only descriptor `idx`, whose region holds `cur`, keeps every
/// descriptor that the addresses from the end `from` of that chunk on use.
pub proof fn lemma_entries_ahead(
    t0: Seq<u64>,
    t1: Seq<u64>,
    t2: Seq<u64>,
    level: u8,
    base: int,
    idx: int,
    cur: int,
    from: int,
    m: Mapping,
)
    requires
        2 <= level <= 3,
        base >= 0,
        base % table_span(level) == 0,
        0 <= idx < ENTRIES,
        t0.len() == ENTRIES,
        t1.len() == ENTRIES,
        t2.len() == ENTRIES,
        base + idx * region_size_spec(level) <= cur < from,
        from == base + idx * region_size_spec(level) + region_size_spec(level) || from == m.va
            + m.size,
        m.va + m.size <= base + table_span(level),
        forall|x: int|
            cur <= x < m.va + m.size ==> t1[#[trigger] table_index(level, x)] == t0[table_index(
                level,
                x,
            )],
        forall|i: int| 0 <= i < ENTRIES && i != idx ==> #[trigger] t2[i] == t1[i],
    ensures
        forall|x: int|
            from <= x < m.va + m.size ==> t2[#[trigger] table_index(level, x)] == t0[table_index(
                level,
                x,
            )],
{
    assert forall|x: int| from <= x < m.va + m.size implies t2[#[trigger] table_index(level, x)]
        == t0[table_index(level, x)] by {
        lemma_in_region(level, base, idx, x);
        lemma_table_index(level, base, x);
        assert(t1[table_index(level, x)] == t0[table_index(level, x)]);
    }
}

/// Mapping the part of `m` from `va` on takes what its first chunk takes
/// and then what the rest takes.
pub proof fn lemma_pages_needed_step(t: Seq<u64>, level: u8, m: Mapping, va: int)
    requires
        2 <= level <= 3,
        va < m.va + m.size,
    ensures
        pages_needed(t, level, m, va) == (if region_needs_page(
            t[table_index(level, va)],
            level,
            chunk_of(m, level, va),
        ) {
            1nat
        } else {
            0nat
        }) + pages_needed(t, level, m, chunk_end(m, level, va)),
{
    reveal_with_fuel(pages_needed, 1);
}

/// Nothing is left to map from the end of `m` on.
pub proof fn lemma_pages_needed_done(t: Seq<u64>, level: u8, m: Mapping, va: int)
    requires
        va >= m.va + m.size,
    ensures
        pages_needed(t, level, m, va) == 0,
{
    reveal_with_fuel(pages_needed, 1);
}

/// A mapping whose start, target and size are all block aligned is mapped
/// with blocks alone and takes no page.
pub proof fn lemma_pages_needed_blocks(t: Seq<u64>, m: Mapping, va: int)
    requires
        m.va % L2_REGION_SIZE == 0,
        m.pa % L2_REGION_SIZE == 0,
        m.size % L2_REGION_SIZE == 0,
        m.va <= va,
        (va - m.va) % (L2_REGION_SIZE as int) == 0,
        mapping_fits(m, START_LEVEL, 0),
    ensures
        pages_needed(t, START_LEVEL, m, va) == 0,
    decreases m.va + m.size - va,
{
    if va < m.va + m.size {
        lemma_pages_needed_step(t, START_LEVEL, m, va);
        assert(va % (L2_REGION_SIZE as int) == 0);
        assert((m.va + m.size - va) % (L2_REGION_SIZE as int) == 0);
        assert(chunk_end(m, START_LEVEL, va) == va + L2_REGION_SIZE);
        assert((m.pa + (va - m.va)) % (L2_REGION_SIZE as int) == 0);
        assert(!region_needs_page(t[table_index(START_LEVEL, va)], START_LEVEL, chunk_of(m, START_LEVEL, va)));
        lemma_pages_needed_blocks(t, m, va + L2_REGION_SIZE);
    } else {
        lemma_pages_needed_done(t, START_LEVEL, m, va);
    }
}

/// An empty table translates nothing and is consistent with any world.
pub proof fn lemma_empty_root<H: HW>(w: World<H>, x: int)
    ensures
        translate(w, Seq::new(ENTRIES as nat, |i: int| 0u64), START_LEVEL, x) is None,
        root_wf(w, Seq::new(ENTRIES as nat, |i: int| 0u64)),
{
    assert(0u64 & 3u64 == 0) by (bit_vector);
    assert(0u64 & 0xF800_0000_0000_0000u64 == 0) by (bit_vector);
    let z = Seq::new(ENTRIES as nat, |i: int| 0u64);
    let i = table_index(START_LEVEL, x);
    assert(0 <= i < ENTRIES) by {
        vstd::arithmetic::div_mod::lemma_mod_bound(x / region_size_spec(START_LEVEL), 8192);
    }
    assert(z[i] == 0);
}

/// Mapping `m1` and then `m2` into a table leaves `m2`'s range translated as
/// `m2` says, the rest of `m1`'s range as `m1` says, and every other address
/// as before: the later mapping wins where the two overlap.
pub proof fn lemma_later_mapping_wins<H: HW>(
    w0: World<H>,
    t0: Seq<u64>,
    w1: World<H>,
    t1: Seq<u64>,
    w2: World<H>,
    t2: Seq<u64>,
    level: u8,
    base: int,
    m1: Mapping,
    m2: Mapping,
)
    requires
        maps_between(w0, t0, w1, t1, level, base, m1.va as int, m1.va + m1.size, m1),
        maps_between(w1, t1, w2, t2, level, base, m2.va as int, m2.va + m2.size, m2),
    ensures
        forall|x: int|
            base <= x < base + table_span(level) ==> #[trigger] translate(w2, t2, level, x) == if m2.va
                <= x < m2.va + m2.size {
                mapping_target(m2, x)
            } else if m1.va <= x < m1.va + m1.size {
                mapping_target(m1, x)
            } else {
                translate(w0, t0, level, x)
            },
{
    assert forall|x: int| base <= x < base + table_span(level) implies #[trigger] translate(
        w2,
        t2,
        level,
        x,
    ) == if m2.va <= x < m2.va + m2.size {
        mapping_target(m2, x)
    } else if m1.va <= x < m1.va + m1.size {
        mapping_target(m1, x)
    } else {
        translate(w0, t0, level, x)
    } by {
        assert(translate(w1, t1, level, x) == if m1.va <= x < m1.va + m1.size {
            mapping_target(m1, x)
        } else {
            translate(w0, t0, level, x)
        });
    }
}

} // verus!

verus! {

/// Before anything is mapped, nothing is written and every page is kept.
pub proof fn lemma_nothing_written_yet<H: HW>(w: World<H>, t: Seq<u64>, level: u8, base: int, lo: int, m: Mapping)
    ensures
        words_written(t, t, level, base, lo, lo, m),
        pages_kept(w, t, w, level, base, lo, lo),
{
    reveal(words_written);
    reveal(pages_kept);
}

/// How region `i` relates to region `idx`: before it, after it, or the same.
proof fn lemma_regions_ordered(level: u8, base: int, i: int, idx: int)
    requires
        2 <= level <= 3,
        i != idx,
    ensures
        i < idx ==> base + i * region_size_spec(level) + region_size_spec(level) <= base + idx
            * region_size_spec(level),
        i > idx ==> base + idx * region_size_spec(level) + region_size_spec(level) <= base + i
            * region_size_spec(level),
{
    let r = region_size_spec(level);
    assert(i < idx ==> i * r + r <= idx * r) by (nonlinear_arith)
        requires
            r > 0,
    ;
    assert(i > idx ==> idx * r + r <= i * r) by (nonlinear_arith)
        requires
            r > 0,
    ;
}

/// Mapping the chunk of `m` at `va`, in region `idx`, extends the
/// descriptor words written from `[m.va, va)` to `[m.va, va + size)`.
pub proof fn lemma_words_step(
    t0: Seq<u64>,
    t1: Seq<u64>,
    t2: Seq<u64>,
    level: u8,
    base: int,
    m: Mapping,
    va: int,
    size: int,
    idx: int,
)
    requires
        2 <= level <= 3,
        0 <= idx < ENTRIES,
        t1.len() == ENTRIES,
        t2.len() == ENTRIES,
        words_written(t0, t1, level, base, m.va as int, va, m),
        forall|i: int| 0 <= i < ENTRIES && i != idx ==> #[trigger] t2[i] == t1[i],
        t1[idx] == t0[idx],
        word_written(t1[idx], t2[idx], level, chunk_of(m, level, va)),
        base + idx * region_size_spec(level) <= va,
        va + size <= base + idx * region_size_spec(level) + region_size_spec(level),
        va == m.va || va == base + idx * region_size_spec(level),
        m.va <= va,
        size > 0,
    ensures
        words_written(t0, t2, level, base, m.va as int, va + size, m),
{
    reveal(words_written);
    let r = region_size_spec(level);
    assert forall|i: int| 0 <= i < ENTRIES implies if region_meets(
        level,
        base,
        i,
        m.va as int,
        va + size,
    ) {
        word_written(t0[i], #[trigger] t2[i], level, region_chunk(m, level, base, i))
    } else {
        t2[i] == t0[i]
    } by {
        if i == idx {
            assert(!region_meets(level, base, i, m.va as int, va));
            assert(region_chunk(m, level, base, i) == chunk_of(m, level, va));
        } else {
            lemma_regions_ordered(level, base, i, idx);
            assert(region_meets(level, base, i, m.va as int, va + size) == region_meets(
                level,
                base,
                i,
                m.va as int,
                va,
            ));
        }
    }
}

/// Pages kept while mapping `[m.va, va)` stay kept when the chunk at `va`,
/// in region `idx`, only rewrites the table page of that region.
pub proof fn lemma_pages_kept_step<H: HW>(
    w0: World<H>,
    t0: Seq<u64>,
    w1: World<H>,
    w2: World<H>,
    level: u8,
    base: int,
    m: Mapping,
    va: int,
    size: int,
    idx: int,
)
    requires
        2 <= level <= 3,
        0 <= idx < ENTRIES,
        pages_kept(w0, t0, w1, level, base, m.va as int, va),
        w1.page_pool.start == w0.page_pool.start,
        w2.pt_pages@.len() >= w1.pt_pages@.len(),
        forall|k: int|
            0 <= k < w1.pt_pages@.len() && !(level == START_LEVEL && desc_is_table(
                t0[idx],
                START_LEVEL,
            ) && k == w1.page_slot(desc_addr(t0[idx]))) ==> #[trigger] w2.pt_pages@[k]
                == w1.pt_pages@[k],
        base + idx * region_size_spec(level) <= va < va + size,
        va < base + idx * region_size_spec(level) + region_size_spec(level),
        m.va <= va,
        t0.len() == ENTRIES,
    ensures
        pages_kept(w0, t0, w2, level, base, m.va as int, va + size),
{
    reveal(pages_kept);
    assert forall|k: int|
        0 <= k < w0.pt_pages@.len() && !page_touched(w0, t0, level, base, m.va as int, va + size, k)
            implies #[trigger] w2.pt_pages@[k] == w0.pt_pages@[k] by {
        if page_touched(w0, t0, level, base, m.va as int, va, k) {
            let i = choose|i: int|
                0 <= i < ENTRIES && #[trigger] region_meets(level, base, i, m.va as int, va)
                    && desc_is_table(t0[i], level) && w0.page_slot(desc_addr(t0[i])) == k;
            assert(region_meets(level, base, i, m.va as int, va + size));
        }
        if level == START_LEVEL && desc_is_table(t0[idx], START_LEVEL) && k == w1.page_slot(
            desc_addr(t0[idx]),
        ) {
            assert(region_meets(level, base, idx, m.va as int, va + size));
            assert(page_touched(w0, t0, level, base, m.va as int, va + size, k));
        }
    }
}

} // verus!

verus! {

/// From any chunk start `va` of `m` on, a table that mapping `m` has
/// already written needs no fresh page to map `m` again.
proof fn lemma_no_page_needed_from(
    t0: Seq<u64>,
    t1: Seq<u64>,
    level: u8,
    base: int,
    m: Mapping,
    va: int,
)
    requires
        2 <= level <= 3,
        0 <= base <= VA_LIMIT,
        base % table_span(level) == 0,
        mapping_fits(m, level, base as u64),
        t0.len() == ENTRIES,
        t1.len() == ENTRIES,
        words_written(t0, t1, level, base, m.va as int, m.va + m.size, m),
        m.va <= va,
        va == m.va || va % region_size_spec(level) == 0,
    ensures
        pages_needed(t1, level, m, va) == 0,
    decreases m.va + m.size - va,
{
    if va < m.va + m.size {
        reveal(words_written);
        let r = region_size_spec(level);
        lemma_table_index(level, base, va);
        let idx = table_index(level, va);
        lemma_in_region(level, base, idx, va);
        assert(region_meets(level, base, idx, m.va as int, m.va + m.size));
        assert(region_chunk(m, level, base, idx) == chunk_of(m, level, va));
        lemma_pages_needed_step(t1, level, m, va);
        lemma_chunk_end_grows(m, level, va);
        let e = chunk_end(m, level, va);
        if e < m.va + m.size {
            if level == START_LEVEL {
                assert((va - va % 0x2000_0000 + 0x2000_0000) % 0x2000_0000 == 0);
            } else {
                assert((va - va % 0x1_0000 + 0x1_0000) % 0x1_0000 == 0);
            }
            lemma_no_page_needed_from(t0, t1, level, base, m, e);
        } else {
            lemma_pages_needed_done(t1, level, m, e);
        }
    } else {
        lemma_pages_needed_done(t1, level, m, va);
    }
}

/// Mapping `m` again into the table that mapping `m` wrote takes no fresh
/// page, and any table it leaves holds the very words already there.
pub proof fn lemma_map_again(
    t0: Seq<u64>,
    t1: Seq<u64>,
    t2: Seq<u64>,
    level: u8,
    base: int,
    m: Mapping,
)
    requires
        2 <= level <= 3,
        0 <= base <= VA_LIMIT,
        base % table_span(level) == 0,
        mapping_fits(m, level, base as u64),
        t0.len() == ENTRIES,
        t1.len() == ENTRIES,
        words_written(t0, t1, level, base, m.va as int, m.va + m.size, m),
    ensures
        pages_needed(t1, level, m, m.va as int) == 0,
        t2.len() == ENTRIES && words_written(t1, t2, level, base, m.va as int, m.va + m.size, m)
            ==> t2 == t1,
{
    lemma_no_page_needed_from(t0, t1, level, base, m, m.va as int);
    if t2.len() == ENTRIES && words_written(t1, t2, level, base, m.va as int, m.va + m.size, m) {
        reveal(words_written);
        assert forall|i: int| 0 <= i < ENTRIES implies #[trigger] t2[i] == t1[i] by {
            if region_meets(level, base, i, m.va as int, m.va + m.size) {
                assert(word_written(t0[i], t1[i], level, region_chunk(m, level, base, i)));
                assert(word_written(t1[i], t2[i], level, region_chunk(m, level, base, i)));
            }
        }
        assert(t2 =~= t1);
    }
}

} // verus!

verus! {

/// Mapping nothing rewrites no descriptor and touches no page.
pub proof fn lemma_empty_mapping_keeps_all<H: HW>(
    w0: World<H>,
    t0: Seq<u64>,
    w1: World<H>,
    t1: Seq<u64>,
    level: u8,
    base: int,
    m: Mapping,
)
    requires
        m.size == 0,
        t0.len() == ENTRIES,
        t1.len() == ENTRIES,
        words_written(t0, t1, level, base, m.va as int, m.va + m.size, m),
        pages_kept(w0, t0, w1, level, base, m.va as int, m.va + m.size),
    ensures
        t1 == t0,
        forall|k: int| 0 <= k < w0.pt_pages@.len() ==> #[trigger] w1.pt_pages@[k] == w0.pt_pages@[k],
{
    reveal(words_written);
    reveal(pages_kept);
    assert forall|i: int| 0 <= i < ENTRIES implies #[trigger] t1[i] == t0[i] by {
        assert(!region_meets(level, base, i, m.va as int, m.va + m.size));
    }
    assert(t1 =~= t0);
    assert forall|k: int| 0 <= k < w0.pt_pages@.len() implies #[trigger] w1.pt_pages@[k]
        == w0.pt_pages@[k] by {
        assert(!page_touched(w0, t0, level, base, m.va as int, m.va + m.size, k));
    }
}

} // verus!

verus! {

/// Nothing under the root is written before mapping starts.
pub proof fn lemma_no_subtable_written_yet<H: HW>(w: World<H>, t: Seq<u64>, lo: int, m: Mapping)
    ensures
        subtables_written(w, t, w, t, lo, lo, m),
{
    reveal(subtables_written);
}

/// Mapping the chunk of `m` at `va`, in root region `idx`, extends the
/// level-3 words written under `[m.va, va)` to `[m.va, va + size)`, when the
/// step only rewrote descriptor `idx` and the page of its table.
pub proof fn lemma_subtables_step<H: HW>(
    w0: World<H>,
    t0: Seq<u64>,
    w1: World<H>,
    t1: Seq<u64>,
    w2: World<H>,
    t2: Seq<u64>,
    m: Mapping,
    va: int,
    size: int,
    idx: int,
)
    requires
        0 <= idx < ENTRIES,
        root_wf(w0, t0),
        root_wf(w1, t1),
        w1.page_pool.start == w0.page_pool.start,
        w2.page_pool.start == w1.page_pool.start,
        subtables_written(w0, t0, w1, t1, m.va as int, va, m),
        pages_kept(w0, t0, w1, START_LEVEL, 0, m.va as int, va),
        t2.len() == ENTRIES,
        t1[idx] == t0[idx],
        forall|i: int| 0 <= i < ENTRIES && i != idx ==> #[trigger] t2[i] == t1[i],
        w2.pt_pages@.len() >= w1.pt_pages@.len(),
        forall|k: int|
            0 <= k < w1.pt_pages@.len() && !(desc_is_table(t1[idx], START_LEVEL) && k
                == w1.page_slot(desc_addr(t1[idx]))) ==> #[trigger] w2.pt_pages@[k]
                == w1.pt_pages@[k],
        subtable_written(w1, t1[idx], w2, t2[idx], idx, chunk_of(m, START_LEVEL, va)),
        idx * L2_REGION_SIZE <= va,
        va + size <= idx * L2_REGION_SIZE + L2_REGION_SIZE,
        va == m.va || va == idx * L2_REGION_SIZE,
        m.va <= va,
        size > 0,
        chunk_of(m, START_LEVEL, va).va == va,
        chunk_of(m, START_LEVEL, va).size == size,
    ensures
        subtables_written(w0, t0, w2, t2, m.va as int, va + size, m),
{
    reveal(subtables_written);
    reveal(subtable_written);
    assert forall|i: int|
        0 <= i < ENTRIES && region_meets(START_LEVEL, 0, i, m.va as int, va + size) implies
            subtable_written(w0, t0[i], w2, #[trigger] t2[i], i, region_chunk(m, START_LEVEL, 0, i))
        by {
        if i == idx {
            assert(!region_meets(START_LEVEL, 0, i, m.va as int, va));
            assert(region_chunk(m, START_LEVEL, 0, i) == chunk_of(m, START_LEVEL, va));
            let e = t0[idx];
            if desc_is_table(e, START_LEVEL) {
                let a = desc_addr(e);
                let k = w0.page_slot(a);
                w0.lemma_slots_apart(a, a);
                assert(k == w1.page_slot(a));
                if page_touched(w0, t0, START_LEVEL, 0, m.va as int, va, k) {
                    let j = choose|j: int|
                        0 <= j < ENTRIES && #[trigger] region_meets(START_LEVEL, 0, j, m.va as int, va)
                            && desc_is_table(t0[j], START_LEVEL) && w0.page_slot(desc_addr(t0[j])) == k;
                    assert(j != idx);
                    w0.lemma_slots_apart(desc_addr(t0[j]), a);
                }
                reveal(pages_kept);
                assert(w1.pt_pages@[k] == w0.pt_pages@[k]);
                assert(table_before(w1, t1[idx]) == table_before(w0, t0[idx]));
            }
        } else {
            lemma_regions_ordered(START_LEVEL, 0, i, idx);
            assert(region_meets(START_LEVEL, 0, i, m.va as int, va + size) == region_meets(
                START_LEVEL,
                0,
                i,
                m.va as int,
                va,
            ));
            assert(t2[i] == t1[i]);
            assert(subtable_written(w0, t0[i], w1, t1[i], i, region_chunk(m, START_LEVEL, 0, i)));
            if desc_is_table(t1[i], START_LEVEL) {
                let a = desc_addr(t1[i]);
                assert(w1.holds_page(a));
                w1.lemma_slots_apart(a, a);
                if desc_is_table(t1[idx], START_LEVEL) {
                    w1.lemma_slots_apart(a, desc_addr(t1[idx]));
                }
                assert(w2.pt_pages@[w1.page_slot(a)] == w1.pt_pages@[w1.page_slot(a)]);
                assert(w2.page_at(a) == w1.page_at(a));
            }
        }
    }
}

} // verus!

verus! {

/// The part of a mapping the root can take that falls in root region `i`
/// is a mapping the level-3 table of that region can take.
pub proof fn lemma_region_chunk_fits(m: Mapping, i: int)
    requires
        mapping_fits(m, START_LEVEL, 0),
        0 <= i < ENTRIES,
        region_meets(START_LEVEL, 0, i, m.va as int, m.va + m.size),
    ensures
        mapping_fits(region_chunk(m, START_LEVEL, 0, i), END_LEVEL, (i * L2_REGION_SIZE) as u64),
        region_chunk(m, START_LEVEL, 0, i).size > 0,
{
    let r = L2_REGION_SIZE as int;
    let g = GRANULE as int;
    let rs = i * r;
    lemma_region_start(i);
    let s = if m.va < rs { rs } else { m.va as int };
    lemma_in_region(START_LEVEL, 0, i, s);
    assert(table_index(START_LEVEL, s) == i);
    assert(s % r == s - rs);
    assert(rs % g == 0) by {
        assert(rs == (i * 0x2000) * 0x1_0000) by (nonlinear_arith)
            requires
                rs == i * 0x2000_0000,
        ;
        vstd::arithmetic::div_mod::lemma_mod_multiples_basic(i * 0x2000, 0x1_0000);
    }
    let e = if m.va + m.size < rs + r { m.va + m.size } else { rs + r };
    assert(chunk_end(m, START_LEVEL, s) == e);
    assert((rs + r) % g == 0) by {
        vstd::arithmetic::div_mod::lemma_mod_adds(rs, r, g);
    }
    assert((m.va + m.size) % g == 0) by {
        vstd::arithmetic::div_mod::lemma_mod_adds(m.va as int, m.size as int, g);
    }
    assert((e - s) % g == 0) by {
        vstd::arithmetic::div_mod::lemma_mod_sub_multiples_vanish(e - s, g);
        vstd::arithmetic::div_mod::lemma_sub_mod_noop(e, s, g);
    }
    assert((m.pa + (s - m.va)) % g == 0) by {
        vstd::arithmetic::div_mod::lemma_sub_mod_noop(s, m.va as int, g);
        vstd::arithmetic::div_mod::lemma_mod_adds(m.pa as int, s - m.va, g);
    }
}

/// Mapping `m` into the root a second time changes nothing: it takes no
/// page, the root keeps its words, and every table page keeps its words.
pub proof fn lemma_map_twice<H: HW>(
    w0: World<H>,
    t0: Seq<u64>,
    w1: World<H>,
    t1: Seq<u64>,
    w2: World<H>,
    t2: Seq<u64>,
    m: Mapping,
)
    requires
        mapping_fits(m, START_LEVEL, 0),
        w0.wf(),
        root_wf(w0, t0),
        w1.wf(),
        root_wf(w1, t1),
        w2.wf(),
        world_grows(w0, w1),
        world_grows(w1, w2),
        t2.len() == ENTRIES,
        words_written(t0, t1, START_LEVEL, 0, m.va as int, m.va + m.size, m),
        subtables_written(w0, t0, w1, t1, m.va as int, m.va + m.size, m),
        words_written(t1, t2, START_LEVEL, 0, m.va as int, m.va + m.size, m),
        pages_kept(w1, t1, w2, START_LEVEL, 0, m.va as int, m.va + m.size),
        subtables_written(w1, t1, w2, t2, m.va as int, m.va + m.size, m),
        w2.page_pool.current == w1.page_pool.current + pages_needed(
            t1,
            START_LEVEL,
            m,
            m.va as int,
        ) * PAGE_SIZE,
    ensures
        pages_needed(t1, START_LEVEL, m, m.va as int) == 0,
        t2 == t1,
        w2.page_pool == w1.page_pool,
        w2.pt_pages@.len() == w1.pt_pages@.len(),
        forall|k: int|
            0 <= k < w1.pt_pages@.len() ==> (#[trigger] w2.pt_pages@[k])@ == w1.pt_pages@[k]@,
{
    lemma_map_again(t0, t1, t2, START_LEVEL, 0, m);
    assert(w2.pt_pages@.len() == w1.pt_pages@.len()) by (nonlinear_arith)
        requires
            w1.page_pool.current == w1.page_pool.start + w1.pt_pages@.len() * PAGE_SIZE,
            w2.page_pool.current == w2.page_pool.start + w2.pt_pages@.len() * PAGE_SIZE,
            w2.page_pool.current == w1.page_pool.current,
            w2.page_pool.start == w1.page_pool.start,
    ;
    let lo = m.va as int;
    let hi = m.va + m.size;
    assert forall|k: int| 0 <= k < w1.pt_pages@.len() implies (#[trigger] w2.pt_pages@[k])@
        == w1.pt_pages@[k]@ by {
        if page_touched(w1, t1, START_LEVEL, 0, lo, hi, k) {
            let i = choose|i: int|
                0 <= i < ENTRIES && #[trigger] region_meets(START_LEVEL, 0, i, lo, hi)
                    && desc_is_table(t1[i], START_LEVEL) && w1.page_slot(desc_addr(t1[i])) == k;
            let a = desc_addr(t1[i]);
            let c = region_chunk(m, START_LEVEL, 0, i);
            reveal(subtables_written);
            reveal(subtable_written);
            assert(t2[i] == t1[i]);
            assert(subtable_written(w0, t0[i], w1, t1[i], i, c));
            assert(subtable_written(w1, t1[i], w2, t2[i], i, c));
            lemma_region_chunk_fits(m, i);
            lemma_region_start(i);
            w1.lemma_slots_apart(a, a);
            assert(w2.holds_page(a));
            let before = table_before(w0, t0[i]);
            if desc_is_table(t0[i], START_LEVEL) {
                w0.lemma_slots_apart(desc_addr(t0[i]), desc_addr(t0[i]));
            }
            assert(before.len() == ENTRIES);
            lemma_map_again(before, w1.page_at(a), w2.page_at(a), END_LEVEL, i * L2_REGION_SIZE, c);
        } else {
            reveal(pages_kept);
        }
    }
}

} // verus!

verus! {

/// Mapping the whole region of the level-2 block `e`, with its address and
/// attributes, into a table of invalid descriptors leaves the expansion of `e`.
pub proof fn lemma_expansion_written(t: Seq<u64>, e: u64, m: Mapping)
    requires
        t.len() == ENTRIES,
        m.size == L2_REGION_SIZE,
        m.pa == desc_addr(e),
        m.attr == desc_attrs(e),
        words_written(zero_table(), t, END_LEVEL, m.va as int, m.va as int, m.va + m.size, m),
    ensures
        t == expanded_block(e),
{
    reveal(words_written);
    assert forall|j: int| 0 <= j < ENTRIES implies #[trigger] t[j] == expanded_block(e)[j] by {
        assert(j * GRANULE < L2_REGION_SIZE) by (nonlinear_arith)
            requires
                0 <= j < 8192,
        ;
        assert(region_meets(END_LEVEL, m.va as int, j, m.va as int, m.va + m.size));
    }
    assert(t =~= expanded_block(e));
}

} // verus!
