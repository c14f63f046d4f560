//! Layout of the translation table descriptors used with the 64KB granule
//! and a 42-bit input address (levels 2 and 3).
use vstd::prelude::*;

verus! {

/// Number of descriptors in one translation table.
pub const ENTRIES: usize = 8192;

/// Bytes in one translation granule (and in one translation table).
pub const GRANULE: u64 = 0x1_0000;

/// Bytes covered by one level-2 descriptor (512MB).
pub const L2_REGION_SIZE: u64 = 0x2000_0000;

/// Bytes covered by one level-3 descriptor (64KB).
pub const L3_REGION_SIZE: u64 = 0x1_0000;

/// Bytes covered by a whole level-2 table: the input address space (2^42).
pub const VA_LIMIT: u64 = 0x400_0000_0000;

/// Output addresses are 48 bits wide.
pub const PA_LIMIT: u64 = 0x1_0000_0000_0000;

/// The level the walk starts at.
pub const START_LEVEL: u8 = 2;

/// The last level of the walk: its descriptors are pages, never tables.
pub const END_LEVEL: u8 = 3;

/// Index bits of a level-2 lookup: IA[41:29].
pub const L2_IDX_SHIFT: u64 = 29;
pub const L2_IDX_MASK: u64 = 0x3FF_E000_0000;

/// Index bits of a level-3 lookup: IA[28:16].
pub const L3_IDX_SHIFT: u64 = 16;
pub const L3_IDX_MASK: u64 = 0x1FFF_0000;

/// Descriptor type field, bits [1:0].
pub const TYPE_SHIFT: u64 = 0;
pub const TYPE_MASK: u64 = 0x3;
pub const TYPE_INVALID: u64 = 0x0;
pub const TYPE_BLOCK: u64 = 0x1;
pub const TYPE_TABLE: u64 = 0x3;

/// Output address field of a 64KB-granule descriptor, bits [47:16].
pub const ADDR_MASK: u64 = 0x0000_FFFF_FFFF_0000;

/// Lower attributes of a block or page descriptor, bits [11:2].
pub const BLOCK_LATTRS_MASK: u64 = 0xFFC;

/// Upper attributes of a block or page descriptor, bits [54:52].
pub const BLOCK_UATTRS_MASK: u64 = 0x0070_0000_0000_0000;

/// Attributes of a table descriptor, bits [63:59].
pub const TABLE_ATTRS_MASK: u64 = 0xF800_0000_0000_0000;

/// Every attribute bit a mapping may carry.
pub const ATTRS_MASK: u64 = 0xF870_0000_0000_0FFC;

/// Attribute fields of block and page descriptors.
pub const ATTRINDX_SHIFT: u64 = 2;
pub const ATTRINDX_BITS: u64 = 0x7;
pub const NS_MASK: u64 = 0x20;
pub const AP_SHIFT: u64 = 6;
pub const AP_BITS: u64 = 0x3;
pub const SH_SHIFT: u64 = 8;
pub const SH_BITS: u64 = 0x3;
pub const AF_MASK: u64 = 0x400;
pub const XN_SHIFT: u64 = 54;
pub const XN_MASK: u64 = 0x0040_0000_0000_0000;

/// Access permissions: read/write at EL1 only.
pub const AP_KERNEL: u64 = 0x0;
/// Access permissions: read/write at EL1 and EL0.
pub const AP_RW: u64 = 0x1;
/// Shareability: inner shareable.
pub const SH_INNER: u64 = 0x3;

/// The type field of a descriptor.
pub open spec fn desc_type(raw: u64) -> u64 {
    raw & TYPE_MASK
}

/// The output address held by a descriptor.
pub open spec fn desc_addr(raw: u64) -> u64 {
    raw & ADDR_MASK
}

/// The attributes held by a descriptor.
pub open spec fn desc_attrs(raw: u64) -> u64 {
    raw & ATTRS_MASK
}

/// A descriptor whose type is not the invalid one (the test `is_valid` makes).
pub open spec fn desc_is_valid(raw: u64) -> bool {
    desc_type(raw) != TYPE_INVALID
}

/// A descriptor that maps its whole region itself, as the MMU reads it: a
/// block (type 0b01) before the last level, a page (type 0b11) at the last
/// level. Every other type is a table or faults.
pub open spec fn desc_is_leaf(raw: u64, level: u8) -> bool {
    if level == END_LEVEL {
        desc_type(raw) == TYPE_TABLE
    } else {
        desc_type(raw) == TYPE_BLOCK
    }
}

/// A descriptor that points to a next-level table (only possible before the last level).
pub open spec fn desc_is_table(raw: u64, level: u8) -> bool {
    desc_type(raw) == TYPE_TABLE && level != END_LEVEL
}

/// Bytes covered by one descriptor at `level`.
pub open spec fn region_size_spec(level: u8) -> int {
    if level == 1 {
        VA_LIMIT as int
    } else if level == 2 {
        L2_REGION_SIZE as int
    } else if level == 3 {
        L3_REGION_SIZE as int
    } else {
        0
    }
}

/// The descriptor index that a walk uses for `va` at `level`.
pub open spec fn table_index(level: u8, va: int) -> int {
    (va / region_size_spec(level)) % (ENTRIES as int)
}

/// An address that a descriptor can hold: granule aligned and below 2^48.
pub open spec fn is_out_addr(a: u64) -> bool {
    a % GRANULE == 0 && a < PA_LIMIT
}

/// Bytes covered by one descriptor at `level` (levels 1 to 3).
pub fn region_size(level: u8) -> (r: u64)
    requires
        1 <= level <= 3,
    ensures
        r == region_size_spec(level),
{
    if level == 1 {
        VA_LIMIT
    } else if level == 2 {
        L2_REGION_SIZE
    } else {
        L3_REGION_SIZE
    }
}

/// The lookup index of `va` at `level` (levels 2 and 3).
pub fn index_of(level: u8, va: u64) -> (r: usize)
    requires
        2 <= level <= 3,
    ensures
        r == table_index(level, va as int),
        r < ENTRIES,
{
    if level == 2 {
        proof {
            lemma_l2_index(va);
        }
        ((va & L2_IDX_MASK) >> L2_IDX_SHIFT) as usize
    } else {
        proof {
            lemma_l3_index(va);
        }
        ((va & L3_IDX_MASK) >> L3_IDX_SHIFT) as usize
    }
}

pub proof fn lemma_l2_index(va: u64)
    ensures
        (va & L2_IDX_MASK) >> L2_IDX_SHIFT == (va / 0x2000_0000) % 8192,
        (va & L2_IDX_MASK) >> L2_IDX_SHIFT < 8192,
{
    assert((va & 0x3FF_E000_0000u64) >> 29u64 == (va / 0x2000_0000) % 8192) by (bit_vector);
    assert((va & 0x3FF_E000_0000u64) >> 29u64 < 8192) by (bit_vector);
}

pub proof fn lemma_l3_index(va: u64)
    ensures
        (va & L3_IDX_MASK) >> L3_IDX_SHIFT == (va / 0x1_0000) % 8192,
        (va & L3_IDX_MASK) >> L3_IDX_SHIFT < 8192,
{
    assert((va & 0x1FFF_0000u64) >> 16u64 == (va / 0x1_0000) % 8192) by (bit_vector);
    assert((va & 0x1FFF_0000u64) >> 16u64 < 8192) by (bit_vector);
}

/// Masking off the low bits of `va` below a region size rounds it down.
pub proof fn lemma_align_down(va: u64, level: u8)
    requires
        2 <= level <= 3,
    ensures
        va & !((region_size_spec(level) - 1) as u64) == va as int - (va as int) % region_size_spec(level),
        va & ((region_size_spec(level) - 1) as u64) == (va as int) % region_size_spec(level),
{
    if level == 2 {
        assert(va & !0x1FFF_FFFFu64 == va - va % 0x2000_0000) by (bit_vector);
        assert(va & 0x1FFF_FFFFu64 == va % 0x2000_0000) by (bit_vector);
    } else {
        assert(va & !0xFFFFu64 == va - va % 0x1_0000) by (bit_vector);
        assert(va & 0xFFFFu64 == va % 0x1_0000) by (bit_vector);
    }
}

/// What a descriptor built from an address, attributes and a type holds.
pub proof fn lemma_desc_fields(pa: u64, attr: u64, t: u64)
    requires
        is_out_addr(pa),
        attr & !ATTRS_MASK == 0,
        t == TYPE_BLOCK || t == TYPE_TABLE,
    ensures
        desc_addr(pa | attr | t) == pa,
        desc_attrs(pa | attr | t) == attr,
        desc_type(pa | attr | t) == t,
{
    assert(pa & !0x0000_FFFF_FFFF_0000u64 == 0) by (bit_vector)
        requires
            pa % 0x1_0000 == 0,
            pa < 0x1_0000_0000_0000,
    ;
    assert((pa | attr | t) & 0x0000_FFFF_FFFF_0000u64 == pa) by (bit_vector)
        requires
            pa & !0x0000_FFFF_FFFF_0000u64 == 0,
            attr & !0xF870_0000_0000_0FFCu64 == 0,
            t < 4,
    ;
    assert((pa | attr | t) & 0xF870_0000_0000_0FFCu64 == attr) by (bit_vector)
        requires
            pa & !0x0000_FFFF_FFFF_0000u64 == 0,
            attr & !0xF870_0000_0000_0FFCu64 == 0,
            t < 4,
    ;
    assert((pa | attr | t) & 3u64 == t) by (bit_vector)
        requires
            pa & !0x0000_FFFF_FFFF_0000u64 == 0,
            attr & !0xF870_0000_0000_0FFCu64 == 0,
            t < 4,
    ;
}

/// The address field of any descriptor is a valid output address, and its
/// attributes are within the attribute bits.
pub proof fn lemma_desc_parts(raw: u64)
    ensures
        is_out_addr(desc_addr(raw)),
        desc_attrs(raw) & !ATTRS_MASK == 0,
        (TABLE_ATTRS_MASK & raw) & !ATTRS_MASK == 0,
        desc_type(raw) < 4,
{
    assert((raw & 0x0000_FFFF_FFFF_0000u64) % 0x1_0000 == 0) by (bit_vector);
    assert((raw & 0x0000_FFFF_FFFF_0000u64) < 0x1_0000_0000_0000) by (bit_vector);
    assert((raw & 0xF870_0000_0000_0FFCu64) & !0xF870_0000_0000_0FFCu64 == 0) by (bit_vector);
    assert((0xF800_0000_0000_0000u64 & raw) & !0xF870_0000_0000_0FFCu64 == 0) by (bit_vector);
    assert(raw & 3u64 < 4) by (bit_vector);
}

} // verus!
