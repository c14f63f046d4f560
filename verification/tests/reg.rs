use lib::bitfield::{field_from, field_to};
use lib::pte::{index_of, region_size, ATTRINDX_BITS, ATTRINDX_SHIFT};
use lib::reg::{cpu_id, tcr_value, ttbr_value, MAIR, TCR_T0SZ_BITS, TCR_T0SZ_SHIFT, TCR_TG1_BITS, TCR_TG1_SHIFT, TG1_64K, TNSZ};

#[test]
fn cpu_id_is_affinity_zero() {
    assert_eq!(cpu_id(0), 0);
    assert_eq!(cpu_id(0x8000_0003), 3);
    assert_eq!(cpu_id(0x1ff), 0xff);
    assert_eq!(cpu_id(0x100), 0);
}

#[test]
fn tcr_selects_64k_granules_and_42_bit_spaces() {
    let t = tcr_value();
    assert_eq!(t, 0xC016_4016);
    assert_eq!(field_from(t, TCR_TG1_SHIFT, TCR_TG1_BITS), TG1_64K);
    assert_eq!(field_from(t, TCR_T0SZ_SHIFT, TCR_T0SZ_BITS), TNSZ);
    assert_eq!(MAIR, 0xff00);
}

#[test]
fn ttbr_places_asid_above_the_table_address() {
    assert_eq!(ttbr_value(0, 0x8008_0000), 0x8008_0000);
    assert_eq!(ttbr_value(5, 0x8008_0000), 0x0005_0000_8008_0000);
}

#[test]
fn bitfield_round_trip() {
    assert_eq!(field_to(1, ATTRINDX_SHIFT, ATTRINDX_BITS), 0x4);
    assert_eq!(field_to(9, ATTRINDX_SHIFT, ATTRINDX_BITS), 0x4);
    assert_eq!(field_from(field_to(5, ATTRINDX_SHIFT, ATTRINDX_BITS), ATTRINDX_SHIFT, ATTRINDX_BITS), 5);
    assert_eq!(field_from(0xC016_4016, 16, 0x3f), 22);
}

#[test]
fn lookup_indexes_and_region_sizes() {
    assert_eq!(region_size(1), 0x400_0000_0000);
    assert_eq!(region_size(2), 0x2000_0000);
    assert_eq!(region_size(3), 0x1_0000);
    assert_eq!(index_of(2, 0), 0);
    assert_eq!(index_of(2, 0x8000_0000), 4);
    assert_eq!(index_of(2, 0x3ff_ffff_ffff), 8191);
    assert_eq!(index_of(3, 0x2003_0000), 3);
    assert_eq!(index_of(3, 0x1fff_ffff), 8191);
}

#[test]
fn page_table_size() {
    assert_eq!(lib::pte::ENTRIES * 8, lib::arch::PAGE_SIZE);
    assert_eq!(lib::pte::GRANULE as usize, lib::arch::PAGE_SIZE);
}
