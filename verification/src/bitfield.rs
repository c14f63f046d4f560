//! Bit fields of 64-bit registers and descriptors: a field is `bits`
//! (a run of ones starting at bit 0) shifted left by `shift`.
use vstd::prelude::*;

verus! {

/// `bits` is a run of `width` ones starting at bit 0, and the field fits in 64 bits.
pub open spec fn field_ok(shift: u64, bits: u64, width: u64) -> bool {
    &&& 0 < width <= 64
    &&& shift + width <= 64
    &&& bits == if width == 64 {
        0xFFFF_FFFF_FFFF_FFFFu64
    } else {
        ((1u64 << width) - 1) as u64
    }
}

/// The value of the field at `shift` in `val`.
pub fn field_from(val: u64, shift: u64, bits: u64) -> (r: u64)
    requires
        shift < 64,
    ensures
        r == (val >> shift) & bits,
{
    (val >> shift) & bits
}

/// `val`, cut to the field's width, placed at the field's position.
pub fn field_to(val: u64, shift: u64, bits: u64) -> (r: u64)
    requires
        shift < 64,
    ensures
        r == (val & bits) << shift,
{
    (val & bits) << shift
}

/// Reading a field back gives what was placed there, cut to its width, and
/// placing a value sets no bit outside the field.
pub proof fn lemma_field_round_trip(val: u64, shift: u64, bits: u64, width: u64)
    requires
        field_ok(shift, bits, width),
        shift < 64,
    ensures
        ((val & bits) << shift) >> shift & bits == val & bits,
        ((val & bits) << shift) & !(bits << shift) == 0,
{
    if width == 64 {
        assert(shift == 0);
        assert(((val & 0xFFFF_FFFF_FFFF_FFFFu64) << 0u64) >> 0u64 & 0xFFFF_FFFF_FFFF_FFFFu64
            == val & 0xFFFF_FFFF_FFFF_FFFFu64) by (bit_vector);
        assert(((val & 0xFFFF_FFFF_FFFF_FFFFu64) << 0u64) & !(0xFFFF_FFFF_FFFF_FFFFu64 << 0u64) == 0)
            by (bit_vector);
    } else {
        assert(((val & bits) << shift) >> shift & bits == val & bits) by (bit_vector)
            requires
                0 < width < 64,
                shift + width <= 64,
                bits == ((1u64 << width) - 1) as u64,
        ;
        assert(((val & bits) << shift) & !(bits << shift) == 0) by (bit_vector)
            requires
                0 < width < 64,
                shift + width <= 64,
                bits == ((1u64 << width) - 1) as u64,
        ;
    }
}

} // verus!
