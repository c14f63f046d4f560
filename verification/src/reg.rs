//! Values of the system registers the kernel programs, and decoding of the
//! ones it reads.
use vstd::prelude::*;
use crate::bitfield::field_to;

verus! {

/// MPIDR_EL1.Aff0, bits [7:0]: the core number within its cluster.
pub const MPIDR_AFF0_MASK: u64 = 0xff;

/// TTBRn_EL1.BADDR, bits [47:0], and TTBRn_EL1.ASID, bits [63:48].
pub const TTBR_BADDR_SHIFT: u64 = 0;
pub const TTBR_ASID_SHIFT: u64 = 48;

/// SCTLR_EL1.M: the stage 1 MMU enable bit.
pub const SCTLR_M_MASK: u64 = 0x1;

/// MAIR_EL1: attribute 0 strongly ordered (0x00), attribute 1 normal
/// write-back memory (0xff).
pub const MAIR: u64 = 0xff00;

/// TCR_EL1 fields.
pub const TCR_T0SZ_SHIFT: u64 = 0;
pub const TCR_T0SZ_BITS: u64 = 0x3f;
pub const TCR_TG0_SHIFT: u64 = 14;
pub const TCR_TG0_BITS: u64 = 0x3;
pub const TCR_T1SZ_SHIFT: u64 = 16;
pub const TCR_T1SZ_BITS: u64 = 0x3f;
pub const TCR_TG1_SHIFT: u64 = 30;
pub const TCR_TG1_BITS: u64 = 0x3;

/// TCR_EL1.TG1 granule encodings.
pub const TG1_16K: u64 = 0x1;
pub const TG1_4K: u64 = 0x2;
pub const TG1_64K: u64 = 0x3;

/// TCR_EL1.TG0 granule encodings.
pub const TG0_4K: u64 = 0x0;
pub const TG0_64K: u64 = 0x1;
pub const TG0_16K: u64 = 0x2;

/// Size offset of both translation regions: 64 - 22 = 42 address bits.
pub const TNSZ: u64 = 22;

/// The number of the core whose MPIDR_EL1 reads `mpidr`.
pub fn cpu_id(mpidr: u64) -> (r: u8)
    ensures
        r == mpidr % 256,
{
    proof {
        assert(mpidr & 0xffu64 == mpidr % 256) by (bit_vector);
    }
    (mpidr & MPIDR_AFF0_MASK) as u8
}

/// TTBRn_EL1 for the translation table at `baddr` with address space `asid`.
pub fn ttbr_value(asid: u64, baddr: u64) -> (r: u64)
    ensures
        r == (asid << TTBR_ASID_SHIFT) | (baddr << TTBR_BADDR_SHIFT),
        asid < 0x1_0000 && baddr < 0x1_0000_0000_0000 ==> r >> 48u64 == asid && r
            & 0xFFFF_FFFF_FFFFu64 == baddr,
{
    proof {
        assert(asid < 0x1_0000 && baddr < 0x1_0000_0000_0000 ==> ((asid << 48u64) | (baddr << 0u64))
            >> 48u64 == asid && ((asid << 48u64) | (baddr << 0u64)) & 0xFFFF_FFFF_FFFFu64 == baddr)
            by (bit_vector);
    }
    (asid << TTBR_ASID_SHIFT) | (baddr << TTBR_BADDR_SHIFT)
}

/// TCR_EL1 for 64KB granules and 42-bit address spaces in both halves.
pub fn tcr_value() -> (r: u64)
    ensures
        r == 0xC016_4016u64,
        (r >> TCR_TG1_SHIFT) & TCR_TG1_BITS == TG1_64K,
        (r >> TCR_TG0_SHIFT) & TCR_TG0_BITS == TG0_64K,
        (r >> TCR_T0SZ_SHIFT) & TCR_T0SZ_BITS == TNSZ,
        (r >> TCR_T1SZ_SHIFT) & TCR_T1SZ_BITS == TNSZ,
{
    let r = field_to(TG1_64K, TCR_TG1_SHIFT, TCR_TG1_BITS) | field_to(
        TG0_64K,
        TCR_TG0_SHIFT,
        TCR_TG0_BITS,
    ) | field_to(TNSZ, TCR_T0SZ_SHIFT, TCR_T0SZ_BITS) | field_to(TNSZ, TCR_T1SZ_SHIFT, TCR_T1SZ_BITS);
    proof {
        assert(((3u64 & 3u64) << 30u64) | ((1u64 & 3u64) << 14u64) | ((22u64 & 0x3fu64) << 0u64) | ((
        22u64 & 0x3fu64) << 16u64) == 0xC016_4016u64) by (bit_vector);
        assert((0xC016_4016u64 >> 30u64) & 3u64 == 3u64) by (bit_vector);
        assert((0xC016_4016u64 >> 14u64) & 3u64 == 1u64) by (bit_vector);
        assert((0xC016_4016u64 >> 0u64) & 0x3fu64 == 22u64) by (bit_vector);
        assert((0xC016_4016u64 >> 16u64) & 0x3fu64 == 22u64) by (bit_vector);
    }
    r
}

} // verus!
