//! Exact bit-serial multiplication: integer products recovered from
//! individual bit planes through boolean partial-product logic, replacing a
//! scalar multiply per component with a handful of word-wide operations.

use vstd::prelude::*;

verus! {

/// Partial-product combination for two 2-bit operands given as bit planes:
/// plane 0 is the low bit, plane 1 the high bit.
pub open spec fn quaternary_product(a0: u32, a1: u32, b0: u32, b1: u32) -> u64 {
    ((((a1 & b1) as u64) << 2) | ((((a0 & b1) ^ (a1 & b0)) as u64) << 1) | ((a0 & b0) as u64))
}

/// Multiplies two 2-bit quantities held as separate bit planes.  For
/// single-bit plane values this is the exact product of the two 2-bit
/// operands they encode, as long as the two cross partial products do not
/// both carry: the exclusive-or in the middle term drops that carry.
pub fn quaternary_multiply_u32(a0: u32, a1: u32, b0: u32, b1: u32) -> (r: u64)
    ensures
        r == quaternary_product(a0, a1, b0, b1),
        a0 < 2 && a1 < 2 && b0 < 2 && b1 < 2 && (a0 & b1) + (a1 & b0) <= 1 ==> r == (2 * a1 + a0)
            * (2 * b1 + b0),
{
    proof {
        assert(a0 < 2 && a1 < 2 && b0 < 2 && b1 < 2 && (a0 & b1) + (a1 & b0) <= 1
            ==> quaternary_product(a0, a1, b0, b1) == (2 * a1 + a0) * (2 * b1 + b0))
            by (bit_vector);
    }
    let p0 = (a0 & b0) as u64;
    let p1 = ((a0 & b1) ^ (a1 & b0)) as u64;
    let p2 = (a1 & b1) as u64;
    (p2 << 2) | (p1 << 1) | p0
}

/// Partial-product combination for two 3-bit operands given as bit planes:
/// plane 0 is the low bit, plane 2 the high bit.
pub open spec fn senary_product(a0: u8, a1: u8, a2: u8, b0: u8, b1: u8, b2: u8) -> u16 {
    ((((a2 & b2) as u16) << 4) | ((((a1 & b2) ^ (a2 & b1)) as u16) << 3) | ((((a0 & b2) ^ (a1
        & b1) ^ (a2 & b0)) as u16) << 2) | ((((a0 & b1) ^ (a1 & b0)) as u16) << 1) | ((a0
        & b0) as u16))
}

/// Multiplies two 3-bit quantities held as separate bit planes.  For
/// single-bit plane values this is the exact product of the two 3-bit
/// operands they encode, as long as no partial-product column carries: each
/// middle term is combined with exclusive-or, which drops carries.
pub fn senary_multiply_u8(a0: u8, a1: u8, a2: u8, b0: u8, b1: u8, b2: u8) -> (r: u16)
    ensures
        r == senary_product(a0, a1, a2, b0, b1, b2),
        a0 < 2 && a1 < 2 && a2 < 2 && b0 < 2 && b1 < 2 && b2 < 2 && (a0 & b1) + (a1 & b0) <= 1 && (
        a0 & b2) + (a1 & b1) + (a2 & b0) <= 1 && (a1 & b2) + (a2 & b1) <= 1 ==> r == (4 * a2 + 2
            * a1 + a0) * (4 * b2 + 2 * b1 + b0),
{
    proof {
        assert(a0 < 2 && a1 < 2 && a2 < 2 && b0 < 2 && b1 < 2 && b2 < 2 && (a0 & b1) + (a1 & b0)
            <= 1 && (a0 & b2) + (a1 & b1) + (a2 & b0) <= 1 && (a1 & b2) + (a2 & b1) <= 1
            ==> senary_product(a0, a1, a2, b0, b1, b2) == (4 * a2 + 2 * a1 + a0) * (4 * b2 + 2 * b1
            + b0)) by (bit_vector);
    }
    let p0 = (a0 & b0) as u16;
    let p1 = ((a0 & b1) ^ (a1 & b0)) as u16;
    let p2 = ((a0 & b2) ^ (a1 & b1) ^ (a2 & b0)) as u16;
    let p3 = ((a1 & b2) ^ (a2 & b1)) as u16;
    let p4 = (a2 & b2) as u16;
    (p4 << 4) | (p3 << 3) | (p2 << 2) | (p1 << 1) | p0
}

} // verus!
