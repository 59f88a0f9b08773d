use cosdata::multiply::{quaternary_multiply_u32, senary_multiply_u8};
use cosdata::popcount::{initialize_u16_lookup_table, shift_and_accumulate, shift_and_accumulate_u16, x_function};

#[test]
fn lookup_table_matches_reference_bit_count() {
    let table = initialize_u16_lookup_table();
    assert_eq!(table.len(), 65536);
    for v in 0..=u16::MAX {
        assert_eq!(table[v as usize], v.count_ones());
    }
}

#[test]
fn nibble_popcount_cases() {
    assert_eq!(x_function(0), 0);
    assert_eq!(x_function(7), 3);
    assert_eq!(x_function(15), 4);
    assert_eq!(x_function(99), 0);
}

#[test]
fn sixteen_bit_popcount_cases() {
    assert_eq!(shift_and_accumulate_u16(0), 0);
    assert_eq!(shift_and_accumulate_u16(0b1011_0001_1100_0101), 8);
    assert_eq!(shift_and_accumulate_u16(u16::MAX), 16);
}

#[test]
fn thirty_two_bit_popcount_uses_both_halves() {
    let table = initialize_u16_lookup_table();
    assert_eq!(shift_and_accumulate(0, &table), 0);
    assert_eq!(shift_and_accumulate(u32::MAX, &table), 32);
    assert_eq!(shift_and_accumulate(0x8000_0001, &table), 2);
    for v in [1u32, 3, 0xFFFF, 0x1_0000, 0xDEAD_BEEF, 0x0F0F_0F0F] {
        assert_eq!(shift_and_accumulate(v, &table), v.count_ones());
    }
}

#[test]
fn quaternary_multiply_is_exact_without_carry() {
    for a0 in 0..2u32 {
        for a1 in 0..2u32 {
            for b0 in 0..2u32 {
                for b1 in 0..2u32 {
                    if (a0 & b1) + (a1 & b0) <= 1 {
                        assert_eq!(
                            quaternary_multiply_u32(a0, a1, b0, b1),
                            ((2 * a1 + a0) * (2 * b1 + b0)) as u64
                        );
                    }
                }
            }
        }
    }
    // Two times three: no cross carry, exact.
    assert_eq!(quaternary_multiply_u32(0, 1, 1, 1), 6);
    // Three times three carries in the middle column: the exclusive-or
    // drops the carry and yields 5, not 9.
    assert_eq!(quaternary_multiply_u32(1, 1, 1, 1), 5);
}

#[test]
fn senary_multiply_is_exact_without_carry() {
    for bits in 0..64u16 {
        let a0 = (bits & 1) as u8;
        let a1 = ((bits >> 1) & 1) as u8;
        let a2 = ((bits >> 2) & 1) as u8;
        let b0 = ((bits >> 3) & 1) as u8;
        let b1 = ((bits >> 4) & 1) as u8;
        let b2 = ((bits >> 5) & 1) as u8;
        let no_carry = (a0 & b1) + (a1 & b0) <= 1
            && (a0 & b2) + (a1 & b1) + (a2 & b0) <= 1
            && (a1 & b2) + (a2 & b1) <= 1;
        if no_carry {
            let a = 4 * a2 as u16 + 2 * a1 as u16 + a0 as u16;
            let b = 4 * b2 as u16 + 2 * b1 as u16 + b0 as u16;
            assert_eq!(senary_multiply_u8(a0, a1, a2, b0, b1, b2), a * b);
        }
    }
    // Five times four is carry-free.
    assert_eq!(senary_multiply_u8(1, 0, 1, 0, 0, 1), 20);
}
