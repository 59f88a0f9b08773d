//! Table-driven population counts: a 65536-entry lookup table mapping every
//! 16-bit pattern to its bit count, built from 4-bit nibble counts, and a
//! 32-bit popcount that sums two table lookups.

use vstd::prelude::*;

verus! {

use vstd::arithmetic::power2::pow2;

/// Number of set bits among the low `n` binary digits of `v`.
pub open spec fn popcount_rec(v: nat, n: nat) -> nat
    decreases n,
{
    if n == 0 {
        0
    } else {
        (v % 2 + popcount_rec(v / 2, (n - 1) as nat)) as nat
    }
}

/// Number of set bits in a 16-bit word.
pub open spec fn popcount16(v: u16) -> nat {
    popcount_rec(v as nat, 16)
}

/// Number of set bits in a 32-bit word.
pub open spec fn popcount32(v: u32) -> nat {
    popcount_rec(v as nat, 32)
}

/// The population count of the low `n` digits never exceeds `n`.
pub proof fn lemma_popcount_rec_bound(v: nat, n: nat)
    ensures
        popcount_rec(v, n) <= n,
    decreases n,
{
    if n > 0 {
        lemma_popcount_rec_bound(v / 2, (n - 1) as nat);
    }
}

/// The all-zero word has no set bits, at any width.
pub proof fn lemma_popcount_rec_zero(n: nat)
    ensures
        popcount_rec(0, n) == 0,
    decreases n,
{
    if n > 0 {
        lemma_popcount_rec_zero((n - 1) as nat);
    }
}

/// Population count of a 4-bit nibble, by direct case analysis.
pub fn x_function(value: u32) -> (r: u32)
    ensures
        value < 16 ==> r == popcount_rec(value as nat, 4),
        value >= 16 ==> r == 0,
        r <= 4,
{
    proof {
        reveal_with_fuel(popcount_rec, 5);
    }
    match value {
        0 => 0,
        1 => 1,
        2 => 1,
        3 => 2,
        4 => 1,
        5 => 2,
        6 => 2,
        7 => 3,
        8 => 1,
        9 => 2,
        10 => 2,
        11 => 3,
        12 => 2,
        13 => 3,
        14 => 3,
        15 => 4,
        _ => 0,
    }
}

/// Splitting the digit range: the count of the low `a + b` digits is the
/// count of the low `a` digits plus the count of the `b` digits above them.
proof fn lemma_popcount_split(v: nat, a: nat, b: nat)
    ensures
        popcount_rec(v, a + b) == popcount_rec(v % pow2(a), a) + popcount_rec(v / pow2(a), b),
    decreases a,
{
    if a == 0 {
        assert(pow2(0) == 1) by {
            vstd::arithmetic::power2::lemma2_to64();
        }
    } else {
        let p = pow2((a - 1) as nat);
        lemma_popcount_split(v / 2, (a - 1) as nat, b);
        vstd::arithmetic::power2::lemma_pow2_unfold(a);
        vstd::arithmetic::power2::lemma_pow2_pos((a - 1) as nat);
        vstd::arithmetic::div_mod::lemma_breakdown(v as int, 2, p as int);
        vstd::arithmetic::div_mod::lemma_div_denominator(v as int, 2, p as int);
        let m = (v / 2) % p;
        let r = v % 2;
        assert(v % pow2(a) == 2 * m + r);
        assert((2 * m + r) / 2 == m && (2 * m + r) % 2 == r) by (nonlinear_arith)
            requires
                0 <= m && 0 <= r < 2,
        ;
        assert(popcount_rec(v % pow2(a), a) == r + popcount_rec(m, (a - 1) as nat));
    }
}

/// A 16-bit population count is the sum of the counts of its four nibbles.
proof fn lemma_popcount16_nibbles(v: u16)
    ensures
        popcount_rec(v as nat, 16) == popcount_rec((15 & (v as u32 >> 0)) as nat, 4)
            + popcount_rec((15 & (v as u32 >> 4)) as nat, 4)
            + popcount_rec((15 & (v as u32 >> 8)) as nat, 4)
            + popcount_rec((15 & (v as u32 >> 12)) as nat, 4),
{
    vstd::arithmetic::power2::lemma2_to64();
    assert(15 & (v as u32 >> 0) == v as u32 % 16) by (bit_vector);
    assert(15 & (v as u32 >> 4) == (v as u32 / 16) % 16) by (bit_vector);
    assert(15 & (v as u32 >> 8) == (v as u32 / 256) % 16) by (bit_vector);
    assert(15 & (v as u32 >> 12) == v as u32 / 4096) by (bit_vector);
    lemma_popcount_split(v as nat, 4, 12);
    lemma_popcount_split((v as nat) / 16, 4, 8);
    lemma_popcount_split((v as nat) / 256, 4, 4);
    vstd::arithmetic::div_mod::lemma_div_denominator(v as int, 16, 16);
    vstd::arithmetic::div_mod::lemma_div_denominator(v as int, 256, 16);
    assert((v as nat) / 4096 < 16);
}

/// Population count of a 16-bit word, as the sum of four nibble counts.
pub fn shift_and_accumulate_u16(value: u16) -> (r: u32)
    ensures
        r == popcount16(value),
        r <= 16,
{
    proof {
        lemma_popcount16_nibbles(value);
    }
    let mut result: u32 = 0;
    result += x_function(15 & (value as u32 >> 0));
    result += x_function(15 & (value as u32 >> 4));
    result += x_function(15 & (value as u32 >> 8));
    result += x_function(15 & (value as u32 >> 12));
    proof {
        assert(15 & (value as u32 >> 0) < 16) by (bit_vector);
        assert(15 & (value as u32 >> 4) < 16) by (bit_vector);
        assert(15 & (value as u32 >> 8) < 16) by (bit_vector);
        assert(15 & (value as u32 >> 12) < 16) by (bit_vector);
        lemma_popcount_rec_bound((15 & (value as u32 >> 0)) as nat, 4);
        lemma_popcount_rec_bound((15 & (value as u32 >> 4)) as nat, 4);
        lemma_popcount_rec_bound((15 & (value as u32 >> 8)) as nat, 4);
        lemma_popcount_rec_bound((15 & (value as u32 >> 12)) as nat, 4);
    }
    result
}

/// What it means for `t` to be the 16-bit popcount lookup table: one entry
/// for every 16-bit pattern, holding that pattern's bit count.
pub open spec fn is_popcount_table(t: Seq<u32>) -> bool {
    &&& t.len() == 0x10000
    &&& forall|v: int| 0 <= v < 0x10000 ==> t[v] == popcount_rec(v as nat, 16)
}

/// Builds the immutable 65536-entry popcount table for 16-bit words.
/// Intended to run once per process; readers share the result untouched.
pub fn initialize_u16_lookup_table() -> (t: Vec<u32>)
    ensures
        is_popcount_table(t@),
{
    let mut t: Vec<u32> = Vec::new();
    let mut i: usize = 0;
    while i < 0x10000
        invariant
            i <= 0x10000,
            t@.len() == i,
            forall|v: int| 0 <= v < i ==> t@[v] == popcount_rec(v as nat, 16),
        decreases 0x10000 - i,
    {
        t.push(shift_and_accumulate_u16(i as u16));
        i += 1;
    }
    t
}

/// A 32-bit population count is the sum of the counts of its two halves.
proof fn lemma_popcount32_halves(v: u32)
    ensures
        popcount_rec(v as nat, 32) == popcount_rec(((v >> 16) as u16) as nat, 16)
            + popcount_rec(((v & 0xFFFF) as u16) as nat, 16),
{
    vstd::arithmetic::power2::lemma2_to64();
    assert((v >> 16) as u16 == v / 0x10000 && v / 0x10000 < 0x10000) by (bit_vector);
    assert((v & 0xFFFF) as u16 == v % 0x10000) by (bit_vector);
    lemma_popcount_split(v as nat, 16, 16);
}

/// Population count of a 32-bit word by two lookups in the 16-bit table.
pub fn shift_and_accumulate(value: u32, table: &Vec<u32>) -> (r: u32)
    requires
        is_popcount_table(table@),
    ensures
        r == popcount32(value),
        r <= 32,
{
    proof {
        lemma_popcount32_halves(value);
        assert((value >> 16) < 0x10000) by (bit_vector);
        assert((value & 0xFFFF) < 0x10000) by (bit_vector);
        lemma_popcount_rec_bound(((value >> 16) as u16) as nat, 16);
        lemma_popcount_rec_bound(((value & 0xFFFF) as u16) as nat, 16);
    }
    let high = (value >> 16) as u16;
    let low = (value & 0xFFFF) as u16;
    table[high as usize] + table[low as usize]
}

} // verus!
