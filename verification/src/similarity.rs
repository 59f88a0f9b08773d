//! Similarity computations on packed bit planes, driven entirely by table
//! lookups and bitwise operations: the agreement (coalesce) score from XOR
//! popcounts, the weighted dot and magnitude terms from AND/OR popcounts, and
//! the quaternary terms from bit-serial multiplication of the two planes of
//! each operand, word by word.
//!
//! Every function here returns the integer accumulators; turning them into a
//! real-valued score (weighting, square roots, division) is left to the
//! caller, which keeps these kernels exact.

use vstd::prelude::*;

verus! {

use vstd::arithmetic::power2::pow2;
use crate::codec::{VectorQt, lemma_planes_view};
use crate::errors::ValidationError;
use crate::popcount::{popcount32, is_popcount_table, shift_and_accumulate, lemma_popcount_rec_zero};

/// Two operands have the same shape: well formed, equal resolution, equal
/// word count per plane.
pub open spec fn same_shape(x: VectorQt, y: VectorQt) -> bool {
    &&& x.wf()
    &&& y.wf()
    &&& x.resolution == y.resolution
    &&& x.words() == y.words()
}

/// Sum over word pairs of the population count of their XOR.
pub open spec fn xor_popcount_words(xs: Seq<u32>, ys: Seq<u32>) -> int
    decreases xs.len(),
{
    if xs.len() == 0 || ys.len() == 0 {
        0
    } else {
        popcount32(xs.last() ^ ys.last()) + xor_popcount_words(xs.drop_last(), ys.drop_last())
    }
}

/// Sum of XOR popcounts over all planes of two operands.
pub open spec fn xor_popcount_planes(xp: Seq<Seq<u32>>, yp: Seq<Seq<u32>>) -> int
    decreases xp.len(),
{
    if xp.len() == 0 || yp.len() == 0 {
        0
    } else {
        xor_popcount_words(xp.last(), yp.last()) + xor_popcount_planes(
            xp.drop_last(),
            yp.drop_last(),
        )
    }
}

/// Sum over the words of one plane, at plane index `k`, of the weighted and
/// centered AND popcounts: each word contributes its AND popcount scaled by
/// `2^k`, less a centering constant of 16.
pub open spec fn and_dot_words(xs: Seq<u32>, ys: Seq<u32>, k: nat) -> int
    decreases xs.len(),
{
    if xs.len() == 0 || ys.len() == 0 {
        0
    } else {
        popcount32(xs.last() & ys.last()) * pow2(k) - 16 + and_dot_words(
            xs.drop_last(),
            ys.drop_last(),
            k,
        )
    }
}

/// The weighted AND dot term over all planes: plane `k` is weighted `2^k`.
pub open spec fn and_dot_planes(xp: Seq<Seq<u32>>, yp: Seq<Seq<u32>>) -> int
    decreases xp.len(),
{
    if xp.len() == 0 || yp.len() == 0 {
        0
    } else {
        and_dot_planes(xp.drop_last(), yp.drop_last()) + and_dot_words(
            xp.last(),
            yp.last(),
            (xp.len() - 1) as nat,
        )
    }
}

/// Total population count of the words of one plane.
pub open spec fn popcount_words(xs: Seq<u32>) -> int
    decreases xs.len(),
{
    if xs.len() == 0 {
        0
    } else {
        popcount32(xs.last()) + popcount_words(xs.drop_last())
    }
}

/// Total population count over all planes: the self-AND (equally, self-OR)
/// magnitude accumulator.
pub open spec fn popcount_planes(xp: Seq<Seq<u32>>) -> int
    decreases xp.len(),
{
    if xp.len() == 0 {
        0
    } else {
        popcount_words(xp.last()) + popcount_planes(xp.drop_last())
    }
}

/// Sum over components of the bit-serial products of two 2-bit operands,
/// computed a word at a time with popcounts: `x0`/`y0` are the plane-0
/// (most significant) words and `x1`/`y1` the plane-1 words, and each word
/// index contributes `4*pc(x0&y0) + 2*pc((x1&y0)^(x0&y1)) + pc(x1&y1)` —
/// the three partial-product columns of the 2-bit multiply, so each
/// component adds exactly its own product (the all-ones carry drops, as the
/// exclusive-or in the middle column documents).
pub open spec fn quaternary_words(x0: Seq<u32>, x1: Seq<u32>, y0: Seq<u32>, y1: Seq<u32>) -> int
    decreases x0.len(),
{
    if x0.len() == 0 || x1.len() == 0 || y0.len() == 0 || y1.len() == 0 {
        0
    } else {
        4 * popcount32(x0.last() & y0.last()) + 2 * popcount32(
            (x1.last() & y0.last()) ^ (x0.last() & y1.last()),
        ) + popcount32(x1.last() & y1.last()) + quaternary_words(
            x0.drop_last(),
            x1.drop_last(),
            y0.drop_last(),
            y1.drop_last(),
        )
    }
}

/// Checks structural well-formedness of one operand.
pub fn wf_check(v: &VectorQt) -> (b: bool)
    ensures
        b == v.wf(),
{
    if v.resolution < 1 || v.resolution > 8 {
        return false;
    }
    if v.quant_vec.len() != v.resolution as usize {
        return false;
    }
    let w0 = v.quant_vec[0].len();
    let mut k: usize = 0;
    while k < v.quant_vec.len()
        invariant
            w0 == v.quant_vec[0]@.len(),
            k <= v.quant_vec@.len(),
            forall|j: int| 0 <= j < k ==> (#[trigger] v.quant_vec[j])@.len() == w0,
        decreases v.quant_vec@.len() - k,
    {
        if v.quant_vec[k].len() != w0 {
            return false;
        }
        k += 1;
    }
    true
}

/// Checks that two operands share resolution, plane count and word count.
pub fn shapes_match(x: &VectorQt, y: &VectorQt) -> (b: bool)
    ensures
        b == same_shape(*x, *y),
{
    if !wf_check(x) {
        return false;
    }
    if !wf_check(y) {
        return false;
    }
    if x.resolution != y.resolution {
        return false;
    }
    x.quant_vec[0].len() == y.quant_vec[0].len()
}

/// The coalesce (agreement) accumulator: the total XOR popcount across all
/// planes and words of two same-shaped operands.  The caller derives the
/// Hamming-style distance by dividing by its total bit count, and the
/// similarity as one minus that distance.
pub fn cosine_coalesce_sum(x: &VectorQt, y: &VectorQt, table: &Vec<u32>) -> (r: Result<
    u128,
    ValidationError,
>)
    requires
        is_popcount_table(table@),
    ensures
        same_shape(*x, *y) ==> (r matches Ok(s) && s == xor_popcount_planes(
            x.planes(),
            y.planes(),
        )),
        !same_shape(*x, *y) ==> r == Err::<u128, ValidationError>(
            ValidationError::MismatchedShapes,
        ),
{
    if !shapes_match(x, y) {
        return Err(ValidationError::MismatchedShapes);
    }
    proof {
        lemma_planes_view(x.quant_vec);
        lemma_planes_view(y.quant_vec);
    }
    let xp = Ghost(x.planes());
    let yp = Ghost(y.planes());
    let mut acc: u128 = 0;
    let ghost mut cnt: int = 0;
    let mut k: usize = 0;
    while k < x.quant_vec.len()
        invariant
            is_popcount_table(table@),
            same_shape(*x, *y),
            xp@ == x.planes(),
            yp@ == y.planes(),
            k <= x.quant_vec@.len(),
            acc == xor_popcount_planes(xp@.take(k as int), yp@.take(k as int)),
            0 <= acc <= 32 * cnt,
            cnt <= 8 * x.words(),
            cnt == k * x.words(),
        decreases x.quant_vec@.len() - k,
    {
        let xk = &x.quant_vec[k];
        let yk = &y.quant_vec[k];
        let mut w: usize = 0;
        let ghost cnt0 = cnt;
        let ghost acc0 = acc;
        while w < xk.len()
            invariant
                is_popcount_table(table@),
                same_shape(*x, *y),
                xp@ == x.planes(),
                xk@ == xp@[k as int],
                yk@ == yp@[k as int],
                k < x.quant_vec@.len(),
                xk@.len() == x.words(),
                yk@.len() == x.words(),
                w <= xk@.len(),
                acc == acc0 + xor_popcount_words(xk@.take(w as int), yk@.take(w as int)),
                cnt == cnt0 + w,
                cnt0 == k * x.words(),
                0 <= acc <= 32 * cnt,
                cnt <= 8 * x.words(),
                acc0 == xor_popcount_planes(xp@.take(k as int), yp@.take(k as int)),
            decreases xk@.len() - w,
        {
            let pc = shift_and_accumulate(xk[w] ^ yk[w], table);
            proof {
                assert(xk@.take(w as int + 1).drop_last() =~= xk@.take(w as int));
                assert(yk@.take(w as int + 1).drop_last() =~= yk@.take(w as int));
                assert((k + 1) * x.words() == k * x.words() + x.words()) by (nonlinear_arith);
                assert(x.words() <= 8 * x.words()) by (nonlinear_arith);
                assert(cnt + 1 <= (k + 1) * x.words());
                assert((k + 1) * x.words() <= 8 * x.words()) by (nonlinear_arith)
                    requires
                        k + 1 <= 8,
                ;
            }
            acc = acc + pc as u128;
            proof {
                cnt = cnt + 1;
            }
            w += 1;
        }
        proof {
            assert(xk@.take(xk@.len() as int) =~= xk@);
            assert(yk@.take(yk@.len() as int) =~= yk@);
            assert(xp@.take(k as int + 1).drop_last() =~= xp@.take(k as int));
            assert(yp@.take(k as int + 1).drop_last() =~= yp@.take(k as int));
            assert(xp@.take(k as int + 1).last() == xp@[k as int]);
            assert((k + 1) * x.words() == k * x.words() + x.words()) by (nonlinear_arith);
        }
        k += 1;
    }
    proof {
        assert(xp@.take(x.quant_vec@.len() as int) =~= xp@);
        assert(yp@.take(y.quant_vec@.len() as int) =~= yp@);
    }
    Ok(acc)
}

/// The weighted AND dot accumulator: each word pair of plane `k` contributes
/// its AND popcount scaled by `2^k` (higher planes carry more significant
/// bits) and centered by 16.  The caller combines it with the magnitude
/// accumulators from `self_popcount` under its fixed weighting constants.
pub fn cosine_similarity_new_dot(x: &VectorQt, y: &VectorQt, table: &Vec<u32>) -> (r: Result<
    i128,
    ValidationError,
>)
    requires
        is_popcount_table(table@),
    ensures
        same_shape(*x, *y) ==> (r matches Ok(s) && s == and_dot_planes(x.planes(), y.planes())),
        !same_shape(*x, *y) ==> r == Err::<i128, ValidationError>(
            ValidationError::MismatchedShapes,
        ),
{
    if !shapes_match(x, y) {
        return Err(ValidationError::MismatchedShapes);
    }
    proof {
        lemma_planes_view(x.quant_vec);
        lemma_planes_view(y.quant_vec);
    }
    let xp = Ghost(x.planes());
    let yp = Ghost(y.planes());
    let mut acc: i128 = 0;
    let ghost mut cnt: int = 0;
    let mut k: usize = 0;
    while k < x.quant_vec.len()
        invariant
            is_popcount_table(table@),
            same_shape(*x, *y),
            xp@ == x.planes(),
            yp@ == y.planes(),
            k <= x.quant_vec@.len(),
            acc == and_dot_planes(xp@.take(k as int), yp@.take(k as int)),
            -16 * cnt <= acc <= 8192 * cnt,
            cnt <= 8 * x.words(),
            cnt == k * x.words(),
        decreases x.quant_vec@.len() - k,
    {
        let xk = &x.quant_vec[k];
        let yk = &y.quant_vec[k];
        let weight = crate::codec::two_pow(k as u8);
        let mut w: usize = 0;
        let ghost cnt0 = cnt;
        let ghost acc0 = acc;
        while w < xk.len()
            invariant
                is_popcount_table(table@),
                same_shape(*x, *y),
                xp@ == x.planes(),
                xk@ == xp@[k as int],
                yk@ == yp@[k as int],
                k < x.quant_vec@.len(),
                weight == pow2(k as nat),
                weight <= 256,
                xk@.len() == x.words(),
                yk@.len() == x.words(),
                w <= xk@.len(),
                acc == acc0 + and_dot_words(xk@.take(w as int), yk@.take(w as int), k as nat),
                cnt == cnt0 + w,
                cnt0 == k * x.words(),
                -16 * cnt <= acc <= 8192 * cnt,
                cnt <= 8 * x.words(),
                acc0 == and_dot_planes(xp@.take(k as int), yp@.take(k as int)),
            decreases xk@.len() - w,
        {
            let pc = shift_and_accumulate(xk[w] & yk[w], table);
            proof {
                assert(xk@.take(w as int + 1).drop_last() =~= xk@.take(w as int));
                assert(yk@.take(w as int + 1).drop_last() =~= yk@.take(w as int));
                assert(pc * weight <= 8192) by (nonlinear_arith)
                    requires
                        0 <= pc <= 32 && 0 <= weight <= 256,
                ;
                assert((k + 1) * x.words() == k * x.words() + x.words()) by (nonlinear_arith);
                assert(cnt + 1 <= (k + 1) * x.words());
                assert((k + 1) * x.words() <= 8 * x.words()) by (nonlinear_arith)
                    requires
                        k + 1 <= 8,
                ;
            }
            let term: i128 = (pc as i128) * (weight as i128) - 16;
            acc = acc + term;
            proof {
                cnt = cnt + 1;
            }
            w += 1;
        }
        proof {
            assert(xk@.take(xk@.len() as int) =~= xk@);
            assert(yk@.take(yk@.len() as int) =~= yk@);
            assert(xp@.take(k as int + 1).drop_last() =~= xp@.take(k as int));
            assert(yp@.take(k as int + 1).drop_last() =~= yp@.take(k as int));
            assert(xp@.take(k as int + 1).last() == xp@[k as int]);
            assert((k + 1) * x.words() == k * x.words() + x.words()) by (nonlinear_arith);
        }
        k += 1;
    }
    proof {
        assert(xp@.take(x.quant_vec@.len() as int) =~= xp@);
        assert(yp@.take(y.quant_vec@.len() as int) =~= yp@);
    }
    Ok(acc)
}

/// The self-magnitude accumulator: the total population count over every
/// plane of one operand.  Since a word ANDed or ORed with itself is itself,
/// this is the self-AND and self-OR accumulator at once; the caller weights
/// it to form the magnitude of the weighted dot score.
pub fn self_popcount(v: &VectorQt, table: &Vec<u32>) -> (r: u128)
    requires
        is_popcount_table(table@),
        v.wf(),
    ensures
        r == popcount_planes(v.planes()),
{
    proof {
        lemma_planes_view(v.quant_vec);
    }
    let vp = Ghost(v.planes());
    let mut acc: u128 = 0;
    let ghost mut cnt: int = 0;
    let mut k: usize = 0;
    while k < v.quant_vec.len()
        invariant
            is_popcount_table(table@),
            v.wf(),
            vp@ == v.planes(),
            k <= v.quant_vec@.len(),
            acc == popcount_planes(vp@.take(k as int)),
            0 <= acc <= 32 * cnt,
            cnt <= 8 * v.words(),
            cnt == k * v.words(),
        decreases v.quant_vec@.len() - k,
    {
        let vk = &v.quant_vec[k];
        let mut w: usize = 0;
        let ghost cnt0 = cnt;
        let ghost acc0 = acc;
        while w < vk.len()
            invariant
                is_popcount_table(table@),
                v.wf(),
                vp@ == v.planes(),
                vk@ == vp@[k as int],
                k < v.quant_vec@.len(),
                vk@.len() == v.words(),
                w <= vk@.len(),
                acc == acc0 + popcount_words(vk@.take(w as int)),
                cnt == cnt0 + w,
                cnt0 == k * v.words(),
                0 <= acc <= 32 * cnt,
                cnt <= 8 * v.words(),
                acc0 == popcount_planes(vp@.take(k as int)),
            decreases vk@.len() - w,
        {
            let pc = shift_and_accumulate(vk[w], table);
            proof {
                assert(vk@.take(w as int + 1).drop_last() =~= vk@.take(w as int));
                assert((k + 1) * v.words() == k * v.words() + v.words()) by (nonlinear_arith);
                assert(cnt + 1 <= (k + 1) * v.words());
                assert((k + 1) * v.words() <= 8 * v.words()) by (nonlinear_arith)
                    requires
                        k + 1 <= 8,
                ;
            }
            acc = acc + pc as u128;
            proof {
                cnt = cnt + 1;
            }
            w += 1;
        }
        proof {
            assert(vk@.take(vk@.len() as int) =~= vk@);
            assert(vp@.take(k as int + 1).drop_last() =~= vp@.take(k as int));
            assert(vp@.take(k as int + 1).last() == vp@[k as int]);
            assert((k + 1) * v.words() == k * v.words() + v.words()) by (nonlinear_arith);
        }
        k += 1;
    }
    proof {
        assert(vp@.take(v.quant_vec@.len() as int) =~= vp@);
    }
    acc
}

/// The three integer terms of the quaternary similarity of two operands:
/// the bit-serial dot accumulator and the two self-magnitude accumulators.
#[derive(Debug, Clone, Copy, PartialEq, Eq, Structural)]
pub struct QuaternaryTerms {
    pub dot: u128,
    pub mag1: u128,
    pub mag2: u128,
}

/// The quaternary accumulators of two same-shaped 2-bit operands: the dot
/// term is the sum of the exact per-component bit-serial products against
/// the other operand, and each magnitude term the same sum against self —
/// the sum of squared codes, but for the carry the all-ones square drops.
/// All three come from table-driven popcounts of the planes' words.  The
/// caller forms the score as the dot term over the square root of the
/// magnitudes' product.
pub fn cosine_similarity_quaternary_terms(x: &VectorQt, y: &VectorQt, table: &Vec<u32>) -> (r:
    Result<QuaternaryTerms, ValidationError>)
    requires
        is_popcount_table(table@),
    ensures
        same_shape(*x, *y) && x.resolution == 2 ==> (r matches Ok(t) && t.dot == quaternary_words(
            x.planes()[0],
            x.planes()[1],
            y.planes()[0],
            y.planes()[1],
        ) && t.mag1 == quaternary_words(
            x.planes()[0],
            x.planes()[1],
            x.planes()[0],
            x.planes()[1],
        ) && t.mag2 == quaternary_words(
            y.planes()[0],
            y.planes()[1],
            y.planes()[0],
            y.planes()[1],
        )),
        !same_shape(*x, *y) ==> r == Err::<QuaternaryTerms, ValidationError>(
            ValidationError::MismatchedShapes,
        ),
        same_shape(*x, *y) && x.resolution != 2 ==> r == Err::<QuaternaryTerms, ValidationError>(
            ValidationError::UnsupportedResolution,
        ),
{
    if !shapes_match(x, y) {
        return Err(ValidationError::MismatchedShapes);
    }
    if x.resolution != 2 {
        return Err(ValidationError::UnsupportedResolution);
    }
    proof {
        lemma_planes_view(x.quant_vec);
        lemma_planes_view(y.quant_vec);
    }
    let x0 = &x.quant_vec[0];
    let x1 = &x.quant_vec[1];
    let y0 = &y.quant_vec[0];
    let y1 = &y.quant_vec[1];
    let mut dot: u128 = 0;
    let mut mag1: u128 = 0;
    let mut mag2: u128 = 0;
    let mut w: usize = 0;
    while w < x0.len()
        invariant
            is_popcount_table(table@),
            same_shape(*x, *y),
            x.resolution == 2,
            x0@ == x.planes()[0],
            x1@ == x.planes()[1],
            y0@ == y.planes()[0],
            y1@ == y.planes()[1],
            x0@.len() == x.words(),
            x1@.len() == x.words(),
            y0@.len() == x.words(),
            y1@.len() == x.words(),
            w <= x0@.len(),
            dot == quaternary_words(
                x0@.take(w as int),
                x1@.take(w as int),
                y0@.take(w as int),
                y1@.take(w as int),
            ),
            mag1 == quaternary_words(
                x0@.take(w as int),
                x1@.take(w as int),
                x0@.take(w as int),
                x1@.take(w as int),
            ),
            mag2 == quaternary_words(
                y0@.take(w as int),
                y1@.take(w as int),
                y0@.take(w as int),
                y1@.take(w as int),
            ),
            0 <= dot <= 224 * w,
            0 <= mag1 <= 224 * w,
            0 <= mag2 <= 224 * w,
        decreases x0@.len() - w,
    {
        let d = quaternary_word_product(x0[w], x1[w], y0[w], y1[w], table);
        let m1 = quaternary_word_product(x0[w], x1[w], x0[w], x1[w], table);
        let m2 = quaternary_word_product(y0[w], y1[w], y0[w], y1[w], table);
        proof {
            assert(x0@.take(w as int + 1).drop_last() =~= x0@.take(w as int));
            assert(x1@.take(w as int + 1).drop_last() =~= x1@.take(w as int));
            assert(y0@.take(w as int + 1).drop_last() =~= y0@.take(w as int));
            assert(y1@.take(w as int + 1).drop_last() =~= y1@.take(w as int));
        }
        dot = dot + d as u128;
        mag1 = mag1 + m1 as u128;
        mag2 = mag2 + m2 as u128;
        w += 1;
    }
    proof {
        assert(x0@.take(x0@.len() as int) =~= x0@);
        assert(x1@.take(x1@.len() as int) =~= x1@);
        assert(y0@.take(y0@.len() as int) =~= y0@);
        assert(y1@.take(y1@.len() as int) =~= y1@);
    }
    Ok(QuaternaryTerms { dot, mag1, mag2 })
}

/// The bit-serial products of one word's worth of components: the three
/// partial-product columns of the 2-bit multiply, counted with the table
/// and weighted by their significance.
fn quaternary_word_product(a0: u32, a1: u32, b0: u32, b1: u32, table: &Vec<u32>) -> (r: u32)
    requires
        is_popcount_table(table@),
    ensures
        r == 4 * popcount32(a0 & b0) + 2 * popcount32((a1 & b0) ^ (a0 & b1)) + popcount32(a1 & b1),
        r <= 224,
{
    let high = shift_and_accumulate(a0 & b0, table);
    let mid = shift_and_accumulate((a1 & b0) ^ (a0 & b1), table);
    let low = shift_and_accumulate(a1 & b1, table);
    4 * high + 2 * mid + low
}

/// Every word of two equal plane sets agrees with itself, so the coalesce
/// accumulator of an operand against itself vanishes: its self-similarity is
/// exact (distance zero).
pub proof fn lemma_self_coalesce_zero(xp: Seq<Seq<u32>>)
    ensures
        xor_popcount_planes(xp, xp) == 0,
    decreases xp.len(),
{
    if xp.len() != 0 {
        lemma_self_xor_words_zero(xp.last());
        lemma_self_coalesce_zero(xp.drop_last());
    }
}

/// XOR of a word with itself has no set bits.
proof fn lemma_self_xor_words_zero(xs: Seq<u32>)
    ensures
        xor_popcount_words(xs, xs) == 0,
    decreases xs.len(),
{
    if xs.len() != 0 {
        let l = xs.last();
        assert(l ^ l == 0) by (bit_vector);
        lemma_popcount_rec_zero(32);
        lemma_self_xor_words_zero(xs.drop_last());
    }
}

} // verus!
