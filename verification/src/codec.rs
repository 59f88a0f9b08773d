//! Bit-plane codec: uniform quantization of fixed-point components into
//! r-bit codes over a configurable range, and packing of those codes into r
//! bit planes of 32-bit words.
//!
//! Components are plain fixed-point integers: the caller picks one scale and
//! expresses every component, the range bounds and later the sparse values in
//! it.  Plane `k` holds bit `r - 1 - k` of every code (plane 0 is the most
//! significant); component `i` occupies bit `i % 32` of word `i / 32`, and
//! the unused high bits of a partial final word are zero.

use vstd::prelude::*;

verus! {

use vstd::arithmetic::power2::pow2;

/// Bit `j` of the word `c` (bit 0 is the least significant).
pub open spec fn code_bit(c: u32, j: u32) -> bool {
    (c >> j) & 1 == 1
}

/// Number of 32-bit words needed to hold `d` one-bit components.
pub open spec fn words_for(d: nat) -> nat {
    (d + 31) / 32
}

/// The r-bit quantization code of component `x` over the range `[min, max)`:
/// the index of the bucket of width `(max - min) / 2^r` that `x` falls in,
/// clamped to the top code so that `x == max` never overflows into r+1 bits.
pub open spec fn quant_code(x: int, min: int, max: int, r: nat) -> int {
    let raw = ((x - min) * pow2(r)) / (max - min);
    if raw > pow2(r) - 1 {
        pow2(r) - 1
    } else {
        raw
    }
}

/// The sequence of quantization codes of a component sequence.
pub open spec fn quant_codes(xs: Seq<i64>, min: int, max: int, r: nat) -> Seq<u32> {
    Seq::new(xs.len(), |i: int| quant_code(xs[i] as int, min, max, r) as u32)
}

/// What it means for `planes` to be the bit-plane packing of `codes` at
/// resolution `r`: r planes of exactly `words_for` words each; bit `t` of
/// word `w` of plane `k` is bit `r - 1 - k` of the code of component
/// `32 * w + t`; bits past the last component are zero.
pub open spec fn planes_encode(planes: Seq<Seq<u32>>, codes: Seq<u32>, r: nat) -> bool {
    &&& planes.len() == r
    &&& forall|k: int| 0 <= k < r ==> planes[k].len() == words_for(codes.len())
    &&& forall|k: int, w: int, t: u32|
        0 <= k < r && 0 <= w < planes[k].len() && t < 32 && 32 * w + t < codes.len()
            ==> #[trigger] code_bit(planes[k][w], t) == code_bit(
            codes[32 * w + t],
            (r - 1 - k) as u32,
        )
    &&& forall|k: int, w: int, t: u32|
        0 <= k < r && 0 <= w < planes[k].len() && t < 32 && 32 * w + t >= codes.len()
            ==> !(#[trigger] code_bit(planes[k][w], t))
}

/// The plane sequence of a plane vector is its sequence of word sequences.
pub proof fn lemma_planes_view(v: Vec<Vec<u32>>)
    ensures
        v.deep_view().len() == v@.len(),
        forall|i: int| 0 <= i < v@.len() ==> v.deep_view()[i] == (#[trigger] v@[i])@,
{
    assert forall|i: int| 0 <= i < v@.len() implies v.deep_view()[i] == (#[trigger] v@[i])@ by {
        assert(v.deep_view()[i] =~= v@[i]@);
    }
}

/// `2^r` as a word, for resolutions up to 8 bits.
pub fn two_pow(r: u8) -> (p: u32)
    requires
        r <= 8,
    ensures
        p == pow2(r as nat),
        p <= 256,
{
    proof {
        vstd::arithmetic::power2::lemma2_to64();
    }
    match r {
        0 => 1,
        1 => 2,
        2 => 4,
        3 => 8,
        4 => 16,
        5 => 32,
        6 => 64,
        7 => 128,
        _ => 256,
    }
}

/// Quantizes one fixed-point component into its r-bit code.
pub fn quantize_code(x: i64, min: i64, max: i64, r: u8) -> (c: u32)
    requires
        min < max,
        min <= x <= max,
        1 <= r <= 8,
    ensures
        c == quant_code(x as int, min as int, max as int, r as nat),
        c < pow2(r as nat),
{
    proof {
        vstd::arithmetic::power2::lemma2_to64();
    }
    let parts = two_pow(r);
    let dx = (x as i128 - min as i128) as u128;
    let den = (max as i128 - min as i128) as u128;
    proof {
        assert(dx == x - min && den == max - min);
        assert(dx * (parts as u128) < 0x2000_0000_0000_0000_0000_0000_0000_0000) by (nonlinear_arith)
            requires
                dx < 0x1_0000_0000_0000_0000_0000u128 && parts <= 256,
        ;
    }
    let raw = (dx * parts as u128) / den;
    let cap = parts - 1;
    if raw > cap as u128 {
        cap
    } else {
        raw as u32
    }
}

/// A vector quantized to `resolution` bit planes of packed 32-bit words.
#[derive(Debug, Clone)]
pub struct VectorQt {
    pub quant_vec: Vec<Vec<u32>>,
    pub resolution: u8,
}

impl VectorQt {
    /// Structural well-formedness: between 1 and 8 planes, one per code bit,
    /// all of the same width.
    pub open spec fn wf(self) -> bool {
        &&& 1 <= self.resolution <= 8
        &&& self.quant_vec.len() == self.resolution
        &&& forall|k: int|
            0 <= k < self.quant_vec.len() ==> (#[trigger] self.quant_vec[k])@.len()
                == self.quant_vec[0]@.len()
    }

    /// The packed planes, as mathematical sequences.
    pub open spec fn planes(self) -> Seq<Seq<u32>> {
        self.quant_vec.deep_view()
    }

    /// Whether this value is the packing of the code sequence `codes`.
    pub open spec fn encodes(self, codes: Seq<u32>) -> bool {
        planes_encode(self.planes(), codes, self.resolution as nat)
    }

    /// Number of words per plane.
    pub open spec fn words(self) -> nat {
        self.quant_vec[0]@.len()
    }

    /// Packs a code sequence into a quantized vector.
    pub fn from_codes(codes: &Vec<u32>, resolution: u8) -> (v: VectorQt)
        requires
            1 <= resolution <= 8,
            forall|i: int| 0 <= i < codes@.len() ==> codes@[i] < pow2(resolution as nat),
        ensures
            v.wf(),
            v.resolution == resolution,
            v.encodes(codes@),
    {
        let quant_vec = pack_codes(codes, resolution);
        proof {
            assert(forall|j: int|
                0 <= j < quant_vec@.len() ==> quant_vec.deep_view()[j] == (#[trigger] quant_vec@[j])@);
        }
        VectorQt { quant_vec, resolution }
    }
}

/// One bit plane set, or clear and left alone, for every code.
fn pack_one_plane(codes: &Vec<u32>, resolution: u8, k: u8) -> (plane: Vec<u32>)
    requires
        1 <= resolution <= 8,
        k < resolution,
    ensures
        plane@.len() == words_for(codes@.len()),
        forall|w: int, t: u32|
            0 <= w < plane@.len() && t < 32 && 32 * w + t < codes@.len() ==> #[trigger] code_bit(
                plane@[w],
                t,
            ) == code_bit(codes@[32 * w + t], (resolution - 1 - k) as u32),
        forall|w: int, t: u32|
            0 <= w < plane@.len() && t < 32 && 32 * w + t >= codes@.len() ==> !(#[trigger] code_bit(
                plane@[w],
                t,
            )),
{
    let shift = resolution - 1 - k;
    let mut plane: Vec<u32> = Vec::new();
    let mut cur: u32 = 0;
    let mut bi: u32 = 0;
    let mut i: usize = 0;
    proof {
        assert(forall|t: u32| t < 32 ==> !code_bit(0u32, t)) by (bit_vector);
    }
    while i < codes.len()
        invariant
            1 <= resolution <= 8,
            k < resolution,
            shift == resolution - 1 - k,
            i <= codes@.len(),
            bi < 32,
            i == 32 * plane@.len() + bi,
            forall|w: int, t: u32|
                0 <= w < plane@.len() && t < 32 ==> #[trigger] code_bit(plane@[w], t) == code_bit(
                    codes@[32 * w + t],
                    shift as u32,
                ),
            forall|t: u32|
                t < bi ==> #[trigger] code_bit(cur, t) == code_bit(
                    codes@[32 * plane@.len() + t],
                    shift as u32,
                ),
            forall|t: u32| bi <= t < 32 ==> !(#[trigger] code_bit(cur, t)),
        decreases codes@.len() - i,
    {
        let c = codes[i];
        let bit = (c >> (shift as u32)) & 1;
        proof {
            let s = shift as u32;
            assert((c >> s) & 1 < 2) by (bit_vector);
            assert(((c >> s) & 1 == 1) == code_bit(c, s));
        }
        if bit == 1 {
            let old_cur = cur;
            cur = cur | (1u32 << bi);
            proof {
                let b = bi;
                assert(forall|t: u32|
                    t < 32 && b < 32 ==> #[trigger] code_bit(old_cur | (1u32 << b), t) == (t == b
                        || code_bit(old_cur, t))) by (bit_vector);
            }
        }
        i += 1;
        bi += 1;
        if bi == 32 {
            plane.push(cur);
            cur = 0;
            bi = 0;
            proof {
                assert(forall|t: u32| t < 32 ==> !code_bit(0u32, t)) by (bit_vector);
            }
        }
    }
    if bi > 0 {
        plane.push(cur);
        proof {
            assert(plane@.len() == words_for(codes@.len())) by {
                assert(codes@.len() == 32 * (plane@.len() - 1) + bi);
            };
        }
    } else {
        proof {
            assert(plane@.len() == words_for(codes@.len())) by {
                assert(codes@.len() == 32 * plane@.len());
            };
        }
    }
    plane
}

/// Packs an r-bit code sequence into r bit planes, most significant first.
pub fn pack_codes(codes: &Vec<u32>, resolution: u8) -> (planes: Vec<Vec<u32>>)
    requires
        1 <= resolution <= 8,
    ensures
        planes_encode(planes.deep_view(), codes@, resolution as nat),
{
    let mut planes: Vec<Vec<u32>> = Vec::new();
    let mut k: u8 = 0;
    while k < resolution
        invariant
            1 <= resolution <= 8,
            k <= resolution,
            planes@.len() == k,
            forall|j: int| 0 <= j < k ==> (#[trigger] planes@[j])@.len() == words_for(codes@.len()),
            forall|j: int, w: int, t: u32|
                0 <= j < k && 0 <= w < planes@[j]@.len() && t < 32 && 32 * w + t < codes@.len()
                    ==> #[trigger] code_bit(planes@[j]@[w], t) == code_bit(
                    codes@[32 * w + t],
                    (resolution - 1 - j) as u32,
                ),
            forall|j: int, w: int, t: u32|
                0 <= j < k && 0 <= w < planes@[j]@.len() && t < 32 && 32 * w + t >= codes@.len()
                    ==> !(#[trigger] code_bit(planes@[j]@[w], t)),
        decreases resolution - k,
    {
        let plane = pack_one_plane(codes, resolution, k);
        planes.push(plane);
        k += 1;
    }
    proof {
        assert(planes.deep_view().len() == planes@.len());
        assert(forall|j: int|
            0 <= j < planes@.len() ==> planes.deep_view()[j] == (#[trigger] planes@[j])@);
    }
    planes
}

/// Quantizes a fixed-point component vector into `resolution` packed bit
/// planes over the range `[min, max)`.
pub fn quantize_to_u32_bits(fins: &Vec<i64>, resolution: u8, min: i64, max: i64) -> (planes: Vec<
    Vec<u32>,
>)
    requires
        min < max,
        1 <= resolution <= 8,
        forall|i: int| 0 <= i < fins@.len() ==> min <= #[trigger] fins@[i] <= max,
    ensures
        planes_encode(
            planes.deep_view(),
            quant_codes(fins@, min as int, max as int, resolution as nat),
            resolution as nat,
        ),
{
    let mut codes: Vec<u32> = Vec::new();
    let mut i: usize = 0;
    while i < fins.len()
        invariant
            min < max,
            1 <= resolution <= 8,
            forall|j: int| 0 <= j < fins@.len() ==> min <= #[trigger] fins@[j] <= max,
            i <= fins@.len(),
            codes@ == quant_codes(fins@, min as int, max as int, resolution as nat).take(i as int),
        decreases fins@.len() - i,
    {
        let c = quantize_code(fins[i], min, max, resolution);
        codes.push(c);
        proof {
            let full = quant_codes(fins@, min as int, max as int, resolution as nat);
            assert(codes@ =~= full.take(i as int + 1));
        }
        i += 1;
    }
    proof {
        let full = quant_codes(fins@, min as int, max as int, resolution as nat);
        assert(codes@ =~= full);
    }
    pack_codes(&codes, resolution)
}

/// The quantize-then-decode round trip: a component's code names the bucket
/// of width `(max - min) / 2^r` that contains it.  Stated with both sides
/// scaled by `2^r` so that every quantity stays integral: the bucket's lower
/// edge is at most `x`, its upper edge at least `x`, and a component at the
/// upper range boundary takes the greatest code rather than overflowing.
pub proof fn lemma_quantize_round_trip(x: int, min: int, max: int, r: nat)
    requires
        min < max,
        min <= x <= max,
        1 <= r,
    ensures
        0 <= quant_code(x, min, max, r) < pow2(r),
        min * pow2(r) + quant_code(x, min, max, r) * (max - min) <= x * pow2(r),
        x * pow2(r) <= min * pow2(r) + (quant_code(x, min, max, r) + 1) * (max - min),
        x == max ==> quant_code(x, min, max, r) == pow2(r) - 1,
{
    vstd::arithmetic::power2::lemma_pow2_pos(r);
    let p = pow2(r) as int;
    let d = max - min;
    let n = (x - min) * p;
    let raw = n / d;
    assert(n >= 0) by (nonlinear_arith)
        requires
            n == (x - min) * p && x >= min && p > 0,
    ;
    assert(n <= d * p) by (nonlinear_arith)
        requires
            n == (x - min) * p && x - min <= d && p > 0,
    ;
    vstd::arithmetic::div_mod::lemma_fundamental_div_mod(n, d);
    vstd::arithmetic::div_mod::lemma_mod_division_less_than_divisor(n, d);
    vstd::arithmetic::div_mod::lemma_div_pos_is_pos(n, d);
    assert(d * raw <= n < d * (raw + 1)) by (nonlinear_arith)
        requires
            n == d * raw + n % d && 0 <= n % d < d,
    ;
    assert((d * p) / d == p) by {
        vstd::arithmetic::div_mod::lemma_div_multiples_vanish(p, d);
    }
    assert(raw <= p) by {
        vstd::arithmetic::div_mod::lemma_div_is_ordered(n, d * p, d);
    }
    let c = quant_code(x, min, max, r);
    if raw > p - 1 {
        assert(raw == p);
        assert(c == p - 1);
        assert(d * p <= n);
        assert(n == d * p);
        assert(c * d <= n) by (nonlinear_arith)
            requires
                c == p - 1 && n == d * p && d > 0,
        ;
        assert(n <= (c + 1) * d) by (nonlinear_arith)
            requires
                c + 1 == p && n == d * p && d > 0,
        ;
    } else {
        assert(c == raw);
        assert(c * d <= n && n <= (c + 1) * d) by (nonlinear_arith)
            requires
                d * c <= n < d * (c + 1),
        ;
    }
    assert(min * p + c * d <= min * p + n == x * p) by (nonlinear_arith)
        requires
            c * d <= n && n == (x - min) * p,
    ;
    assert(x * p <= min * p + (c + 1) * d) by (nonlinear_arith)
        requires
            n <= (c + 1) * d && n == (x - min) * p,
    ;
    if x == max {
        assert(n == d * p);
        assert(raw == p);
    }
}

} // verus!
