//! Scalar quantization strategies: full-byte codes with an exact magnitude,
//! or sub-byte bit planes through the codec.  Components are fixed-point
//! integers in a caller-chosen scale; a component `x` stands for the real
//! number `x / scale`, assumed normalized to the unit interval.

use vstd::prelude::*;

verus! {

use vstd::arithmetic::power2::pow2;
use crate::codec::{planes_encode, quant_codes, quantize_code, pack_codes};
use crate::errors::{ValidationError, TrainingError};

/// The representation a quantization call should produce.
#[derive(Debug, Clone, Copy, PartialEq, Eq, Structural)]
pub enum StorageType {
    /// One 8-bit code per component.
    UnsignedByte,
    /// Bit planes at the given resolution.
    SubByte(u8),
}

/// A quantized vector with its magnitude: the exact sum of squared codes.
#[derive(Debug, Clone)]
pub enum Storage {
    UnsignedByte { mag: u128, quant_vec: Vec<u8> },
    SubByte { mag: u128, quant_vec: Vec<Vec<u32>>, resolution: u8 },
}

/// The 8-bit code of component `x` at scale `scale`: `x / scale` times 255,
/// rounded half away from zero and clamped to 255.
pub open spec fn full_byte_code(x: int, scale: int) -> int {
    let r = (510 * x + scale) / (2 * scale);
    if r > 255 {
        255
    } else {
        r
    }
}

/// The code sequence of a full-byte quantized component sequence.
pub open spec fn full_byte_codes(xs: Seq<i64>, scale: int) -> Seq<u8> {
    Seq::new(xs.len(), |i: int| full_byte_code(xs[i] as int, scale) as u8)
}

/// Sum of squared 8-bit codes.
pub open spec fn sum_squares_u8(cs: Seq<u8>) -> int
    decreases cs.len(),
{
    if cs.len() == 0 {
        0
    } else {
        sum_squares_u8(cs.drop_last()) + (cs.last() as int) * (cs.last() as int)
    }
}

/// Sum of squared word codes.
pub open spec fn sum_squares_u32(cs: Seq<u32>) -> int
    decreases cs.len(),
{
    if cs.len() == 0 {
        0
    } else {
        sum_squares_u32(cs.drop_last()) + (cs.last() as int) * (cs.last() as int)
    }
}

/// Quantizes one unit-interval component to its 8-bit code.
fn full_byte_code_exec(x: i64, scale: i64) -> (c: u8)
    requires
        scale >= 1,
        0 <= x <= scale,
    ensures
        c == full_byte_code(x as int, scale as int),
{
    let num = 510u128 * (x as u128) + (scale as u128);
    let den = 2u128 * (scale as u128);
    let r = num / den;
    if r > 255 {
        255
    } else {
        r as u8
    }
}

/// The stateless scalar quantization strategy.
#[derive(Debug)]
pub struct ScalarQuantization;

impl ScalarQuantization {
    /// Quantizes a fixed-point component vector, assumed normalized to
    /// `[0, scale]`, into the requested representation with its exact
    /// magnitude.  An empty vector is rejected before anything else.
    pub fn quantize(&self, vector: &Vec<i64>, scale: i64, storage_type: StorageType) -> (r: Result<
        Storage,
        ValidationError,
    >)
        requires
            scale >= 1,
            forall|i: int| 0 <= i < vector@.len() ==> 0 <= #[trigger] vector@[i] <= scale,
        ensures
            vector@.len() == 0 ==> r == Err::<Storage, ValidationError>(
                ValidationError::EmptyVector,
            ),
            vector@.len() > 0 && storage_type == StorageType::UnsignedByte ==> (r matches Ok(s)
                && s matches Storage::UnsignedByte { mag, quant_vec } && quant_vec@
                == full_byte_codes(vector@, scale as int) && mag == sum_squares_u8(quant_vec@)),
            vector@.len() > 0 && (storage_type matches StorageType::SubByte(res)) && (
            storage_type matches StorageType::SubByte(res) ==> 1 <= res <= 8) ==> (r matches Ok(s)
                && s matches Storage::SubByte { mag, quant_vec, resolution } && (
            storage_type matches StorageType::SubByte(res) ==> resolution == res && planes_encode(
                quant_vec.deep_view(),
                quant_codes(vector@, 0, scale as int, res as nat),
                res as nat,
            ) && mag == sum_squares_u32(quant_codes(vector@, 0, scale as int, res as nat)))),
            vector@.len() > 0 && (storage_type matches StorageType::SubByte(res) && !(1 <= res
                <= 8)) ==> r == Err::<Storage, ValidationError>(
                ValidationError::UnsupportedResolution,
            ),
    {
        if vector.len() == 0 {
            return Err(ValidationError::EmptyVector);
        }
        match storage_type {
            StorageType::UnsignedByte => {
                let mut quant_vec: Vec<u8> = Vec::new();
                let mut mag: u128 = 0;
                let mut i: usize = 0;
                while i < vector.len()
                    invariant
                        scale >= 1,
                        forall|k: int| 0 <= k < vector@.len() ==> 0 <= #[trigger] vector@[k] <= scale,
                        i <= vector@.len(),
                        quant_vec@ == full_byte_codes(vector@, scale as int).take(i as int),
                        mag == sum_squares_u8(quant_vec@),
                        mag <= 65025 * i,
                    decreases vector@.len() - i,
                {
                    let c = full_byte_code_exec(vector[i], scale);
                    quant_vec.push(c);
                    proof {
                        let full = full_byte_codes(vector@, scale as int);
                        assert(quant_vec@ =~= full.take(i as int + 1));
                        assert(full.take(i as int + 1).drop_last() =~= full.take(i as int));
                        assert((c as int) * (c as int) <= 65025) by (nonlinear_arith)
                            requires
                                0 <= c <= 255,
                        ;
                    }
                    mag = mag + (c as u128) * (c as u128);
                    i += 1;
                }
                proof {
                    assert(quant_vec@ =~= full_byte_codes(vector@, scale as int));
                }
                Ok(Storage::UnsignedByte { mag, quant_vec })
            },
            StorageType::SubByte(resolution) => {
                if resolution < 1 || resolution > 8 {
                    return Err(ValidationError::UnsupportedResolution);
                }
                let mut codes: Vec<u32> = Vec::new();
                let mut mag: u128 = 0;
                let mut i: usize = 0;
                while i < vector.len()
                    invariant
                        scale >= 1,
                        1 <= resolution <= 8,
                        forall|k: int| 0 <= k < vector@.len() ==> 0 <= #[trigger] vector@[k] <= scale,
                        i <= vector@.len(),
                        codes@ == quant_codes(vector@, 0, scale as int, resolution as nat).take(
                            i as int,
                        ),
                        forall|k: int|
                            0 <= k < codes@.len() ==> #[trigger] codes@[k] < pow2(
                                resolution as nat,
                            ),
                        mag == sum_squares_u32(codes@),
                        mag <= 65025 * i,
                    decreases vector@.len() - i,
                {
                    let c = quantize_code(vector[i], 0, scale, resolution);
                    codes.push(c);
                    proof {
                        let full = quant_codes(vector@, 0, scale as int, resolution as nat);
                        assert(codes@ =~= full.take(i as int + 1));
                        assert(full.take(i as int + 1).drop_last() =~= full.take(i as int));
                        vstd::arithmetic::power2::lemma2_to64();
                        assert(pow2(resolution as nat) <= 256) by {
                            vstd::arithmetic::power2::lemma_pow2_strictly_increases(
                                resolution as nat,
                                9,
                            );
                        }
                        assert((c as int) * (c as int) <= 65025) by (nonlinear_arith)
                            requires
                                0 <= c <= 255,
                        ;
                    }
                    mag = mag + (c as u128) * (c as u128);
                    i += 1;
                }
                proof {
                    assert(codes@ =~= quant_codes(vector@, 0, scale as int, resolution as nat));
                }
                let quant_vec = pack_codes(&codes, resolution);
                Ok(Storage::SubByte { mag, quant_vec, resolution })
            },
        }
    }

    /// Scalar quantization is stateless: training always succeeds without
    /// touching anything.
    pub fn train(&mut self, _vectors: &Vec<Vec<i64>>) -> (r: Result<(), TrainingError>)
        ensures
            r == Ok::<(), TrainingError>(()),
    {
        Ok(())
    }
}

} // verus!
