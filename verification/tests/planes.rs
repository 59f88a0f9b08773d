use cosdata::codec::{quantize_code, quantize_to_u32_bits, VectorQt};
use cosdata::errors::ValidationError;
use cosdata::popcount::initialize_u16_lookup_table;
use cosdata::quantization::{ScalarQuantization, Storage, StorageType};
use cosdata::similarity::{
    cosine_coalesce_sum, cosine_similarity_new_dot, cosine_similarity_quaternary_terms,
    self_popcount,
};

#[test]
fn full_byte_boundary_clamps_to_255() {
    // Component 0.999999 at full range, in fixed point at scale 1_000_000.
    let q = ScalarQuantization;
    let r = q
        .quantize(&vec![999_999i64], 1_000_000, StorageType::UnsignedByte)
        .unwrap();
    match r {
        Storage::UnsignedByte { mag, quant_vec } => {
            assert_eq!(quant_vec, vec![255u8]);
            assert_eq!(mag, 255 * 255);
        }
        _ => panic!("wrong representation"),
    }
}

#[test]
fn full_byte_rounds_half_up() {
    let q = ScalarQuantization;
    // 0.5 of 255 is 127.5, rounded away from zero to 128; 0.2 of 255 is 51.
    let r = q
        .quantize(&vec![500_000i64, 200_000, 0, 1_000_000], 1_000_000, StorageType::UnsignedByte)
        .unwrap();
    match r {
        Storage::UnsignedByte { mag, quant_vec } => {
            assert_eq!(quant_vec, vec![128u8, 51, 0, 255]);
            assert_eq!(mag, 128 * 128 + 51 * 51 + 255 * 255);
        }
        _ => panic!("wrong representation"),
    }
}

#[test]
fn quantize_empty_vector_is_rejected() {
    let q = ScalarQuantization;
    let r = q.quantize(&vec![], 1000, StorageType::UnsignedByte);
    assert_eq!(r.unwrap_err(), ValidationError::EmptyVector);
}

#[test]
fn quantize_unsupported_resolution_is_rejected() {
    let q = ScalarQuantization;
    let r = q.quantize(&vec![1i64], 1000, StorageType::SubByte(0));
    assert_eq!(r.unwrap_err(), ValidationError::UnsupportedResolution);
    let r = q.quantize(&vec![1i64], 1000, StorageType::SubByte(9));
    assert_eq!(r.unwrap_err(), ValidationError::UnsupportedResolution);
}

#[test]
fn train_is_a_no_op_for_scalar_strategy() {
    let mut q = ScalarQuantization;
    assert!(q.train(&vec![vec![1i64, 2, 3]]).is_ok());
}

#[test]
fn sub_byte_32_components_two_planes_one_word() {
    // Resolution 2 over 32 components: exactly 2 planes of 1 word each,
    // and the bits follow the most-significant-bit-first extraction rule.
    let mut components: Vec<i64> = vec![0; 32];
    components[0] = 0; // code 0
    components[1] = 1; // code 1
    components[2] = 2; // code 2
    components[3] = 4; // boundary: clamps to code 3
    let q = ScalarQuantization;
    let r = q.quantize(&components, 4, StorageType::SubByte(2)).unwrap();
    match r {
        Storage::SubByte { mag, quant_vec, resolution } => {
            assert_eq!(resolution, 2);
            assert_eq!(quant_vec.len(), 2);
            assert_eq!(quant_vec[0].len(), 1);
            assert_eq!(quant_vec[1].len(), 1);
            // Codes are [0, 1, 2, 3, 0, 0, ...]; plane 0 holds the high
            // bit of each code at the component's bit offset.
            assert_eq!(quant_vec[0][0], 0b1100);
            assert_eq!(quant_vec[1][0], 0b1010);
            assert_eq!(mag, 1 + 4 + 9);
        }
        _ => panic!("wrong representation"),
    }
}

#[test]
fn codec_round_trip_stays_within_one_step() {
    // Range [-1000, 1000) at resolution 2: buckets of width 500.
    let cases: Vec<(i64, u32)> = vec![(-1000, 0), (-500, 1), (0, 2), (999, 3), (1000, 3)];
    for (x, expected) in cases {
        let c = quantize_code(x, -1000, 1000, 2);
        assert_eq!(c, expected);
        // The bucket named by the code contains the component.
        let lower = -1000 + (c as i64) * 500;
        assert!(lower <= x && x <= lower + 500);
    }
}

#[test]
fn partial_final_word_keeps_high_bits_zero() {
    // Five components at resolution 1: one plane, one word, padding zero.
    let planes = quantize_to_u32_bits(&vec![9, 0, 9, 0, 9], 1, 0, 10);
    assert_eq!(planes.len(), 1);
    assert_eq!(planes[0].len(), 1);
    assert_eq!(planes[0][0], 0b10101);
}

fn vq(planes: Vec<Vec<u32>>, resolution: u8) -> VectorQt {
    VectorQt { quant_vec: planes, resolution }
}

#[test]
fn self_similarity_of_coalesce_score_is_one() {
    let table = initialize_u16_lookup_table();
    let x = vq(quantize_to_u32_bits(&vec![900, -200, 400, 0], 2, -1000, 1000), 2);
    let sum = cosine_coalesce_sum(&x, &x, &table).unwrap();
    assert_eq!(sum, 0);
    // The Hamming-style similarity of a vector with itself is exactly 1:
    // no bit differs over the 4 components times 2 planes.
    let total_bits = (4 * 2) as f32;
    let similarity = 1.0 - (sum as f32) / total_bits;
    assert!((similarity - 1.0).abs() < 1e-6);
}

#[test]
fn coalesce_counts_differing_bits() {
    let table = initialize_u16_lookup_table();
    let x = vq(vec![vec![0b1111], vec![0b0000]], 2);
    let y = vq(vec![vec![0b1010], vec![0b0110]], 2);
    // Plane 0 differs in two bits, plane 1 in two bits.
    assert_eq!(cosine_coalesce_sum(&x, &y, &table).unwrap(), 4);
}

#[test]
fn mismatched_shapes_are_rejected_not_truncated() {
    let table = initialize_u16_lookup_table();
    let x = vq(vec![vec![1], vec![2]], 2);
    let y = vq(vec![vec![1]], 1);
    assert_eq!(
        cosine_coalesce_sum(&x, &y, &table).unwrap_err(),
        ValidationError::MismatchedShapes
    );
    let z = vq(vec![vec![1, 2], vec![3, 4]], 2);
    assert_eq!(
        cosine_similarity_new_dot(&x, &z, &table).unwrap_err(),
        ValidationError::MismatchedShapes
    );
    // Quaternary terms reject mismatched operands before resolution.
    assert_eq!(
        cosine_similarity_quaternary_terms(&x, &y, &table).unwrap_err(),
        ValidationError::MismatchedShapes
    );
    // The quaternary engine handles 2-bit operands only.
    let w1 = vq(vec![vec![0b1]], 1);
    assert_eq!(
        cosine_similarity_quaternary_terms(&w1, &w1, &table).unwrap_err(),
        ValidationError::UnsupportedResolution
    );
}

#[test]
fn quaternary_pairs_the_two_planes_of_each_word() {
    let table = initialize_u16_lookup_table();
    // x holds code 2 at component 0; y holds code 2 at component 32.
    // Different components share nothing, so the dot term is zero, while
    // each magnitude is that component's squared code.
    let x = vq(vec![vec![0b1, 0], vec![0, 0]], 2);
    let y = vq(vec![vec![0, 0b1], vec![0, 0]], 2);
    let t = cosine_similarity_quaternary_terms(&x, &y, &table).unwrap();
    assert_eq!(t.dot, 0);
    assert_eq!(t.mag1, 4);
    assert_eq!(t.mag2, 4);

    // The same code at the same component multiplies exactly: 2 * 2 = 4.
    let z = vq(vec![vec![0b1, 0], vec![0, 0]], 2);
    let t2 = cosine_similarity_quaternary_terms(&x, &z, &table).unwrap();
    assert_eq!(t2.dot, 4);
}

#[test]
fn quaternary_dot_is_the_sum_of_component_products() {
    let table = initialize_u16_lookup_table();
    // x holds codes 2 and 1 at components 0 and 2; y holds 1 and 2 there.
    // Per component: 2*1 + 1*2 = 4; magnitudes 4+1 = 5 each, so the score
    // 4 / sqrt(25) stays within the Cauchy-Schwarz bound.
    let x = vq(vec![vec![0b001], vec![0b100]], 2);
    let y = vq(vec![vec![0b100], vec![0b001]], 2);
    let t = cosine_similarity_quaternary_terms(&x, &y, &table).unwrap();
    assert_eq!(t.dot, 4);
    assert_eq!(t.mag1, 5);
    assert_eq!(t.mag2, 5);
    let score = t.dot as f64 / ((t.mag1 as f64).sqrt() * (t.mag2 as f64).sqrt());
    assert!((score - 0.8).abs() < 1e-9);
}

#[test]
fn quaternary_magnitude_is_sum_of_squared_codes() {
    let table = initialize_u16_lookup_table();
    // Codes 1 and 1 at components 0 and 1: magnitude 1 + 1 = 2, and against
    // an operand with codes 1 and 0 the dot is 1*1 + 1*0 = 1.
    let x = vq(vec![vec![0], vec![0b11]], 2);
    let y = vq(vec![vec![0], vec![0b01]], 2);
    let t = cosine_similarity_quaternary_terms(&x, &y, &table).unwrap();
    assert_eq!(t.mag1, 2);
    assert_eq!(t.mag2, 1);
    assert_eq!(t.dot, 1);
    // The one carry the exclusive-or drops: the square of the all-ones code
    // is accumulated as 5, not 9.
    let w = vq(vec![vec![0b1], vec![0b1]], 2);
    let tw = cosine_similarity_quaternary_terms(&w, &w, &table).unwrap();
    assert_eq!(tw.mag1, 5);
}

#[test]
fn weighted_and_dot_counts_match_hand_computation() {
    let table = initialize_u16_lookup_table();
    let x = vq(vec![vec![0b1], vec![0b11]], 2);
    let y = vq(vec![vec![0b1], vec![0b01]], 2);
    // Plane 0: popcount(1 & 1) << 0 - 16 = -15.
    // Plane 1: popcount(0b11 & 0b01) << 1 - 16 = -14.
    assert_eq!(cosine_similarity_new_dot(&x, &y, &table).unwrap(), -29);
    assert_eq!(self_popcount(&x, &table), 3);
    assert_eq!(self_popcount(&y, &table), 2);
}

#[test]
fn quaternary_self_terms_give_similarity_one() {
    let table = initialize_u16_lookup_table();
    let x = vq(vec![vec![0b1001, 0b0101], vec![0b0011, 0b1000]], 2);
    let t = cosine_similarity_quaternary_terms(&x, &x, &table).unwrap();
    assert_eq!(t.dot, t.mag1);
    assert_eq!(t.dot, t.mag2);
    assert!(t.dot > 0);
    let score = t.dot as f64 / ((t.mag1 as f64).sqrt() * (t.mag2 as f64).sqrt());
    assert!((score - 1.0).abs() < 1e-9);
}
