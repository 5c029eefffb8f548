use crc_fast::algorithms::{get_calculator_params, CrcAlgorithm};
use crc_fast::arch::avx2_vpclmulqdq::{
    create_reflector256, reflect_bytes256, shuffle_bytes256, Reflector256, Simd256,
    X86_64Avx2VpclmulqdqOps,
};
use crc_fast::arch::sse::X86SsePclmulqdqOps;
use crc_fast::arch::vector::{pack_bytes, unpack_bytes, Vector128};
use crc_fast::bits::reflect_value;
use crc_fast::checksum::checksum_with_params;
use crc_fast::enums::Reflector;
use crc_fast::field::mul_mod_poly;
use crc_fast::params::CrcParams;
use crc_fast::structs::CrcState;
use crc_fast::traits::{ArchOps, EnhancedCrcWidth};
use crc_fast::widths::{Width32, Width64};

/// `x^n mod P(x)`.
fn power(n: u32, poly: u64, width: u8) -> u64 {
    let mut value = 1;
    for _ in 0..n {
        value = mul_mod_poly(value, 2, poly, width);
    }
    value
}

/// A folding constant for `x^n`, in the bit order of the CRC.
fn constant(n: u32, params: &CrcParams) -> u64 {
    if params.refin {
        reflect_value(power(n - 1, params.poly, params.width), 64)
    } else {
        power(n, params.poly, params.width)
    }
}

/// The table of folding keys.
fn fold_keys(params: &CrcParams) -> [u64; 23] {
    let mut keys = [0u64; 23];
    for (index, distance) in [
        (1usize, 128),
        (3, 1024),
        (9, 896),
        (11, 768),
        (13, 640),
        (15, 512),
        (17, 384),
        (19, 256),
    ] {
        keys[index] = constant(distance, params);
        keys[index + 1] = constant(distance + 64, params);
    }
    keys[8] = if params.refin {
        // the reversed polynomial, its leading term first
        (reflect_value(params.poly, params.width) << 1) | 1
    } else if params.width < 64 {
        params.poly | (1 << params.width)
    } else {
        params.poly
    };
    keys
}

fn vectors(bytes: &[u8]) -> Vec<[Vector128; 8]> {
    assert_eq!(bytes.len() % 128, 0);
    let mut blocks = Vec::new();
    for chunk in bytes.chunks(128) {
        let mut block = [Vector128(0); 8];
        for (i, part) in chunk.chunks(16).enumerate() {
            let mut array = [0u8; 16];
            array.copy_from_slice(part);
            block[i] = pack_bytes(&array);
        }
        blocks.push(block);
    }
    blocks
}

fn sample(len: usize) -> Vec<u8> {
    (0..len).map(|i| (i * 7 + i / 13 + 3) as u8).collect()
}

fn forward_64() -> CrcParams {
    CrcParams::new(
        "CRC-64/ECMA-182",
        64,
        0x42f0e1eb_a9ea3693,
        0,
        false,
        0,
        0x6c40_df5f_0b49_7347,
    )
}

fn process_64(params: &CrcParams, state: &mut CrcState, bytes: &[u8]) {
    let keys = fold_keys(params);
    let blocks = vectors(bytes);
    let handled = X86_64Avx2VpclmulqdqOps::new().process_enhanced_simd_blocks::<Width64>(
        state,
        &blocks[0],
        &blocks[1..],
        &Reflector::NoReflector,
        &keys,
    );
    assert!(handled);
    assert_eq!(state.reflected, params.refin);
}

fn word_64(state: &CrcState) -> u64 {
    if state.reflected {
        state.value.0 as u64
    } else {
        (state.value.0 >> 64) as u64
    }
}

fn crc_64(params: &CrcParams, bytes: &[u8]) -> u64 {
    let mut state = Width64::create_state(params.init, params.refin);
    process_64(params, &mut state, bytes);
    word_64(&state) ^ params.xorout
}

fn crc_32(params: &CrcParams, bytes: &[u8]) -> u64 {
    let keys = fold_keys(params);
    let blocks = vectors(bytes);
    let mut state = Width32::create_state(params.init as u32, params.refin);
    let handled = X86_64Avx2VpclmulqdqOps::default().process_enhanced_simd_blocks::<Width32>(
        &mut state,
        &blocks[0],
        &blocks[1..],
        &Reflector::NoReflector,
        &keys,
    );
    assert!(handled);
    let word = if state.reflected {
        state.value.0 as u64
    } else {
        (state.value.0 >> 96) as u64
    };
    word ^ params.xorout
}

#[test]
fn folded_blocks_give_the_checksum_of_64_bit_crcs() {
    for params in [
        get_calculator_params(CrcAlgorithm::Crc64Nvme),
        get_calculator_params(CrcAlgorithm::Crc64Xz),
        get_calculator_params(CrcAlgorithm::Crc64Redis),
        forward_64(),
    ] {
        for blocks in [1usize, 2, 3, 9] {
            let bytes = sample(128 * blocks);
            assert_eq!(
                crc_64(&params, &bytes),
                checksum_with_params(params, &bytes),
                "{} over {blocks} blocks",
                params.name
            );
        }
    }
}

#[test]
fn folded_blocks_give_the_checksum_of_32_bit_crcs() {
    for algorithm in [
        CrcAlgorithm::Crc32IsoHdlc,
        CrcAlgorithm::Crc32Iscsi,
        CrcAlgorithm::Crc32Bzip2,
    ] {
        let params = get_calculator_params(algorithm);
        for blocks in [1usize, 2, 3, 9] {
            let bytes = sample(128 * blocks);
            assert_eq!(
                crc_32(&params, &bytes),
                checksum_with_params(params, &bytes),
                "{algorithm:?} over {blocks} blocks"
            );
        }
    }
}

#[test]
fn blocks_processed_in_two_runs_give_the_checksum_of_both() {
    for params in [
        get_calculator_params(CrcAlgorithm::Crc64Nvme),
        forward_64(),
    ] {
        let bytes = sample(128 * 5);
        let mut state = Width64::create_state(params.init, params.refin);
        process_64(&params, &mut state, &bytes[..256]);
        process_64(&params, &mut state, &bytes[256..]);
        assert_eq!(
            word_64(&state) ^ params.xorout,
            checksum_with_params(params, &bytes)
        );
    }
}

#[test]
fn folding_constants_are_the_published_ones() {
    let keys = fold_keys(&get_calculator_params(CrcAlgorithm::Crc64Nvme));
    assert_eq!(keys[1], 0x21e9_761e_2526_21ac);
    assert_eq!(keys[2], 0xeadc_41fd_2ba3_d420);
    assert_eq!(keys[8], 0x34d9_2653_5897_936b);
}

#[test]
fn the_128_bit_tier_leaves_blocks_alone() {
    let mut state = Width64::create_state(0x0123_4567_89ab_cdef, false);
    let handled = X86SsePclmulqdqOps.process_enhanced_simd_blocks::<Width64>(
        &mut state,
        &[Vector128(7); 8],
        &[],
        &Reflector::NoReflector,
        &[1; 23],
    );
    assert!(!handled);
    assert_eq!(state.value, Vector128(0x0123_4567_89ab_cdef << 64));
    assert!(!state.reflected);
}

#[test]
fn states_hold_the_register_over_the_first_bytes() {
    assert_eq!(
        Width32::create_state(0x1234_5678, true).value,
        Vector128(0x1234_5678)
    );
    assert_eq!(
        Width32::create_state(0x1234_5678, false).value,
        Vector128(0x1234_5678 << 96)
    );
    assert_eq!(Width64::create_state(9, true).value, Vector128(9));
    assert_eq!(Width64::create_state(9, false).value, Vector128(9 << 64));
}

#[test]
fn final_reduction_divides_by_the_polynomial() {
    // x^0 folded leaves x^width mod P, which is the polynomial itself.
    let mut keys = [0u64; 23];
    keys[8] = 0x1_04c1_1db7;
    assert_eq!(
        Width32::perform_final_reduction(Vector128(1), false, &keys),
        0x04c1_1db7
    );
    keys[8] = 0x42f0e1eb_a9ea3693;
    assert_eq!(
        Width64::perform_final_reduction(Vector128(1), false, &keys),
        0x42f0e1eb_a9ea3693
    );
    // The last bit of a reflected vector is its most significant one.
    keys[8] = 0x1_db71_0641;
    assert_eq!(
        Width32::perform_final_reduction(Vector128(1 << 127), true, &keys),
        0xedb8_8320
    );
    keys[8] = 0x92d8_af2b_af0e_1e85;
    assert_eq!(
        Width64::perform_final_reduction(Vector128(1 << 127), true, &keys),
        0xc96c_5795_d787_0f42
    );
}

#[test]
fn registers_reverse_their_bytes_for_forward_crcs() {
    let first: Vec<u8> = (0..16).collect();
    let second: Vec<u8> = (16..32).collect();
    let mut a = [0u8; 16];
    a.copy_from_slice(&first);
    let mut b = [0u8; 16];
    b.copy_from_slice(&second);
    let data = Simd256::load(pack_bytes(&a), pack_bytes(&b));

    let reversed = reflect_bytes256(&create_reflector256(false), data);
    let mut bytes = unpack_bytes(reversed.low).to_vec();
    bytes.extend(unpack_bytes(reversed.high));
    let expected: Vec<u8> = (0..32).rev().collect();
    assert_eq!(bytes, expected);

    let kept = reflect_bytes256(&create_reflector256(true), data);
    assert_eq!(kept.low, data.low);
    assert_eq!(kept.high, data.high);
    assert!(matches!(
        create_reflector256(true),
        Reflector256::NoReflector
    ));
}

#[test]
fn shuffles_clear_bytes_whose_mask_has_the_top_bit() {
    let data = Simd256::new(
        0x1f1e1d1c1b1a1918,
        0x1716151413121110,
        0x0f0e0d0c0b0a0908,
        0x0706050403020100,
    );
    let mask = Simd256::new(u64::MAX, u64::MAX, 0, 0);
    let r = shuffle_bytes256(data, mask);
    // The low half repeats its byte 0 and moves up; the high half is cleared and moves down.
    assert_eq!(r.high, Vector128(0));
    assert_eq!(r.low, Vector128(0));
    let mask = Simd256::new(u64::MAX, 0x0101010101010101, 0, 0x0f0f0f0f0f0f0f0f);
    let r = shuffle_bytes256(data, mask);
    assert_eq!(r.high, Vector128(0x0f0f0f0f0f0f0f0f << 64));
    assert_eq!(r.low, Vector128(0x1111111111111111 << 64));
}

#[test]
fn registers_fold_half_by_half() {
    let x = Simd256::new(3, 5, 7, 9);
    let coeff = Simd256::new(2, 4, 3, 3);
    let added = Simd256::new(0, 1, 1, 0);
    let r = x.fold_32(&coeff, &added);
    // 3 * 2 + 5 * 4 + 1 and 7 * 3 + 9 * 3 + x^64, without carries
    assert_eq!(r.high, Vector128(6 ^ 20 ^ 1));
    assert_eq!(r.low, Vector128(9 ^ 27 ^ (1 << 64)));
    assert_eq!(x.to_128i_extract::<0>(), Vector128((7 << 64) | 9));
    assert_eq!(x.to_128i_extract::<1>(), Vector128((3 << 64) | 5));
}

#[test]
fn coefficients_take_the_bit_order_of_the_crc() {
    let ops = X86_64Avx2VpclmulqdqOps::new();
    let mut keys = [0u64; 23];
    keys[3] = 0x33;
    keys[4] = 0x44;
    let forward = ops.create_avx2_128byte_coefficient(&keys, false);
    assert_eq!(forward.high, Vector128((0x44 << 64) | 0x33));
    assert_eq!(forward.low, forward.high);
    let reflected = ops.create_avx2_128byte_coefficient(&keys, true);
    assert_eq!(reflected.high, Vector128((0x33 << 64) | 0x44));
    assert_eq!(
        ops.create_vector_from_u64_pair(0x44, 0x33, false),
        forward.low
    );
    assert_eq!(
        ops.create_vector_from_u64_pair(0x44, 0x33, true),
        reflected.low
    );
}

fn vector_operations<T: ArchOps>(ops: T) {
    let v = Vector128(0x0f0e0d0c_0b0a0908_07060504_03020100);
    let w = Vector128(0x80ff007f_00000000_ffffffff_00000001);
    assert_eq!(
        ops.create_vector_from_u64_pair_non_reflected(1, 2),
        Vector128((1 << 64) | 2)
    );
    assert_eq!(ops.create_vector_from_u64(5, true), Vector128(5 << 64));
    assert_eq!(ops.create_vector_from_u64(5, false), Vector128(5));
    assert_eq!(
        ops.extract_u64s(v),
        [0x0706050403020100, 0x0f0e0d0c0b0a0908]
    );
    assert_eq!(
        ops.extract_poly64s(v),
        [0x0706050403020100, 0x0f0e0d0c0b0a0908]
    );
    assert_eq!(ops.xor_vectors(v, w), Vector128(v.0 ^ w.0));
    assert_eq!(ops.and_vectors(v, w), Vector128(v.0 & w.0));
    assert_eq!(ops.xor3_vectors(v, w, v), w);
    assert_eq!(
        ops.load_bytes(&[0, 1, 2, 3, 4, 5, 6, 7, 8, 9, 10, 11, 12, 13, 14, 15]),
        v
    );
    assert_eq!(
        ops.load_aligned(&[0x0706050403020100, 0x0f0e0d0c0b0a0908]),
        v
    );
    assert_eq!(ops.shuffle_bytes(v, Vector128(0x80_0f_00_03)), {
        // byte 0 names byte 3, byte 2 names byte 15, byte 3 is cleared, the others name byte 0
        Vector128(0x00_0f_00_03)
    });
    assert_eq!(
        ops.blend_vectors(v, Vector128(0), w),
        Vector128(0x00000d0c_0b0a0908_00000000_03020100)
    );
    assert_eq!(
        ops.create_compare_mask(w),
        Vector128(0xffff0000_00000000_ffffffff_00000000)
    );
    assert_eq!(
        ops.set_all_bytes(0xa5),
        Vector128(0xa5a5a5a5_a5a5a5a5_a5a5a5a5_a5a5a5a5)
    );
    assert_eq!(ops.shift_left_8(v), Vector128(v.0 << 64));
    assert_eq!(ops.shift_left_4(v), Vector128(v.0 << 32));
    assert_eq!(ops.shift_left_12(v), Vector128(v.0 << 96));
    assert_eq!(ops.shift_left_32(v), Vector128(v.0 << 32));
    assert_eq!(ops.shift_right_32(v), Vector128(v.0 >> 32));
    assert_eq!(ops.shift_right_4(v), Vector128(v.0 >> 32));
    assert_eq!(ops.shift_right_5(v), Vector128(v.0 >> 40));
    assert_eq!(ops.shift_right_6(v), Vector128(v.0 >> 48));
    assert_eq!(ops.shift_right_7(v), Vector128(v.0 >> 56));
    assert_eq!(ops.shift_right_8(v), Vector128(v.0 >> 64));
    assert_eq!(ops.shift_right_12(v), Vector128(v.0 >> 96));
    assert_eq!(ops.create_vector_from_u32(9, false), Vector128(9));
    assert_eq!(ops.create_vector_from_u32(9, true), Vector128(9 << 96));

    let a = Vector128((3 << 64) | 5);
    let b = Vector128((7 << 64) | 9);
    assert_eq!(ops.carryless_mul_00(a, b), Vector128(45));
    assert_eq!(ops.carryless_mul_01(a, b), Vector128(27));
    assert_eq!(ops.carryless_mul_10(a, b), Vector128(27));
    assert_eq!(ops.carryless_mul_11(a, b), Vector128(9));
    let top = Vector128(u128::MAX);
    assert_eq!(
        ops.carryless_mul_00(top, top),
        Vector128(0x5555_5555_5555_5555_5555_5555_5555_5555)
    );
}

#[test]
fn the_128_bit_tier_operates_on_vectors() {
    vector_operations(X86SsePclmulqdqOps);
}

#[test]
fn the_256_bit_tier_operates_on_vectors() {
    vector_operations(X86_64Avx2VpclmulqdqOps::new());
}
