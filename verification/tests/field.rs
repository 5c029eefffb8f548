use crc_fast::algorithms::{get_calculator_params, CrcAlgorithm};
use crc_fast::arch::avx2_vpclmulqdq::X86_64Avx2VpclmulqdqOps;
use crc_fast::arch::sse::X86SsePclmulqdqOps;
use crc_fast::bits::{reflect_value, width_mask};
use crc_fast::checksum::checksum_with_params;
use crc_fast::combine::{checksums, CombineKeys};
use crc_fast::feature_detection::{has_clmul, ArchOpsInstance};
use crc_fast::field::{barrett_mu, clmul64, mul_mod_poly, mul_mod_poly_clmul};
use crc_fast::params::CrcParams;
use crc_fast::register::feed_bits;

const ALL: &[CrcAlgorithm] = &[
    CrcAlgorithm::Crc32IsoHdlc,
    CrcAlgorithm::Crc32Iscsi,
    CrcAlgorithm::Crc32Bzip2,
    CrcAlgorithm::Crc64Nvme,
    CrcAlgorithm::Crc64Xz,
    CrcAlgorithm::Crc64Redis,
];

const SOFTWARE: ArchOpsInstance = ArchOpsInstance::SoftwareFallback;

fn tiers() -> [ArchOpsInstance; 3] {
    [
        ArchOpsInstance::X86SsePclmulqdq(X86SsePclmulqdqOps),
        ArchOpsInstance::X86_64Avx2Vpclmulqdq(X86_64Avx2VpclmulqdqOps::new()),
        ArchOpsInstance::SoftwareFallback,
    ]
}

#[test]
fn checksums_of_the_digits_are_the_catalogued_ones() {
    for &algorithm in ALL {
        let params = get_calculator_params(algorithm);
        assert_eq!(
            checksum_with_params(params, b"123456789"),
            params.check,
            "{}",
            params.name
        );
    }
}

#[test]
fn an_empty_message_gives_the_register_it_started_from() {
    for &algorithm in ALL {
        let params = get_calculator_params(algorithm);
        assert_eq!(
            checksum_with_params(params, b""),
            params.init ^ params.xorout
        );
    }
}

#[test]
fn carryless_products_have_no_carries() {
    assert_eq!(clmul64(0, u64::MAX), (0, 0));
    assert_eq!(clmul64(1, 0x1234_5678_9abc_def0), (0, 0x1234_5678_9abc_def0));
    assert_eq!(clmul64(3, 3), (0, 5));
    assert_eq!(clmul64(1 << 63, 1 << 63), (1 << 62, 0));
    assert_eq!(
        clmul64(u64::MAX, u64::MAX),
        (0x5555_5555_5555_5555, 0x5555_5555_5555_5555)
    );
}

#[test]
fn doubling_the_leading_term_leaves_the_polynomial() {
    assert_eq!(mul_mod_poly(1 << 31, 2, 0x04c1_1db7, 32), 0x04c1_1db7);
    assert_eq!(
        mul_mod_poly(1 << 63, 2, 0xad93d235_94c93659, 64),
        0xad93d235_94c93659
    );
    assert_eq!(mul_mod_poly(0x1234, 1, 0x8005, 16), 0x1234);
    assert_eq!(mul_mod_poly(0, 0xffff, 0x8005, 16), 0);
}

#[test]
fn both_multiplies_agree() {
    for (poly, width) in [
        (0xad93d235_94c93659u64, 64u8),
        (0x42f0e1eb_a9ea3693, 64),
        (0x04c1_1db7, 32),
        (0x8005, 16),
        (0x1cf, 9),
        (1, 1),
        (0, 1),
        (0, 64),
        (u64::MAX, 64),
    ] {
        let mu = barrett_mu(poly, width);
        let mask = width_mask(width);
        let mut a = 0x9e37_79b9_7f4a_7c15u64;
        let mut b = 0xdead_beef_cafe_f00du64;
        for _ in 0..200 {
            assert_eq!(
                mul_mod_poly_clmul(a & mask, b & mask, poly, mu, width),
                mul_mod_poly(a & mask, b & mask, poly, width),
                "width {width}"
            );
            a = a.wrapping_mul(6364136223846793005).wrapping_add(1442695040888963407);
            b = b.rotate_left(7) ^ a;
        }
    }
}

#[test]
fn only_the_fallback_lacks_the_carryless_multiply() {
    let [sse, avx2, software] = tiers();
    assert!(has_clmul(&sse));
    assert!(has_clmul(&avx2));
    assert!(!has_clmul(&software));
}

#[test]
fn every_tier_combines_alike() {
    for &algorithm in ALL {
        let params = get_calculator_params(algorithm);
        let keys = CombineKeys::new(params.poly, params.width);
        for len2 in [0u64, 1, 2, 3, 4096, 0xdead_beef, u64::MAX] {
            let expected = checksums(0xdead_beef, 0x9e37_79b9, len2, &params, &SOFTWARE);
            for ops in tiers() {
                assert_eq!(
                    checksums(0xdead_beef, 0x9e37_79b9, len2, &params, &ops),
                    expected
                );
                assert_eq!(
                    keys.combine(0xdead_beef, 0x9e37_79b9, len2, &params, &ops),
                    expected
                );
                assert_eq!(
                    keys.mul_mod(0xdead_beef, 0x9e37_79b9, &params, &ops),
                    mul_mod_poly(0xdead_beef, 0x9e37_79b9, params.poly, params.width)
                );
            }
        }
    }
}

#[test]
fn terms_above_the_field_enter_a_product_once() {
    let mu = barrett_mu(0x04c1_1db7, 32);
    assert_eq!(mul_mod_poly(1 << 32, 3, 0x04c1_1db7, 32), 1 << 32);
    assert_eq!(
        mul_mod_poly(1 << 63 | 5, 3, 0x04c1_1db7, 32),
        0x8000_0000_0000_000f
    );
    assert_eq!(mul_mod_poly(1 << 63 | 5, 2, 0x04c1_1db7, 32), 10);
    assert_eq!(mul_mod_poly_clmul(1 << 32, 3, 0x04c1_1db7, mu, 32), 0x0d43_26d9);
    assert_eq!(mul_mod_poly_clmul(1 << 63, 3, 0x04c1_1db7, mu, 32), 0xefeb_5a90);
}

#[test]
fn words_wider_than_a_forward_crc_combine_as_the_tier_multiplies() {
    let params = get_calculator_params(CrcAlgorithm::Crc32Bzip2);
    let (crc1, crc2) = (0x00ab_cd01_dead_beef, 0x9e37_79b9);
    let [sse, avx2, software] = tiers();
    for (len2, doubling, barrett) in [
        (0u64, 0x00ab_cd01_409a_c756u64, 0x00ab_cd01_409a_c756u64),
        (1, 0x1e9c_7d5a, 0x8b15_f5ed),
        (3, 0xc23c_3c4e, 0x04ae_8f51),
        (16, 0x00ab_cd01_97e0_3fc9, 0xa838_cd29),
        (96, 0x00ab_cd01_d333_284e, 0x7752_bd21),
        (4096, 0xa9ae_022f, 0xd958_a7db),
        (1 << 20, 0x0fd0_c944, 0xd36e_605c),
    ] {
        assert_eq!(checksums(crc1, crc2, len2, &params, &software), doubling);
        assert_eq!(checksums(crc1, crc2, len2, &params, &sse), barrett);
        assert_eq!(checksums(crc1, crc2, len2, &params, &avx2), barrett);
    }
    let plain = CrcParams::new("plain", 32, 0x04c1_1db7, 0, false, 0, 0);
    assert_eq!(checksums(1 << 32, 0, 1, &plain, &software), 0);
    assert_eq!(checksums(1 << 32, 0, 1, &plain, &sse), 0xd219_c1dc);
    assert_eq!(checksums(1 << 32, 0, 1, &plain, &avx2), 0xd219_c1dc);
}

#[test]
fn words_wider_than_a_reflected_crc_are_cut_to_its_width() {
    let params = get_calculator_params(CrcAlgorithm::Crc32IsoHdlc);
    for len2 in [0u64, 1, 3, 4096, u64::MAX] {
        for ops in tiers() {
            assert_eq!(
                checksums(0x00ab_cd01_dead_beef, 0x9e37_79b9, len2, &params, &ops),
                checksums(0xdead_beef, 0x9e37_79b9, len2, &params, &SOFTWARE)
            );
        }
    }
}

#[test]
fn combining_with_nothing_changes_nothing() {
    for &algorithm in ALL {
        let params = get_calculator_params(algorithm);
        let crc = checksum_with_params(params, b"some bytes");
        let empty = checksum_with_params(params, b"");
        for ops in tiers() {
            assert_eq!(checksums(crc, empty, 0, &params, &ops), crc);
            assert_eq!(checksums(empty, crc, 10, &params, &ops), crc);
        }
    }
}

#[test]
fn combining_three_sequences_associates() {
    for &algorithm in ALL {
        let params = get_calculator_params(algorithm);
        let (a, b, c) = (&b"first"[..], &b"the second"[..], &b"and the third"[..]);
        let [x, y, z] = [a, b, c].map(|part| checksum_with_params(params, part));
        for ops in tiers() {
            let left = checksums(
                checksums(x, y, b.len() as u64, &params, &ops),
                z,
                c.len() as u64,
                &params,
                &ops,
            );
            let right = checksums(
                x,
                checksums(y, z, c.len() as u64, &params, &ops),
                (b.len() + c.len()) as u64,
                &params,
                &ops,
            );
            assert_eq!(left, right);
            assert_eq!(
                left,
                checksum_with_params(params, b"firstthe secondand the third")
            );
        }
    }
}

#[test]
fn appending_zero_bytes_multiplies_the_register() {
    // With nothing in the register to start from and nothing added at the end, a CRC is its
    // register: appending a zero byte multiplies it by x^8.
    let params = CrcParams::new("plain", 32, 0x04c1_1db7, 0, false, 0, 0);
    let crc = checksum_with_params(params, b"abc");
    assert_eq!(
        checksum_with_params(params, b"abc\0"),
        mul_mod_poly(crc, 1 << 8, 0x04c1_1db7, 32)
    );
    assert_eq!(
        checksums(crc, 0, 1, &params, &SOFTWARE),
        checksum_with_params(params, b"abc\0")
    );
}

#[test]
fn a_first_part_may_start_from_another_register() {
    let params = get_calculator_params(CrcAlgorithm::Crc64Xz);
    let mut resumed = params;
    resumed.init = 0x0123_4567_89ab_cdef;
    assert_eq!(
        checksums(
            checksum_with_params(resumed, b"head"),
            checksum_with_params(params, b"and tail"),
            8,
            &params,
            &SOFTWARE
        ),
        checksum_with_params(resumed, b"headand tail")
    );
}

#[test]
fn a_reflected_combine_reads_only_the_width_of_the_first_crc() {
    let params = get_calculator_params(CrcAlgorithm::Crc32IsoHdlc);
    for len2 in [0u64, 1, 77] {
        assert_eq!(
            checksums(0xabcd_0000_dead_beef, 0x1111_2222, len2, &params, &SOFTWARE),
            checksums(0xdead_beef, 0x1111_2222, len2, &params, &SOFTWARE)
        );
    }
}

#[test]
fn reflected_values_reflect_back() {
    assert_eq!(reflect_value(1, 8), 0x80);
    assert_eq!(reflect_value(0x04c1_1db7, 32), 0xedb8_8320);
    assert_eq!(reflect_value(0x8005, 16), 0xa001);
    assert_eq!(reflect_value(0x42f0e1eb_a9ea3693, 64), 0xc96c5795_d7870f42);
    assert_eq!(reflect_value(1, 1), 1);
    for width in 1..=64u8 {
        let v = 0x9e37_79b9_7f4a_7c15 & width_mask(width);
        assert_eq!(reflect_value(reflect_value(v, width), width), v);
    }
}

#[test]
fn masks_have_as_many_ones_as_the_width() {
    assert_eq!(width_mask(0), 0);
    assert_eq!(width_mask(1), 1);
    assert_eq!(width_mask(63), u64::MAX >> 1);
    assert_eq!(width_mask(64), u64::MAX);
}

#[test]
fn bits_enter_the_register_one_by_one() {
    // A single one leaves x^width mod P.
    assert_eq!(feed_bits(0, 1, 1, 0x8005, 16), 0x8005);
    assert_eq!(feed_bits(0, 0, 128, 0x8005, 16), 0);
    assert_eq!(feed_bits(0x1234, 0, 0, 0x8005, 16), 0x1234);
    // and a zero doubles what is there.
    assert_eq!(feed_bits(0x1234, 0, 1, 0x8005, 16), 0x2468);
}
