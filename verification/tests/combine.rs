/*
  The combination of CRCs from their lengths is after crccomb.c, by Mark Adler:
  https://stackoverflow.com/questions/29915764/generic-crc-8-16-32-64-combine-implementation/29928573#29928573
  This is an altered version of it.
*/

/* crccomb.c -- generalized combination of CRCs
 * Copyright (C) 2015 Mark Adler
 * Version 1.1  29 Apr 2015  Mark Adler
 */

/*
 This software is provided 'as-is', without any express or implied
 warranty.  In no event will the author be held liable for any damages
 arising from the use of this software.

 Permission is granted to anyone to use this software for any purpose,
 including commercial applications, and to alter it and redistribute it
 freely, subject to the following restrictions:

 1. The origin of this software must not be misrepresented; you must not
    claim that you wrote the original software. If you use this software
    in a product, an acknowledgment in the product documentation would be
    appreciated but is not required.
 2. Altered source versions must be plainly marked as such, and must not be
    misrepresented as being the original software.
 3. This notice may not be removed or altered from any source distribution.

 Mark Adler
 madler@alumni.caltech.edu
*/

use crc_fast::algorithms::{get_calculator_params, CrcAlgorithm};
use crc_fast::arch::avx2_vpclmulqdq::X86_64Avx2VpclmulqdqOps;
use crc_fast::arch::sse::X86SsePclmulqdqOps;
use crc_fast::checksum::checksum_with_params;
use crc_fast::combine::checksums;
use crc_fast::feature_detection::ArchOpsInstance;
use crc_fast::field::barrett_mu;
use crc_fast::params::CrcParams;

/// The tiers that a machine can have. Every one must pass.
fn tiers() -> [ArchOpsInstance; 3] {
    [
        ArchOpsInstance::X86SsePclmulqdq(X86SsePclmulqdqOps),
        ArchOpsInstance::X86_64Avx2Vpclmulqdq(X86_64Avx2VpclmulqdqOps::new()),
        ArchOpsInstance::SoftwareFallback,
    ]
}

// The GF(2) zeros-operator implementation: the independent reference the combine-key path is
// checked against.

/* Multiply the GF(2) vector vec by the GF(2) matrix mat, returning the
resulting vector.  The vector is stored as bits in a crc_t.  The matrix is
similarly stored with each column as a crc_t, where the number of columns is
at least enough to cover the position of the most significant 1 bit in the
vector (so a dimension parameter is not needed). */
fn gf2_matrix_times(mat: &[u64; 64], mut vec: u64) -> u64 {
    let mut sum = 0;
    let mut idx = 0;
    while vec > 0 {
        if vec & 1 == 1 {
            sum ^= mat[idx];
        }
        vec >>= 1;
        idx += 1;
    }

    sum
}

/* Multiply the matrix mat by itself, returning the result in square. */
fn gf2_matrix_square(square: &mut [u64; 64], mat: &[u64; 64]) {
    for n in 0..64 {
        square[n] = gf2_matrix_times(mat, mat[n]);
    }
}

/// Construct the operator for one zero bit.
fn one_bit_operator(params: &CrcParams) -> [u64; 64] {
    let mut odd = [0u64; 64];
    let mut col: u64;

    if params.refin && params.refout {
        // use the reflected POLY
        odd[0] = reflect_poly(params.poly, params.width as u32);
        col = 1;
        for n in 1..params.width {
            odd[n as usize] = col;
            col <<= 1;
        }
    } else if !params.refin && !params.refout {
        col = 2;
        for n in 0..params.width - 1 {
            odd[n as usize] = col;
            col <<= 1;
        }
        // Put poly at the last valid index (width-1)
        odd[(params.width - 1) as usize] = params.poly;
    } else {
        panic!("Unsupported CRC configuration");
    }

    odd
}

/// Combine by building and applying a GF(2) zeros operator.
fn checksums_via_matrix(mut crc1: u64, crc2: u64, mut len2: u64, params: &CrcParams) -> u64 {
    let mut even = [0u64; 64]; /* even-power-of-two zeros operator */

    /* exclusive-or the result with len2 zeros applied to the CRC of an empty
    sequence */
    crc1 ^= params.init_algorithm ^ params.xorout;

    /* construct the operator for one zero bit and put in odd[] */
    let mut odd = one_bit_operator(params);

    /* put operator for two zero bits in even */
    gf2_matrix_square(&mut even, &odd);

    /* put operator for four zero bits in odd */
    gf2_matrix_square(&mut odd, &even);

    /* apply len2 zeros to crc1 (first square will put the operator for one
    zero byte, eight zero bits, in even) */
    loop {
        /* apply zeros operator for this bit of len2 */
        gf2_matrix_square(&mut even, &odd);
        if len2 & 1 == 1 {
            crc1 = gf2_matrix_times(&even, crc1);
        }
        len2 >>= 1;

        /* if no more bits set, then done */
        if len2 == 0 {
            break;
        }

        /* another iteration of the loop with odd and even swapped */
        gf2_matrix_square(&mut odd, &even);
        if len2 & 1 == 1 {
            crc1 = gf2_matrix_times(&odd, crc1);
        }
        len2 >>= 1;

        /* if no more bits set, then done */
        if len2 == 0 {
            break;
        }
    }

    /* return combined crc */
    crc1 ^= crc2;

    crc1
}

fn reflect_poly(poly: u64, width: u32) -> u64 {
    assert!(width <= 64, "Width must be <= 64 bits");

    // First reverse all bits
    let reversed = bit_reverse(poly);

    // Shift right to get the significant bits in the correct position
    // For a 32-bit poly, we need to shift right by (64 - 32) = 32 bits
    let shifted = reversed >> (64 - width);

    // Create mask for the target width
    let mask = if width == 64 {
        u64::MAX
    } else {
        (1u64 << width) - 1
    };

    // Apply mask to ensure we only keep the bits we want
    shifted & mask
}

fn bit_reverse(mut forward: u64) -> u64 {
    let mut reversed = 0;

    for _ in 0..64 {
        reversed <<= 1;
        reversed |= forward & 1;
        forward >>= 1;
    }

    reversed
}

const ALGORITHMS: &[CrcAlgorithm] = &[
    CrcAlgorithm::Crc32IsoHdlc,
    CrcAlgorithm::Crc32Iscsi,
    CrcAlgorithm::Crc32Bzip2,
    CrcAlgorithm::Crc64Nvme,
    CrcAlgorithm::Crc64Xz,
    CrcAlgorithm::Crc64Redis,
];

/// Barrett constants, cross-checked against polynomial long division done independently.
#[test]
fn barrett_constants_match_long_division() {
    assert_eq!(
        barrett_mu(0xad93d235_94c93659, 64),
        0xddf3eeb2_98be6fc8,
        "CRC-64/NVME"
    );
    assert_eq!(barrett_mu(0x04C11DB7, 32), 0x04d101df, "CRC-32/ISO-HDLC");
    assert_eq!(barrett_mu(0x8005, 16), 0xfffb, "CRC-16/ARC");
}

/// The combine-key path must agree with the matrix reference, for every algorithm and a
/// spread of lengths: powers of two, values either side of them, and lengths with many set
/// bits.
#[test]
fn combine_keys_match_the_matrix_reference() {
    let lengths: Vec<u64> = (0..24)
        .flat_map(|i: u32| {
            let p = 1u64 << i;
            [p.saturating_sub(1), p, p + 1]
        })
        .chain([0, 5, 12345, 0xFFFF_FFFF, u32::MAX as u64 + 1])
        .collect();

    for &algorithm in ALGORITHMS {
        let params = get_calculator_params(algorithm);
        let crc1 = checksum_with_params(params, b"the first sequence");
        let crc2 = checksum_with_params(params, b"and the second one");

        for &len2 in &lengths {
            for ops in tiers() {
                assert_eq!(
                    checksums(crc1, crc2, len2, &params, &ops),
                    checksums_via_matrix(crc1, crc2, len2, &params),
                    "{algorithm:?} disagreed at len2={len2}",
                );
            }
        }
    }
}

/// Every bit of a `u64` length must select the right key, including the high bits no
/// plausible payload reaches. A table indexed one entry short, or a loop that stops early,
/// would only show up here.
#[test]
fn combine_keys_cover_every_length_bit() {
    for &algorithm in ALGORITHMS {
        let params = get_calculator_params(algorithm);
        let crc1 = checksum_with_params(params, b"the first sequence");
        let crc2 = checksum_with_params(params, b"and the second one");

        let lengths = (0..64)
            .map(|i| 1u64 << i)
            .chain([u64::MAX, u64::MAX - 1, (1u64 << 63) | 1]);

        for len2 in lengths {
            for ops in tiers() {
                assert_eq!(
                    checksums(crc1, crc2, len2, &params, &ops),
                    checksums_via_matrix(crc1, crc2, len2, &params),
                    "{algorithm:?} disagreed at len2={len2:#x}",
                );
            }
        }
    }
}

/// The combined CRC must equal a CRC over the concatenation. The reference agreeing is
/// necessary but not sufficient: both paths derive from the same polynomial, so they could be
/// wrong the same way.
#[test]
fn combine_keys_match_a_flat_checksum_of_the_concatenation() {
    let whole: Vec<u8> = (0..4096u32).map(|i| (i % 251) as u8).collect();

    for &algorithm in ALGORITHMS {
        let params = get_calculator_params(algorithm);

        for split in [0usize, 1, 7, 64, 255, 1024, 4096] {
            let (first, second) = whole.split_at(split);
            for ops in tiers() {
                assert_eq!(
                    checksums(
                        checksum_with_params(params, first),
                        checksum_with_params(params, second),
                        second.len() as u64,
                        &params,
                        &ops,
                    ),
                    checksum_with_params(params, &whole),
                    "{algorithm:?} disagreed splitting 4096 bytes at {split}",
                );
            }
        }
    }
}

/// A custom polynomial has no prepared table and builds one per call. It must agree with the
/// built-in algorithm that names the same polynomial, which is what shows the two ways of
/// obtaining the keys produce the same ones.
#[test]
fn a_custom_polynomial_combines_like_its_built_in_twin() {
    let params = get_calculator_params(CrcAlgorithm::Crc64Nvme);
    let custom = CrcParams::new(
        "custom",
        params.width,
        params.poly,
        params.init,
        params.refin,
        params.xorout,
        params.check,
    );
    assert!(
        custom.combine_keys.is_none(),
        "a custom polynomial carries no table"
    );

    for len2 in [0u64, 1, 4096, 1 << 20, 1_060_921] {
        for ops in tiers() {
            assert_eq!(
                checksums(0xdead_beef, 0x9e37_79b9, len2, &custom, &ops),
                checksums(0xdead_beef, 0x9e37_79b9, len2, &params, &ops),
                "custom and built-in disagreed at len2={len2}",
            );
        }
    }
}

/// A second combine on the same polynomial must return what the first one did.
#[test]
fn combine_keys_are_stable_across_polynomials() {
    for _ in 0..3 {
        for &algorithm in ALGORITHMS {
            let params = get_calculator_params(algorithm);
            for ops in tiers() {
                assert_eq!(
                    checksums(0xdead_beef, 0x9e37_79b9, 1 << 20, &params, &ops),
                    checksums_via_matrix(0xdead_beef, 0x9e37_79b9, 1 << 20, &params),
                    "{algorithm:?} disagreed on a repeat combine",
                );
            }
        }
    }
}
