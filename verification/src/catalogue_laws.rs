//! The catalogued CRCs give the check values that the catalogue publishes.
use vstd::arithmetic::mul::*;
use vstd::arithmetic::power2::*;
use vstd::prelude::*;

use crate::algorithms::{CrcAlgorithm, get_calculator_params};
use crate::bits::{
    lemma_pow2_64, lemma_reversed_digit, lemma_reversed_mod, lemma_reversed_split,
    lemma_reversed_zero, lemma_u64_xor, reversed,
};
use crate::checksum::{
    byte_poly, checksum_with_params, crc_from, lemma_byte_poly_bound, message_poly,
};
use crate::field::{lemma_field_bound, lemma_modulus, lemma_shift_in, modulus, valid_poly};
use crate::params::CrcParams;
use crate::poly::{
    lemma_add_bound, lemma_add_shift, lemma_join_at, lemma_rem_digit, lemma_rem_small, poly_add,
    poly_rem,
};
use crate::register::{feed, lemma_feed_compose, lemma_feed_nothing};

verus! {

/// A 32-bit register, doubled modulo `P`.
spec fn doubled_32(r: u64, poly: u64) -> u64 {
    ((r << 1) & 0xffff_ffff) ^ (if r >= 0x8000_0000 {
        poly
    } else {
        0
    })
}

/// A 64-bit register, doubled modulo `P`.
spec fn doubled_64(r: u64, poly: u64) -> u64 {
    (r << 1) ^ (if r >= 0x8000_0000_0000_0000 {
        poly
    } else {
        0
    })
}

/// A 32-bit register after eight more bits.
spec fn advanced_32(r: u64, digits: u64, poly: u64) -> u64 {
    let d0 = r ^ (digits << 24);
    let d1 = doubled_32(d0, poly);
    let d2 = doubled_32(d1, poly);
    let d3 = doubled_32(d2, poly);
    let d4 = doubled_32(d3, poly);
    let d5 = doubled_32(d4, poly);
    let d6 = doubled_32(d5, poly);
    let d7 = doubled_32(d6, poly);
    doubled_32(d7, poly)
}

proof fn lemma_doubled_32(r: u64, x: nat, poly: u64)
    requires
        valid_poly(poly, 32),
        r as nat == poly_rem(x, modulus(poly, 32)),
    ensures
        doubled_32(r, poly) as nat == poly_rem(2 * x, modulus(poly, 32)),
{
    let p = modulus(poly, 32);
    lemma_modulus(poly, 32);
    lemma_field_bound(x, poly, 32);
    lemma2_to64();
    lemma_pow2_64();
    lemma_rem_digit(x, 0, p);
    let mask = 0xffff_ffffu64;
    lemma_shift_in(r, 0, poly, 32, mask);
    assert((r << 1) | 0 == r << 1 && (r << 1) & 0xffff_ffff_ffff_ffffu64 == r << 1) by (bit_vector);
}

proof fn lemma_advanced_32(r: u64, digits: u64, poly: u64)
    requires
        valid_poly(poly, 32),
        r < pow2(32),
        digits < 256,
    ensures
        advanced_32(r, digits, poly) as nat == feed(r as nat, digits as nat, 8, poly, 32),
{
    let p = modulus(poly, 32);
    let t = digits << 24;
    lemma2_to64();
    lemma_pow2_64();
    lemma_pow2_adds(24, 8);
    assert(t == digits * 0x1000000) by (bit_vector)
        requires
            t == digits << 24,
            digits < 256,
    ;
    let d0 = r ^ t;
    lemma_u64_xor(r, t);
    lemma_add_shift(r as nat, t as nat, 8);
    lemma2_to64_rest();
    assert(t as nat * pow2(8) == digits as nat * pow2(32));
    let x = poly_add(r as nat, t as nat);
    lemma_modulus(poly, 32);
    lemma_add_bound(r as nat, t as nat, 32);
    lemma_rem_small(x, p);
    let d1 = doubled_32(d0, poly);
    let d2 = doubled_32(d1, poly);
    let d3 = doubled_32(d2, poly);
    let d4 = doubled_32(d3, poly);
    let d5 = doubled_32(d4, poly);
    let d6 = doubled_32(d5, poly);
    let d7 = doubled_32(d6, poly);
    lemma_doubled_32(d0, x, poly);
    lemma_doubled_32(d1, 2 * x, poly);
    lemma_doubled_32(d2, 4 * x, poly);
    lemma_doubled_32(d3, 8 * x, poly);
    lemma_doubled_32(d4, 16 * x, poly);
    lemma_doubled_32(d5, 32 * x, poly);
    lemma_doubled_32(d6, 64 * x, poly);
    lemma_doubled_32(d7, 128 * x, poly);
}

/// A 64-bit register after eight more bits.
spec fn advanced_64(r: u64, digits: u64, poly: u64) -> u64 {
    let d0 = r ^ (digits << 56);
    let d1 = doubled_64(d0, poly);
    let d2 = doubled_64(d1, poly);
    let d3 = doubled_64(d2, poly);
    let d4 = doubled_64(d3, poly);
    let d5 = doubled_64(d4, poly);
    let d6 = doubled_64(d5, poly);
    let d7 = doubled_64(d6, poly);
    doubled_64(d7, poly)
}

proof fn lemma_doubled_64(r: u64, x: nat, poly: u64)
    requires
        valid_poly(poly, 64),
        r as nat == poly_rem(x, modulus(poly, 64)),
    ensures
        doubled_64(r, poly) as nat == poly_rem(2 * x, modulus(poly, 64)),
{
    let p = modulus(poly, 64);
    lemma_modulus(poly, 64);
    lemma_field_bound(x, poly, 64);
    lemma2_to64();
    lemma_pow2_64();
    lemma_rem_digit(x, 0, p);
    let mask = 0xffff_ffff_ffff_ffffu64;
    lemma_shift_in(r, 0, poly, 64, mask);
    assert((r << 1) | 0 == r << 1 && (r << 1) & 0xffff_ffff_ffff_ffffu64 == r << 1) by (bit_vector);
}

proof fn lemma_advanced_64(r: u64, digits: u64, poly: u64)
    requires
        valid_poly(poly, 64),
        r < pow2(64),
        digits < 256,
    ensures
        advanced_64(r, digits, poly) as nat == feed(r as nat, digits as nat, 8, poly, 64),
{
    let p = modulus(poly, 64);
    let t = digits << 56;
    lemma2_to64();
    lemma_pow2_64();
    lemma_pow2_adds(56, 8);
    assert(t == digits * 0x100000000000000) by (bit_vector)
        requires
            t == digits << 56,
            digits < 256,
    ;
    let d0 = r ^ t;
    lemma_u64_xor(r, t);
    lemma_add_shift(r as nat, t as nat, 8);
    lemma2_to64_rest();
    assert(t as nat * pow2(8) == digits as nat * pow2(64));
    let x = poly_add(r as nat, t as nat);
    lemma_modulus(poly, 64);
    lemma_add_bound(r as nat, t as nat, 64);
    lemma_rem_small(x, p);
    let d1 = doubled_64(d0, poly);
    let d2 = doubled_64(d1, poly);
    let d3 = doubled_64(d2, poly);
    let d4 = doubled_64(d3, poly);
    let d5 = doubled_64(d4, poly);
    let d6 = doubled_64(d5, poly);
    let d7 = doubled_64(d6, poly);
    lemma_doubled_64(d0, x, poly);
    lemma_doubled_64(d1, 2 * x, poly);
    lemma_doubled_64(d2, 4 * x, poly);
    lemma_doubled_64(d3, 8 * x, poly);
    lemma_doubled_64(d4, 16 * x, poly);
    lemma_doubled_64(d5, 32 * x, poly);
    lemma_doubled_64(d6, 64 * x, poly);
    lemma_doubled_64(d7, 128 * x, poly);
}

/// A register that every byte of a message advances as listed.
proof fn lemma_registers(
    regs: Seq<u64>,
    bytes: Seq<u8>,
    n: nat,
    reflected: bool,
    poly: u64,
    width: u8,
)
    requires
        valid_poly(poly, width),
        n <= bytes.len(),
        regs.len() == bytes.len() + 1,
        regs[0] < pow2(width as nat),
        forall|k: int|
            0 <= k < bytes.len() ==> #[trigger] regs[k + 1] == feed(
                regs[k] as nat,
                byte_poly(bytes[k], reflected),
                8,
                poly,
                width,
            ),
    ensures
        regs[n as int] as nat == feed(
            regs[0] as nat,
            message_poly(bytes.take(n as int), reflected),
            8 * n,
            poly,
            width,
        ),
    decreases n,
{
    if n == 0 {
        lemma_feed_nothing(regs[0] as nat, poly, width);
    } else {
        let m = (n - 1) as nat;
        lemma_registers(regs, bytes, m, reflected, poly, width);
        let before = bytes.take(m as int);
        assert(bytes.take(n as int).drop_last() =~= before);
        lemma_byte_poly_bound(bytes[m as int], reflected);
        lemma_feed_compose(
            regs[0] as nat,
            message_poly(before, reflected),
            8 * m,
            byte_poly(bytes[m as int], reflected),
            8,
            poly,
            width,
        );
        assert(regs[m as int + 1] == regs[n as int]);
    }
}

/// Digits in reverse order, a place at a time.
spec fn places(v: nat, n: nat) -> nat
    decreases n,
{
    if n == 0 {
        0
    } else {
        (if v % 2 == 1 {
            pow2((n - 1) as nat)
        } else {
            0
        }) + places(v / 2, (n - 1) as nat)
    }
}

proof fn lemma_places(v: nat, n: nat)
    ensures
        reversed(v, n) == places(v, n),
    decreases n,
{
    lemma_reversed_digit(v, 0);
    if n > 0 {
        let m = (n - 1) as nat;
        lemma_reversed_digit(v, m);
        lemma_places(v / 2, m);
        lemma_mul_basics(pow2(m) as int);
    }
}

/// The digits `1` to `9` with their bits in the order of a reflected CRC.
proof fn lemma_digit_bytes()
    ensures
        reversed(0x31, 8) == 0x8c,
        reversed(0x32, 8) == 0x4c,
        reversed(0x33, 8) == 0xcc,
        reversed(0x34, 8) == 0x2c,
        reversed(0x35, 8) == 0xac,
        reversed(0x36, 8) == 0x6c,
        reversed(0x37, 8) == 0xec,
        reversed(0x38, 8) == 0x1c,
        reversed(0x39, 8) == 0x9c,
{
    reveal_with_fuel(places, 9);
    lemma2_to64();
    lemma_places(0x31, 8);
    lemma_places(0x32, 8);
    lemma_places(0x33, 8);
    lemma_places(0x34, 8);
    lemma_places(0x35, 8);
    lemma_places(0x36, 8);
    lemma_places(0x37, 8);
    lemma_places(0x38, 8);
    lemma_places(0x39, 8);
}

proof fn lemma_register_iso_hdlc(bytes: Seq<u8>)
    requires
        bytes == seq![0x31u8, 0x32, 0x33, 0x34, 0x35, 0x36, 0x37, 0x38, 0x39],
    ensures
        feed(0xffff_ffff, message_poly(bytes, true), 72, 0x04c1_1db7, 32) == 0x9b63_d02c,
{
    let poly = 0x04c1_1db7u64;
    let regs = seq![
        0xffff_ffffu64,
        0x1208_c43eu64,
        0x4cdd_350du64,
        0xb439_edeeu64,
        0x3af8_3826u64,
        0xc7a3_502cu64,
        0x7934_b16fu64,
        0x0669_3ff5u64,
        0x0aa4_f8a6u64,
        0x9b63_d02cu64,
    ];
    lemma2_to64();
    lemma_pow2_64();
    lemma_digit_bytes();
    assert(advanced_32(0xffff_ffff, 0x8c, 0x04c1_1db7) == 0x1208_c43e
        && advanced_32(0x1208_c43e, 0x4c, 0x04c1_1db7) == 0x4cdd_350d
        && advanced_32(0x4cdd_350d, 0xcc, 0x04c1_1db7) == 0xb439_edee
        && advanced_32(0xb439_edee, 0x2c, 0x04c1_1db7) == 0x3af8_3826
        && advanced_32(0x3af8_3826, 0xac, 0x04c1_1db7) == 0xc7a3_502c
        && advanced_32(0xc7a3_502c, 0x6c, 0x04c1_1db7) == 0x7934_b16f
        && advanced_32(0x7934_b16f, 0xec, 0x04c1_1db7) == 0x0669_3ff5
        && advanced_32(0x0669_3ff5, 0x1c, 0x04c1_1db7) == 0x0aa4_f8a6
        && advanced_32(0x0aa4_f8a6, 0x9c, 0x04c1_1db7) == 0x9b63_d02c)
        by (bit_vector);
    lemma_advanced_32(0xffff_ffff, 0x8c, 0x04c1_1db7);
    lemma_advanced_32(0x1208_c43e, 0x4c, 0x04c1_1db7);
    lemma_advanced_32(0x4cdd_350d, 0xcc, 0x04c1_1db7);
    lemma_advanced_32(0xb439_edee, 0x2c, 0x04c1_1db7);
    lemma_advanced_32(0x3af8_3826, 0xac, 0x04c1_1db7);
    lemma_advanced_32(0xc7a3_502c, 0x6c, 0x04c1_1db7);
    lemma_advanced_32(0x7934_b16f, 0xec, 0x04c1_1db7);
    lemma_advanced_32(0x0669_3ff5, 0x1c, 0x04c1_1db7);
    lemma_advanced_32(0x0aa4_f8a6, 0x9c, 0x04c1_1db7);
    assert forall|k: int| 0 <= k < 9 implies #[trigger] regs[k + 1] == feed(
        regs[k] as nat,
        byte_poly(bytes[k], true),
        8,
        poly,
        32,
    ) by {}
    lemma_registers(regs, bytes, 9, true, poly, 32);
    assert(bytes.take(9) =~= bytes);
}

proof fn lemma_register_iscsi(bytes: Seq<u8>)
    requires
        bytes == seq![0x31u8, 0x32, 0x33, 0x34, 0x35, 0x36, 0x37, 0x38, 0x39],
    ensures
        feed(0xffff_ffff, message_poly(bytes, true), 72, 0x1edc_6f41, 32) == 0x3eb6_9f38,
{
    let poly = 0x1edc_6f41u64;
    let regs = seq![
        0xffff_ffffu64,
        0x3866_50f6u64,
        0xf9dc_5531u64,
        0xb20b_21f7u64,
        0x88d0_a390u64,
        0x533b_74e7u64,
        0x9e71_537du64,
        0xa816_bdb7u64,
        0xa6fe_1ef9u64,
        0x3eb6_9f38u64,
    ];
    lemma2_to64();
    lemma_pow2_64();
    lemma_digit_bytes();
    assert(advanced_32(0xffff_ffff, 0x8c, 0x1edc_6f41) == 0x3866_50f6
        && advanced_32(0x3866_50f6, 0x4c, 0x1edc_6f41) == 0xf9dc_5531
        && advanced_32(0xf9dc_5531, 0xcc, 0x1edc_6f41) == 0xb20b_21f7
        && advanced_32(0xb20b_21f7, 0x2c, 0x1edc_6f41) == 0x88d0_a390
        && advanced_32(0x88d0_a390, 0xac, 0x1edc_6f41) == 0x533b_74e7
        && advanced_32(0x533b_74e7, 0x6c, 0x1edc_6f41) == 0x9e71_537d
        && advanced_32(0x9e71_537d, 0xec, 0x1edc_6f41) == 0xa816_bdb7
        && advanced_32(0xa816_bdb7, 0x1c, 0x1edc_6f41) == 0xa6fe_1ef9
        && advanced_32(0xa6fe_1ef9, 0x9c, 0x1edc_6f41) == 0x3eb6_9f38)
        by (bit_vector);
    lemma_advanced_32(0xffff_ffff, 0x8c, 0x1edc_6f41);
    lemma_advanced_32(0x3866_50f6, 0x4c, 0x1edc_6f41);
    lemma_advanced_32(0xf9dc_5531, 0xcc, 0x1edc_6f41);
    lemma_advanced_32(0xb20b_21f7, 0x2c, 0x1edc_6f41);
    lemma_advanced_32(0x88d0_a390, 0xac, 0x1edc_6f41);
    lemma_advanced_32(0x533b_74e7, 0x6c, 0x1edc_6f41);
    lemma_advanced_32(0x9e71_537d, 0xec, 0x1edc_6f41);
    lemma_advanced_32(0xa816_bdb7, 0x1c, 0x1edc_6f41);
    lemma_advanced_32(0xa6fe_1ef9, 0x9c, 0x1edc_6f41);
    assert forall|k: int| 0 <= k < 9 implies #[trigger] regs[k + 1] == feed(
        regs[k] as nat,
        byte_poly(bytes[k], true),
        8,
        poly,
        32,
    ) by {}
    lemma_registers(regs, bytes, 9, true, poly, 32);
    assert(bytes.take(9) =~= bytes);
}

proof fn lemma_register_bzip2(bytes: Seq<u8>)
    requires
        bytes == seq![0x31u8, 0x32, 0x33, 0x34, 0x35, 0x36, 0x37, 0x38, 0x39],
    ensures
        feed(0xffff_ffff, message_poly(bytes, false), 72, 0x04c1_1db7, 32) == 0x0376_e6e7,
{
    let poly = 0x04c1_1db7u64;
    let regs = seq![
        0xffff_ffffu64,
        0x9efb_cf93u64,
        0x3fec_5e6au64,
        0xd952_f164u64,
        0xa695_c4aau64,
        0xbd9a_b747u64,
        0xd8f0_6c8fu64,
        0x0d8a_14c4u64,
        0x49e3_c2fbu64,
        0x0376_e6e7u64,
    ];
    lemma2_to64();
    lemma_pow2_64();
    lemma_digit_bytes();
    assert(advanced_32(0xffff_ffff, 0x31, 0x04c1_1db7) == 0x9efb_cf93
        && advanced_32(0x9efb_cf93, 0x32, 0x04c1_1db7) == 0x3fec_5e6a
        && advanced_32(0x3fec_5e6a, 0x33, 0x04c1_1db7) == 0xd952_f164
        && advanced_32(0xd952_f164, 0x34, 0x04c1_1db7) == 0xa695_c4aa
        && advanced_32(0xa695_c4aa, 0x35, 0x04c1_1db7) == 0xbd9a_b747
        && advanced_32(0xbd9a_b747, 0x36, 0x04c1_1db7) == 0xd8f0_6c8f
        && advanced_32(0xd8f0_6c8f, 0x37, 0x04c1_1db7) == 0x0d8a_14c4
        && advanced_32(0x0d8a_14c4, 0x38, 0x04c1_1db7) == 0x49e3_c2fb
        && advanced_32(0x49e3_c2fb, 0x39, 0x04c1_1db7) == 0x0376_e6e7)
        by (bit_vector);
    lemma_advanced_32(0xffff_ffff, 0x31, 0x04c1_1db7);
    lemma_advanced_32(0x9efb_cf93, 0x32, 0x04c1_1db7);
    lemma_advanced_32(0x3fec_5e6a, 0x33, 0x04c1_1db7);
    lemma_advanced_32(0xd952_f164, 0x34, 0x04c1_1db7);
    lemma_advanced_32(0xa695_c4aa, 0x35, 0x04c1_1db7);
    lemma_advanced_32(0xbd9a_b747, 0x36, 0x04c1_1db7);
    lemma_advanced_32(0xd8f0_6c8f, 0x37, 0x04c1_1db7);
    lemma_advanced_32(0x0d8a_14c4, 0x38, 0x04c1_1db7);
    lemma_advanced_32(0x49e3_c2fb, 0x39, 0x04c1_1db7);
    assert forall|k: int| 0 <= k < 9 implies #[trigger] regs[k + 1] == feed(
        regs[k] as nat,
        byte_poly(bytes[k], false),
        8,
        poly,
        32,
    ) by {}
    lemma_registers(regs, bytes, 9, false, poly, 32);
    assert(bytes.take(9) =~= bytes);
}

proof fn lemma_register_nvme(bytes: Seq<u8>)
    requires
        bytes == seq![0x31u8, 0x32, 0x33, 0x34, 0x35, 0x36, 0x37, 0x38, 0x39],
    ensures
        feed(0xffff_ffff_ffff_ffff, message_poly(bytes, true), 72, 0xad93_d235_94c9_3659, 64)
            == 0xeee6_61af_9ed7_2e8a,
{
    let poly = 0xad93_d235_94c9_3659u64;
    let regs = seq![
        0xffff_ffff_ffff_ffffu64,
        0xb482_279d_3c7a_563bu64,
        0x8d1a_3028_5fb1_8f69u64,
        0xf8eb_2c6c_2cc1_e426u64,
        0xd471_00b8_1824_506bu64,
        0xe0ac_b900_12b8_a997u64,
        0xf325_ef87_9926_656fu64,
        0x11ba_487d_1040_bf46u64,
        0xd6d6_ecbc_e6f6_f4c8u64,
        0xeee6_61af_9ed7_2e8au64,
    ];
    lemma2_to64();
    lemma_pow2_64();
    lemma_digit_bytes();
    assert(advanced_64(0xffff_ffff_ffff_ffff, 0x8c, 0xad93_d235_94c9_3659) == 0xb482_279d_3c7a_563b
        && advanced_64(0xb482_279d_3c7a_563b, 0x4c, 0xad93_d235_94c9_3659) == 0x8d1a_3028_5fb1_8f69
        && advanced_64(0x8d1a_3028_5fb1_8f69, 0xcc, 0xad93_d235_94c9_3659) == 0xf8eb_2c6c_2cc1_e426
        && advanced_64(0xf8eb_2c6c_2cc1_e426, 0x2c, 0xad93_d235_94c9_3659) == 0xd471_00b8_1824_506b
        && advanced_64(0xd471_00b8_1824_506b, 0xac, 0xad93_d235_94c9_3659) == 0xe0ac_b900_12b8_a997
        && advanced_64(0xe0ac_b900_12b8_a997, 0x6c, 0xad93_d235_94c9_3659) == 0xf325_ef87_9926_656f
        && advanced_64(0xf325_ef87_9926_656f, 0xec, 0xad93_d235_94c9_3659) == 0x11ba_487d_1040_bf46
        && advanced_64(0x11ba_487d_1040_bf46, 0x1c, 0xad93_d235_94c9_3659) == 0xd6d6_ecbc_e6f6_f4c8
        && advanced_64(0xd6d6_ecbc_e6f6_f4c8, 0x9c, 0xad93_d235_94c9_3659) == 0xeee6_61af_9ed7_2e8a)
        by (bit_vector);
    lemma_advanced_64(0xffff_ffff_ffff_ffff, 0x8c, 0xad93_d235_94c9_3659);
    lemma_advanced_64(0xb482_279d_3c7a_563b, 0x4c, 0xad93_d235_94c9_3659);
    lemma_advanced_64(0x8d1a_3028_5fb1_8f69, 0xcc, 0xad93_d235_94c9_3659);
    lemma_advanced_64(0xf8eb_2c6c_2cc1_e426, 0x2c, 0xad93_d235_94c9_3659);
    lemma_advanced_64(0xd471_00b8_1824_506b, 0xac, 0xad93_d235_94c9_3659);
    lemma_advanced_64(0xe0ac_b900_12b8_a997, 0x6c, 0xad93_d235_94c9_3659);
    lemma_advanced_64(0xf325_ef87_9926_656f, 0xec, 0xad93_d235_94c9_3659);
    lemma_advanced_64(0x11ba_487d_1040_bf46, 0x1c, 0xad93_d235_94c9_3659);
    lemma_advanced_64(0xd6d6_ecbc_e6f6_f4c8, 0x9c, 0xad93_d235_94c9_3659);
    assert forall|k: int| 0 <= k < 9 implies #[trigger] regs[k + 1] == feed(
        regs[k] as nat,
        byte_poly(bytes[k], true),
        8,
        poly,
        64,
    ) by {}
    lemma_registers(regs, bytes, 9, true, poly, 64);
    assert(bytes.take(9) =~= bytes);
}

proof fn lemma_register_xz(bytes: Seq<u8>)
    requires
        bytes == seq![0x31u8, 0x32, 0x33, 0x34, 0x35, 0x36, 0x37, 0x38, 0x39],
    ensures
        feed(0xffff_ffff_ffff_ffff, message_poly(bytes, true), 72, 0x42f0_e1eb_a9ea_3693, 64)
            == 0xa063_6704_226c_4566,
{
    let poly = 0x42f0_e1eb_a9ea_3693u64;
    let regs = seq![
        0xffff_ffff_ffff_ffffu64,
        0x48ac_56d6_5e8f_0babu64,
        0xe565_b01b_8149_47dfu64,
        0x795c_c71f_ddeb_3bf3u64,
        0xeb3c_e299_361e_8d8cu64,
        0x68c5_df5a_009d_1a45u64,
        0x8cec_3c45_9358_a9dfu64,
        0xfa43_b679_9306_f5f1u64,
        0x6fe1_ca2b_edfe_2ec5u64,
        0xa063_6704_226c_4566u64,
    ];
    lemma2_to64();
    lemma_pow2_64();
    lemma_digit_bytes();
    assert(advanced_64(0xffff_ffff_ffff_ffff, 0x8c, 0x42f0_e1eb_a9ea_3693) == 0x48ac_56d6_5e8f_0bab
        && advanced_64(0x48ac_56d6_5e8f_0bab, 0x4c, 0x42f0_e1eb_a9ea_3693) == 0xe565_b01b_8149_47df
        && advanced_64(0xe565_b01b_8149_47df, 0xcc, 0x42f0_e1eb_a9ea_3693) == 0x795c_c71f_ddeb_3bf3
        && advanced_64(0x795c_c71f_ddeb_3bf3, 0x2c, 0x42f0_e1eb_a9ea_3693) == 0xeb3c_e299_361e_8d8c
        && advanced_64(0xeb3c_e299_361e_8d8c, 0xac, 0x42f0_e1eb_a9ea_3693) == 0x68c5_df5a_009d_1a45
        && advanced_64(0x68c5_df5a_009d_1a45, 0x6c, 0x42f0_e1eb_a9ea_3693) == 0x8cec_3c45_9358_a9df
        && advanced_64(0x8cec_3c45_9358_a9df, 0xec, 0x42f0_e1eb_a9ea_3693) == 0xfa43_b679_9306_f5f1
        && advanced_64(0xfa43_b679_9306_f5f1, 0x1c, 0x42f0_e1eb_a9ea_3693) == 0x6fe1_ca2b_edfe_2ec5
        && advanced_64(0x6fe1_ca2b_edfe_2ec5, 0x9c, 0x42f0_e1eb_a9ea_3693) == 0xa063_6704_226c_4566)
        by (bit_vector);
    lemma_advanced_64(0xffff_ffff_ffff_ffff, 0x8c, 0x42f0_e1eb_a9ea_3693);
    lemma_advanced_64(0x48ac_56d6_5e8f_0bab, 0x4c, 0x42f0_e1eb_a9ea_3693);
    lemma_advanced_64(0xe565_b01b_8149_47df, 0xcc, 0x42f0_e1eb_a9ea_3693);
    lemma_advanced_64(0x795c_c71f_ddeb_3bf3, 0x2c, 0x42f0_e1eb_a9ea_3693);
    lemma_advanced_64(0xeb3c_e299_361e_8d8c, 0xac, 0x42f0_e1eb_a9ea_3693);
    lemma_advanced_64(0x68c5_df5a_009d_1a45, 0x6c, 0x42f0_e1eb_a9ea_3693);
    lemma_advanced_64(0x8cec_3c45_9358_a9df, 0xec, 0x42f0_e1eb_a9ea_3693);
    lemma_advanced_64(0xfa43_b679_9306_f5f1, 0x1c, 0x42f0_e1eb_a9ea_3693);
    lemma_advanced_64(0x6fe1_ca2b_edfe_2ec5, 0x9c, 0x42f0_e1eb_a9ea_3693);
    assert forall|k: int| 0 <= k < 9 implies #[trigger] regs[k + 1] == feed(
        regs[k] as nat,
        byte_poly(bytes[k], true),
        8,
        poly,
        64,
    ) by {}
    lemma_registers(regs, bytes, 9, true, poly, 64);
    assert(bytes.take(9) =~= bytes);
}

proof fn lemma_register_redis(bytes: Seq<u8>)
    requires
        bytes == seq![0x31u8, 0x32, 0x33, 0x34, 0x35, 0x36, 0x37, 0x38, 0x39],
    ensures
        feed(0x0000_0000_0000_0000, message_poly(bytes, true), 72, 0xad93_d235_94c9_35a9, 64)
            == 0x539b_1d23_289b_6397,
{
    let poly = 0xad93_d235_94c9_35a9u64;
    let regs = seq![
        0x0000_0000_0000_0000u64,
        0x5f9c_ef95_218e_83bfu64,
        0x69b7_195c_8a26_c087u64,
        0x358d_9e22_81df_3dabu64,
        0x0f84_a5b3_ba3c_9ac2u64,
        0xb07e_39c4_c8a1_ae0fu64,
        0xc092_d54d_a490_95c5u64,
        0xa2b5_8c24_6cb2_41e2u64,
        0x43b6_17a8_cd04_3792u64,
        0x539b_1d23_289b_6397u64,
    ];
    lemma2_to64();
    lemma_pow2_64();
    lemma_digit_bytes();
    assert(advanced_64(0x0000_0000_0000_0000, 0x8c, 0xad93_d235_94c9_35a9) == 0x5f9c_ef95_218e_83bf
        && advanced_64(0x5f9c_ef95_218e_83bf, 0x4c, 0xad93_d235_94c9_35a9) == 0x69b7_195c_8a26_c087
        && advanced_64(0x69b7_195c_8a26_c087, 0xcc, 0xad93_d235_94c9_35a9) == 0x358d_9e22_81df_3dab
        && advanced_64(0x358d_9e22_81df_3dab, 0x2c, 0xad93_d235_94c9_35a9) == 0x0f84_a5b3_ba3c_9ac2
        && advanced_64(0x0f84_a5b3_ba3c_9ac2, 0xac, 0xad93_d235_94c9_35a9) == 0xb07e_39c4_c8a1_ae0f
        && advanced_64(0xb07e_39c4_c8a1_ae0f, 0x6c, 0xad93_d235_94c9_35a9) == 0xc092_d54d_a490_95c5
        && advanced_64(0xc092_d54d_a490_95c5, 0xec, 0xad93_d235_94c9_35a9) == 0xa2b5_8c24_6cb2_41e2
        && advanced_64(0xa2b5_8c24_6cb2_41e2, 0x1c, 0xad93_d235_94c9_35a9) == 0x43b6_17a8_cd04_3792
        && advanced_64(0x43b6_17a8_cd04_3792, 0x9c, 0xad93_d235_94c9_35a9) == 0x539b_1d23_289b_6397)
        by (bit_vector);
    lemma_advanced_64(0x0000_0000_0000_0000, 0x8c, 0xad93_d235_94c9_35a9);
    lemma_advanced_64(0x5f9c_ef95_218e_83bf, 0x4c, 0xad93_d235_94c9_35a9);
    lemma_advanced_64(0x69b7_195c_8a26_c087, 0xcc, 0xad93_d235_94c9_35a9);
    lemma_advanced_64(0x358d_9e22_81df_3dab, 0x2c, 0xad93_d235_94c9_35a9);
    lemma_advanced_64(0x0f84_a5b3_ba3c_9ac2, 0xac, 0xad93_d235_94c9_35a9);
    lemma_advanced_64(0xb07e_39c4_c8a1_ae0f, 0x6c, 0xad93_d235_94c9_35a9);
    lemma_advanced_64(0xc092_d54d_a490_95c5, 0xec, 0xad93_d235_94c9_35a9);
    lemma_advanced_64(0xa2b5_8c24_6cb2_41e2, 0x1c, 0xad93_d235_94c9_35a9);
    lemma_advanced_64(0x43b6_17a8_cd04_3792, 0x9c, 0xad93_d235_94c9_35a9);
    assert forall|k: int| 0 <= k < 9 implies #[trigger] regs[k + 1] == feed(
        regs[k] as nat,
        byte_poly(bytes[k], true),
        8,
        poly,
        64,
    ) by {}
    lemma_registers(regs, bytes, 9, true, poly, 64);
    assert(bytes.take(9) =~= bytes);
}

/// Reversing a word half by half.
proof fn lemma_halves(high: nat, low: nat, turned_high: nat, turned_low: nat, n: nat)
    requires
        low < pow2(n),
        reversed(high, n) == turned_high,
        reversed(low, n) == turned_low,
    ensures
        reversed(high * pow2(n) + low, 2 * n) == turned_low * pow2(n) + turned_high,
{
    let v = high * pow2(n) + low;
    lemma_join_at(high, low, n);
    lemma_reversed_split(v, n, n);
    lemma_reversed_mod(v, n);
}

proof fn lemma_turned_iso_hdlc()
    ensures
        reversed(0x9b63_d02c, 32) == 0x340b_c6d9,
{
    reveal_with_fuel(places, 9);
    lemma2_to64();
    lemma_places(0x9b, 8);
    lemma_places(0x63, 8);
    lemma_halves(0x9b, 0x63, 0xd9, 0xc6, 8);
    lemma_places(0xd0, 8);
    lemma_places(0x2c, 8);
    lemma_halves(0xd0, 0x2c, 0x0b, 0x34, 8);
    lemma_halves(0x9b63, 0xd02c, 0xc6d9, 0x340b, 16);
}

proof fn lemma_turned_iscsi()
    ensures
        reversed(0x3eb6_9f38, 32) == 0x1cf9_6d7c,
{
    reveal_with_fuel(places, 9);
    lemma2_to64();
    lemma_places(0x3e, 8);
    lemma_places(0xb6, 8);
    lemma_halves(0x3e, 0xb6, 0x7c, 0x6d, 8);
    lemma_places(0x9f, 8);
    lemma_places(0x38, 8);
    lemma_halves(0x9f, 0x38, 0xf9, 0x1c, 8);
    lemma_halves(0x3eb6, 0x9f38, 0x6d7c, 0x1cf9, 16);
}

proof fn lemma_turned_nvme_high()
    ensures
        reversed(0xeee6_61af, 32) == 0xf586_6777,
{
    reveal_with_fuel(places, 9);
    lemma2_to64();
    lemma_places(0xee, 8);
    lemma_places(0xe6, 8);
    lemma_halves(0xee, 0xe6, 0x77, 0x67, 8);
    lemma_places(0x61, 8);
    lemma_places(0xaf, 8);
    lemma_halves(0x61, 0xaf, 0x86, 0xf5, 8);
    lemma_halves(0xeee6, 0x61af, 0x6777, 0xf586, 16);
}

proof fn lemma_turned_nvme_low()
    ensures
        reversed(0x9ed7_2e8a, 32) == 0x5174_eb79,
{
    reveal_with_fuel(places, 9);
    lemma2_to64();
    lemma_places(0x9e, 8);
    lemma_places(0xd7, 8);
    lemma_halves(0x9e, 0xd7, 0x79, 0xeb, 8);
    lemma_places(0x2e, 8);
    lemma_places(0x8a, 8);
    lemma_halves(0x2e, 0x8a, 0x74, 0x51, 8);
    lemma_halves(0x9ed7, 0x2e8a, 0xeb79, 0x5174, 16);
}

proof fn lemma_turned_nvme()
    ensures
        reversed(0xeee6_61af_9ed7_2e8a, 64) == 0x5174_eb79_f586_6777,
{
    lemma2_to64();
    lemma_turned_nvme_high();
    lemma_turned_nvme_low();
    lemma_halves(0xeee6_61af, 0x9ed7_2e8a, 0xf586_6777, 0x5174_eb79, 32);
}

proof fn lemma_turned_xz_high()
    ensures
        reversed(0xa063_6704, 32) == 0x20e6_c605,
{
    reveal_with_fuel(places, 9);
    lemma2_to64();
    lemma_places(0xa0, 8);
    lemma_places(0x63, 8);
    lemma_halves(0xa0, 0x63, 0x05, 0xc6, 8);
    lemma_places(0x67, 8);
    lemma_places(0x04, 8);
    lemma_halves(0x67, 0x04, 0xe6, 0x20, 8);
    lemma_halves(0xa063, 0x6704, 0xc605, 0x20e6, 16);
}

proof fn lemma_turned_xz_low()
    ensures
        reversed(0x226c_4566, 32) == 0x66a2_3644,
{
    reveal_with_fuel(places, 9);
    lemma2_to64();
    lemma_places(0x22, 8);
    lemma_places(0x6c, 8);
    lemma_halves(0x22, 0x6c, 0x44, 0x36, 8);
    lemma_places(0x45, 8);
    lemma_places(0x66, 8);
    lemma_halves(0x45, 0x66, 0xa2, 0x66, 8);
    lemma_halves(0x226c, 0x4566, 0x3644, 0x66a2, 16);
}

proof fn lemma_turned_xz()
    ensures
        reversed(0xa063_6704_226c_4566, 64) == 0x66a2_3644_20e6_c605,
{
    lemma2_to64();
    lemma_turned_xz_high();
    lemma_turned_xz_low();
    lemma_halves(0xa063_6704, 0x226c_4566, 0x20e6_c605, 0x66a2_3644, 32);
}

proof fn lemma_turned_redis_high()
    ensures
        reversed(0x539b_1d23, 32) == 0xc4b8_d9ca,
{
    reveal_with_fuel(places, 9);
    lemma2_to64();
    lemma_places(0x53, 8);
    lemma_places(0x9b, 8);
    lemma_halves(0x53, 0x9b, 0xca, 0xd9, 8);
    lemma_places(0x1d, 8);
    lemma_places(0x23, 8);
    lemma_halves(0x1d, 0x23, 0xb8, 0xc4, 8);
    lemma_halves(0x539b, 0x1d23, 0xd9ca, 0xc4b8, 16);
}

proof fn lemma_turned_redis_low()
    ensures
        reversed(0x289b_6397, 32) == 0xe9c6_d914,
{
    reveal_with_fuel(places, 9);
    lemma2_to64();
    lemma_places(0x28, 8);
    lemma_places(0x9b, 8);
    lemma_halves(0x28, 0x9b, 0x14, 0xd9, 8);
    lemma_places(0x63, 8);
    lemma_places(0x97, 8);
    lemma_halves(0x63, 0x97, 0xc6, 0xe9, 8);
    lemma_halves(0x289b, 0x6397, 0xd914, 0xe9c6, 16);
}

proof fn lemma_turned_redis()
    ensures
        reversed(0x539b_1d23_289b_6397, 64) == 0xe9c6_d914_c4b8_d9ca,
{
    lemma2_to64();
    lemma_turned_redis_high();
    lemma_turned_redis_low();
    lemma_halves(0x539b_1d23, 0x289b_6397, 0xc4b8_d9ca, 0xe9c6_d914, 32);
}

proof fn lemma_turned_ones_32()
    ensures
        reversed(0xffff_ffff, 32) == 0xffff_ffff,
{
    reveal_with_fuel(places, 9);
    lemma2_to64();
    lemma_places(0xff, 8);
    lemma_halves(0xff, 0xff, 0xff, 0xff, 8);
    lemma_halves(0xffff, 0xffff, 0xffff, 0xffff, 16);
}

proof fn lemma_turned_ones_64()
    ensures
        reversed(0xffff_ffff_ffff_ffff, 64) == 0xffff_ffff_ffff_ffff,
{
    lemma2_to64();
    lemma_turned_ones_32();
    lemma_halves(0xffff_ffff, 0xffff_ffff, 0xffff_ffff, 0xffff_ffff, 32);
}

proof fn lemma_turned_zero()
    ensures
        reversed(0, 64) == 0,
{
    lemma_reversed_zero(64);
}

/// The final exclusive-or.
proof fn lemma_final_words()
    by (bit_vector)
    ensures
        0x340b_c6d9u64 ^ 0xffff_ffff == 0xcbf4_3926,
        0x1cf9_6d7cu64 ^ 0xffff_ffff == 0xe306_9283,
        0x0376_e6e7u64 ^ 0xffff_ffff == 0xfc89_1918,
        0x5174_eb79_f586_6777u64 ^ 0xffff_ffff_ffff_ffff == 0xae8b_1486_0a79_9888,
        0x66a2_3644_20e6_c605u64 ^ 0xffff_ffff_ffff_ffff == 0x995d_c9bb_df19_39fa,
        0xe9c6_d914_c4b8_d9cau64 ^ 0x0000_0000_0000_0000 == 0xe9c6_d914_c4b8_d9ca,
{
}

/// The CRC of the nine bytes `123456789` under the parameters of a catalogued CRC is the check
/// value that the catalogue publishes for it, and the parameters carry that name and that value.
pub proof fn lemma_published_check_values(
    algorithm: CrcAlgorithm,
    params: CrcParams,
    digits: &[u8],
    crc: u64,
)
    requires
        call_ensures(get_calculator_params, (algorithm,), params),
        digits@ == seq![0x31u8, 0x32, 0x33, 0x34, 0x35, 0x36, 0x37, 0x38, 0x39],
        call_ensures(checksum_with_params, (params, digits), crc),
    ensures
        crc == match algorithm {
            CrcAlgorithm::Crc32IsoHdlc => 0xcbf4_3926u64,
            CrcAlgorithm::Crc32Iscsi => 0xe306_9283u64,
            CrcAlgorithm::Crc32Bzip2 => 0xfc89_1918u64,
            CrcAlgorithm::Crc64Nvme => 0xae8b_1486_0a79_9888u64,
            CrcAlgorithm::Crc64Xz => 0x995d_c9bb_df19_39fau64,
            CrcAlgorithm::Crc64Redis => 0xe9c6_d914_c4b8_d9cau64,
        },
        params.check == crc,
        params.name@ == match algorithm {
            CrcAlgorithm::Crc32IsoHdlc => "CRC-32/ISO-HDLC"@,
            CrcAlgorithm::Crc32Iscsi => "CRC-32/ISCSI"@,
            CrcAlgorithm::Crc32Bzip2 => "CRC-32/BZIP2"@,
            CrcAlgorithm::Crc64Nvme => "CRC-64/NVME"@,
            CrcAlgorithm::Crc64Xz => "CRC-64/XZ"@,
            CrcAlgorithm::Crc64Redis => "CRC-64/REDIS"@,
        },
{
    let bytes = digits@;
    lemma2_to64();
    lemma_pow2_64();
    lemma_turned_ones_32();
    lemma_turned_ones_64();
    lemma_turned_zero();
    lemma_final_words();
    assert(crc == crc_from(params.init, bytes, params));
    match algorithm {
        CrcAlgorithm::Crc32IsoHdlc => {
            lemma_register_iso_hdlc(bytes);
            lemma_turned_iso_hdlc();
            lemma_u64_xor(0x340b_c6d9, 0xffff_ffff);
        },
        CrcAlgorithm::Crc32Iscsi => {
            lemma_register_iscsi(bytes);
            lemma_turned_iscsi();
            lemma_u64_xor(0x1cf9_6d7c, 0xffff_ffff);
        },
        CrcAlgorithm::Crc32Bzip2 => {
            lemma_register_bzip2(bytes);
            lemma_u64_xor(0x0376_e6e7, 0xffff_ffff);
        },
        CrcAlgorithm::Crc64Nvme => {
            lemma_register_nvme(bytes);
            lemma_turned_nvme();
            lemma_u64_xor(0x5174_eb79_f586_6777, 0xffff_ffff_ffff_ffff);
        },
        CrcAlgorithm::Crc64Xz => {
            lemma_register_xz(bytes);
            lemma_turned_xz();
            lemma_u64_xor(0x66a2_3644_20e6_c605, 0xffff_ffff_ffff_ffff);
        },
        CrcAlgorithm::Crc64Redis => {
            lemma_register_redis(bytes);
            lemma_turned_redis();
            lemma_u64_xor(0xe9c6_d914_c4b8_d9ca, 0x0000_0000_0000_0000);
        },
    }
}

} // verus!
