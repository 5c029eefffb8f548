//! The CRC widths that blocks are processed for.
use vstd::arithmetic::mul::*;
use vstd::arithmetic::power2::*;
use vstd::bits::*;
use vstd::prelude::*;

use crate::arch::vector::Vector128;
use crate::bits::{
    lemma_pow2_64, lemma_reversed_bound, lemma_reversed_mod, lemma_reversed_split, lemma_u64_mask,
    reflect_value, reversed, width_mask,
};
use crate::field::valid_poly;
use crate::register::feed_bits;
use crate::structs::CrcState;
use crate::traits::{EnhancedCrcWidth, final_register, poly_of_key, positioned};

verus! {

/// The polynomial held in a table entry fits the width.
pub proof fn lemma_poly_of_key(key: u64, reflected: bool, width: u8)
    requires
        1 <= width <= 64,
    ensures
        poly_of_key(key, reflected, width) < pow2(width as nat),
        valid_poly(poly_of_key(key, reflected, width) as u64, width),
{
    let w = width as nat;
    lemma_reversed_bound(key as nat / 2, w);
    lemma_reversed_bound(key as nat / 2 + pow2(63), 64);
}

/// The polynomial held in a table entry.
fn poly_from_key(key: u64, reflected: bool, width: u8) -> (poly: u64)
    requires
        1 <= width <= 64,
    ensures
        poly == poly_of_key(key, reflected, width),
        valid_poly(poly, width),
{
    proof {
        lemma_pow2_64();
    }
    let half = key >> 1;
    proof {
        assert(half == key / 2 && half | 0x8000_0000_0000_0000u64 == half
            + 0x8000_0000_0000_0000u64) by (bit_vector)
            requires
                half == key >> 1,
        ;
    }
    if !reflected {
        let mask = width_mask(width);
        proof {
            lemma_u64_mask(key, mask, width as nat);
        }
        key & mask
    } else if width < 64 {
        reflect_value(half, width)
    } else {
        reflect_value(half | 0x8000_0000_0000_0000, width)
    }
}

/// Reverse the bits of a vector.
fn reverse_vector(v: u128) -> (r: u128)
    ensures
        r == reversed(v as nat, 128),
{
    let vector = Vector128(v);
    let high = reflect_value(vector.low_half(), 64);
    let low = reflect_value(vector.high_half(), 64);
    proof {
        lemma_reversed_split(v as nat, 64, 64);
        lemma_reversed_mod(v as nat, 64);
    }
    Vector128::from_halves(high, low).0
}

/// The register that a folded message leaves, for any width.
pub fn reduce_folded(state: Vector128, reflected: bool, key: u64, width: u8) -> (word: u64)
    requires
        1 <= width <= 64,
    ensures
        word == final_register(state.value(), reflected, key, width),
        word < pow2(width as nat),
{
    let poly = poly_from_key(key, reflected, width);
    let digits = if reflected {
        reverse_vector(state.0)
    } else {
        state.0
    };
    proof {
        lemma_pow2_64();
    }
    let register = feed_bits(0, digits, 128, poly, width);
    if reflected {
        reflect_value(register, width)
    } else {
        register
    }
}

/// A register over the first bits of a vector, for any width.
pub fn position_register(word: u64, reflected: bool, width: u8) -> (v: Vector128)
    requires
        1 <= width <= 64,
        word < pow2(width as nat),
    ensures
        v.value() == positioned(word as nat, reflected, width),
{
    if reflected {
        Vector128::from_halves(0, word)
    } else {
        proof {
            let w = width as nat;
            let k = (64 - w) as nat;
            lemma_pow2_64();
            lemma_pow2_adds(w, k);
            lemma_pow2_adds(k, 64);
            lemma_mul_strict_inequality(word as int, pow2(w) as int, pow2(k) as int);
            lemma_u64_shl_is_mul(word, k as u64);
            lemma_mul_is_associative(word as int, pow2(k) as int, pow2(64) as int);
            assert(k + 64 == (128 - width) as nat);
        }
        Vector128::from_halves(word << (64 - width), 0)
    }
}

/// CRCs of 32 bits.
#[derive(Debug, Clone, Copy)]
pub struct Width32;

/// CRCs of 64 bits.
#[derive(Debug, Clone, Copy)]
pub struct Width64;

impl EnhancedCrcWidth for Width32 {
    type Value = u32;

    open spec fn width() -> u8 {
        32
    }

    open spec fn word(value: u32) -> u64 {
        value as u64
    }

    proof fn width_fits() {
    }

    fn perform_final_reduction(
        state: Vector128,
        reflected: bool,
        keys: &[u64; 23],
    ) -> (value: u32) {
        let word = reduce_folded(state, reflected, keys[8], 32);
        proof {
            lemma2_to64();
        }
        word as u32
    }

    fn create_state(value: u32, reflected: bool) -> (state: CrcState) {
        proof {
            lemma2_to64();
        }
        CrcState { value: position_register(value as u64, reflected, 32), reflected }
    }
}

impl EnhancedCrcWidth for Width64 {
    type Value = u64;

    open spec fn width() -> u8 {
        64
    }

    open spec fn word(value: u64) -> u64 {
        value
    }

    proof fn width_fits() {
    }

    fn perform_final_reduction(
        state: Vector128,
        reflected: bool,
        keys: &[u64; 23],
    ) -> (value: u64) {
        reduce_folded(state, reflected, keys[8], 64)
    }

    fn create_state(value: u64, reflected: bool) -> (state: CrcState) {
        proof {
            lemma_pow2_64();
        }
        CrcState { value: position_register(value, reflected, 64), reflected }
    }
}

} // verus!
