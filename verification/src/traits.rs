//! What a vector tier and a CRC width have to provide.
use vstd::arithmetic::power2::*;
use vstd::prelude::*;

use crate::arch::vector::{Vector128, le_value};
use crate::bits::reversed;
use crate::enums::Reflector;
use crate::folding::{blocks_processed, coefficient};
use crate::poly::{poly_add, poly_mul};
use crate::register::feed;
use crate::structs::CrcState;

verus! {

/// The polynomial that a vector in the given bit order stands for.
pub open spec fn lane_poly(v: nat, reflected: bool) -> nat {
    if reflected {
        reversed(v, 128)
    } else {
        v
    }
}

/// The terms of `P` below `x^width`, from the table entry that holds the polynomial.
///
/// The entry holds `P` itself for forward CRCs, and `P` with its `width + 1` bits reversed for
/// reflected ones, in either case cut to 64 bits. Where that drops the constant term of a reflected
/// 64-bit polynomial, it is a one.
pub open spec fn poly_of_key(key: u64, reflected: bool, width: u8) -> nat {
    if !reflected {
        key as nat % pow2(width as nat)
    } else if width < 64 {
        reversed(key as nat / 2, width as nat)
    } else {
        reversed(key as nat / 2 + pow2(63), 64)
    }
}

/// A register value between the reported bit order and normal form.
pub open spec fn turned_word(word: nat, reflected: bool, width: u8) -> nat {
    if reflected {
        reversed(word, width as nat)
    } else {
        word
    }
}

/// A register positioned over the first bits of a 128-bit vector.
pub open spec fn positioned(word: nat, reflected: bool, width: u8) -> nat {
    if reflected {
        word
    } else {
        word * pow2((128 - width) as nat)
    }
}

/// The register that is left of a message folded into one vector.
pub open spec fn final_register(v: nat, reflected: bool, key: u64, width: u8) -> nat {
    turned_word(
        feed(
            0,
            lane_poly(v, reflected),
            128,
            poly_of_key(key, reflected, width) as u64,
            width,
        ),
        reflected,
        width,
    )
}

/// A CRC width that blocks can be processed for.
pub trait EnhancedCrcWidth {
    /// A register value.
    type Value: Copy;

    /// The number of bits in the register.
    spec fn width() -> u8;

    /// The register value as a word.
    spec fn word(value: Self::Value) -> u64;

    /// A register has at least one bit, and fits a word.
    proof fn width_fits()
        ensures
            1 <= Self::width() <= 64,
    ;

    /// Reduce a message that was folded into one vector to its register.
    fn perform_final_reduction(state: Vector128, reflected: bool, keys: &[u64; 23]) -> (value:
        Self::Value)
        ensures
            Self::word(value) == final_register(
                state.value(),
                reflected,
                keys@[8],
                Self::width(),
            ),
    ;

    /// Position a register for the bytes that follow.
    fn create_state(value: Self::Value, reflected: bool) -> (state: CrcState)
        ensures
            state.value.value() == positioned(
                Self::word(value) as nat,
                reflected,
                Self::width(),
            ),
            state.reflected == reflected,
    ;
}

/// The 128-bit operations of a vector tier, and the processing of blocks that it may offer.
pub trait ArchOps {
    /// Process a run of 128-byte blocks, where the tier has a way of its own to do so.
    ///
    /// The result tells whether it has; if not, the state is left as it was.
    fn process_enhanced_simd_blocks<W: EnhancedCrcWidth>(
        &self,
        state: &mut CrcState,
        first: &[Vector128; 8],
        rest: &[[Vector128; 8]],
        reflector: &Reflector,
        keys: &[u64; 23],
    ) -> (handled: bool)
        ensures
            !handled ==> *final(state) == *old(state),
            handled ==> blocks_processed(
                *old(state),
                *final(state),
                first@,
                rest@,
                keys@,
                W::width(),
            ),
    ;

    /// A pair of folding constants, in the bit order of the CRC.
    fn create_vector_from_u64_pair(&self, high: u64, low: u64, reflected: bool) -> (v: Vector128)
        ensures
            v.value() == coefficient(high, low, reflected),
    ;

    /// Two words, the first one in the high half.
    fn create_vector_from_u64_pair_non_reflected(&self, high: u64, low: u64) -> (v: Vector128)
        ensures
            v.value() == high * pow2(64) + low,
    ;

    /// One word in either half, the other half zero.
    fn create_vector_from_u64(&self, value: u64, high: bool) -> (v: Vector128)
        ensures
            v.value() == if high { value * pow2(64) } else { value as int },
    ;

    /// The two words of a vector, the low one first.
    fn extract_u64s(&self, vector: Vector128) -> (words: [u64; 2])
        ensures
            words@[0] == vector.low(),
            words@[1] == vector.high(),
    ;

    /// The two words of a vector as polynomials, the low one first.
    fn extract_poly64s(&self, vector: Vector128) -> (words: [u64; 2])
        ensures
            words@[0] == vector.low(),
            words@[1] == vector.high(),
    ;

    /// Exclusive-or.
    fn xor_vectors(&self, a: Vector128, b: Vector128) -> (v: Vector128)
        ensures
            v.0 == a.0 ^ b.0,
            v.value() == poly_add(a.value(), b.value()),
    ;

    /// Sixteen bytes from memory.
    fn load_bytes(&self, bytes: &[u8; 16]) -> (v: Vector128)
        ensures
            v.bytes() == bytes@,
            v.value() == le_value(bytes@),
    ;

    /// Two words from memory, the low one first.
    fn load_aligned(&self, words: &[u64; 2]) -> (v: Vector128)
        ensures
            v.value() == words@[1] * pow2(64) + words@[0],
    ;

    /// Byte `i` of the result is the byte of `data` that the low four bits of byte `i` of `mask`
    /// name, or zero where the top bit of that byte is set.
    fn shuffle_bytes(&self, data: Vector128, mask: Vector128) -> (v: Vector128)
        ensures
            v.bytes() == shuffled(data.bytes(), mask.bytes()),
    ;

    /// Byte `i` of the result is that of `b` where the top bit of byte `i` of `mask` is set, and
    /// that of `a` elsewhere.
    fn blend_vectors(&self, a: Vector128, b: Vector128, mask: Vector128) -> (v: Vector128)
        ensures
            v.bytes() == blended(a.bytes(), b.bytes(), mask.bytes()),
    ;

    /// Shift left by 8 bytes.
    fn shift_left_8(&self, vector: Vector128) -> (v: Vector128)
        ensures
            v.0 == vector.0 << 64,
    ;

    /// The same byte sixteen times.
    fn set_all_bytes(&self, value: u8) -> (v: Vector128)
        ensures
            v.bytes() == Seq::new(16, |i: int| value),
    ;

    /// All ones in every byte whose top bit is set, zeros in the others.
    fn create_compare_mask(&self, vector: Vector128) -> (v: Vector128)
        ensures
            v.bytes() == Seq::new(
                16,
                |i: int|
                    if vector.bytes()[i] >= 128 {
                        255u8
                    } else {
                        0u8
                    },
            ),
    ;

    /// Bitwise and.
    fn and_vectors(&self, a: Vector128, b: Vector128) -> (v: Vector128)
        ensures
            v.0 == a.0 & b.0,
    ;

    /// Shift right by 32 bits.
    fn shift_right_32(&self, vector: Vector128) -> (v: Vector128)
        ensures
            v.0 == vector.0 >> 32,
    ;

    /// Shift left by 32 bits.
    fn shift_left_32(&self, vector: Vector128) -> (v: Vector128)
        ensures
            v.0 == vector.0 << 32,
    ;

    /// One 32-bit word at either end, the rest zero.
    fn create_vector_from_u32(&self, value: u32, high: bool) -> (v: Vector128)
        ensures
            v.value() == if high { value * pow2(96) } else { value as int },
    ;

    /// Shift left by 4 bytes.
    fn shift_left_4(&self, vector: Vector128) -> (v: Vector128)
        ensures
            v.0 == vector.0 << 32,
    ;

    /// Shift right by 4 bytes.
    fn shift_right_4(&self, vector: Vector128) -> (v: Vector128)
        ensures
            v.0 == vector.0 >> 32,
    ;

    /// Shift right by 8 bytes.
    fn shift_right_8(&self, vector: Vector128) -> (v: Vector128)
        ensures
            v.0 == vector.0 >> 64,
    ;

    /// Shift right by 5 bytes.
    fn shift_right_5(&self, vector: Vector128) -> (v: Vector128)
        ensures
            v.0 == vector.0 >> 40,
    ;

    /// Shift right by 6 bytes.
    fn shift_right_6(&self, vector: Vector128) -> (v: Vector128)
        ensures
            v.0 == vector.0 >> 48,
    ;

    /// Shift right by 7 bytes.
    fn shift_right_7(&self, vector: Vector128) -> (v: Vector128)
        ensures
            v.0 == vector.0 >> 56,
    ;

    /// Shift right by 12 bytes.
    fn shift_right_12(&self, vector: Vector128) -> (v: Vector128)
        ensures
            v.0 == vector.0 >> 96,
    ;

    /// Shift left by 12 bytes.
    fn shift_left_12(&self, vector: Vector128) -> (v: Vector128)
        ensures
            v.0 == vector.0 << 96,
    ;

    /// Carry-less product of the low halves.
    fn carryless_mul_00(&self, a: Vector128, b: Vector128) -> (v: Vector128)
        ensures
            v.value() == poly_mul(a.low(), b.low()),
    ;

    /// Carry-less product of the high half of `a` and the low half of `b`.
    fn carryless_mul_01(&self, a: Vector128, b: Vector128) -> (v: Vector128)
        ensures
            v.value() == poly_mul(a.high(), b.low()),
    ;

    /// Carry-less product of the low half of `a` and the high half of `b`.
    fn carryless_mul_10(&self, a: Vector128, b: Vector128) -> (v: Vector128)
        ensures
            v.value() == poly_mul(a.low(), b.high()),
    ;

    /// Carry-less product of the high halves.
    fn carryless_mul_11(&self, a: Vector128, b: Vector128) -> (v: Vector128)
        ensures
            v.value() == poly_mul(a.high(), b.high()),
    ;

    /// Exclusive-or of three vectors.
    fn xor3_vectors(&self, a: Vector128, b: Vector128, c: Vector128) -> (v: Vector128)
        ensures
            v.value() == poly_add(poly_add(a.value(), b.value()), c.value()),
    ;
}

/// The bytes of `data` that `mask` names, within sixteen.
pub open spec fn shuffled(data: Seq<u8>, mask: Seq<u8>) -> Seq<u8> {
    Seq::new(
        16,
        |i: int|
            if mask[i] >= 128 {
                0u8
            } else {
                data[mask[i] as int % 16]
            },
    )
}

/// The bytes of `a`, and those of `b` where `mask` has its top bit set.
pub open spec fn blended(a: Seq<u8>, b: Seq<u8>, mask: Seq<u8>) -> Seq<u8> {
    Seq::new(
        16,
        |i: int|
            if mask[i] >= 128 {
                b[i]
            } else {
                a[i]
            },
    )
}

} // verus!
