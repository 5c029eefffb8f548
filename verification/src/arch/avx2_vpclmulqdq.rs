// Copyright 2025 Don MacAskill. Licensed under MIT or Apache-2.0.

//! The 256-bit tier, which folds over 4 registers of 256 bits each.
//!
//! A carry-less multiply over 256 bits multiplies within each half of the register, so a register
//! holds two vectors of the message that are folded side by side.
use vstd::arithmetic::power2::*;
use vstd::prelude::*;

use crate::arch::sse::X86SsePclmulqdqOps;
use crate::arch::vector::{
    Vector128, byte_at, le_value, lemma_bytes_of_le_value, lemma_le_value_bound,
    lemma_le_value_concat, lemma_le_value_of_bytes, lemma_message_is_reversed_value,
};
use crate::bits::{lemma_pow2_64, lemma_u128_xor};
use crate::checksum::message_poly;
use crate::enums::Reflector;
use crate::field::modulus;
use crate::fold_laws::lemma_folding_keeps_register;
use crate::folding::{
    block_coefficient, first_lanes, folded, folded_lanes, holds_register, keys_fold, lane,
    lane_coefficient, lanes, lanes_after, multiplied,
};
use crate::poly::{lemma_add_zero, lemma_join_at, poly_add};
use crate::structs::CrcState;
use crate::traits::{ArchOps, EnhancedCrcWidth, final_register, poly_of_key, positioned, shuffled};
use crate::widths::lemma_poly_of_key;

verus! {

/// The operations of the AVX2 and VPCLMULQDQ tier, in portable code.
///
/// Those on 128 bits are the ones of the 128-bit tier.
#[derive(Debug, Clone, Copy)]
pub struct X86_64Avx2VpclmulqdqOps(X86SsePclmulqdqOps);

impl Default for X86_64Avx2VpclmulqdqOps {
    fn default() -> (ops: Self)
        ensures
            ops.inner() == X86SsePclmulqdqOps,
    {
        Self::new()
    }
}

impl X86_64Avx2VpclmulqdqOps {
    /// The 128-bit tier that this one builds on.
    pub closed spec fn inner(self) -> X86SsePclmulqdqOps {
        self.0
    }

    pub fn new() -> (ops: Self)
        ensures
            ops.inner() == X86SsePclmulqdqOps,
    {
        Self(X86SsePclmulqdqOps)
    }
}

/// A 256-bit register: two vectors.
#[derive(Debug, Clone, Copy)]
pub struct Simd256 {
    pub high: Vector128,
    pub low: Vector128,
}

impl Simd256 {
    /// Four words, the most significant one first.
    pub fn new(x3: u64, x2: u64, x1: u64, x0: u64) -> (r: Simd256)
        ensures
            r.high.value() == x3 * pow2(64) + x2,
            r.low.value() == x1 * pow2(64) + x0,
    {
        Simd256 { high: Vector128::from_halves(x3, x2), low: Vector128::from_halves(x1, x0) }
    }

    /// Fold this register forward by the coefficient and XOR in the newly loaded data.
    pub fn fold_32(&self, coeff: &Simd256, new_data: &Simd256) -> (r: Simd256)
        ensures
            r.high.value() == poly_add(
                multiplied(self.high.value(), coeff.high.value()),
                new_data.high.value(),
            ),
            r.low.value() == poly_add(
                multiplied(self.low.value(), coeff.low.value()),
                new_data.low.value(),
            ),
    {
        let ops = X86SsePclmulqdqOps;
        let low = Simd256 {
            high: ops.carryless_mul_00(self.high, coeff.high),
            low: ops.carryless_mul_00(self.low, coeff.low),
        };
        let high = Simd256 {
            high: ops.carryless_mul_11(self.high, coeff.high),
            low: ops.carryless_mul_11(self.low, coeff.low),
        };
        low.xor(&high).xor(new_data)
    }

    /// Two vectors that follow each other in memory.
    pub fn load(first: Vector128, second: Vector128) -> (r: Simd256)
        ensures
            r.low == first,
            r.high == second,
    {
        Simd256 { high: second, low: first }
    }

    /// The low vector for index 0, the high one for index 1.
    pub fn to_128i_extract<const INDEX: u32>(self) -> (v: Vector128)
        requires
            INDEX < 2,
        ensures
            v == if INDEX == 0 { self.low } else { self.high },
    {
        if INDEX == 0 {
            self.low
        } else {
            self.high
        }
    }

    /// Exclusive-or.
    pub fn xor(&self, other: &Simd256) -> (r: Simd256)
        ensures
            r.high.value() == poly_add(self.high.value(), other.high.value()),
            r.low.value() == poly_add(self.low.value(), other.low.value()),
    {
        proof {
            lemma_u128_xor(self.high.0, other.high.0);
            lemma_u128_xor(self.low.0, other.low.0);
        }
        Simd256 {
            high: Vector128(self.high.0 ^ other.high.0),
            low: Vector128(self.low.0 ^ other.low.0),
        }
    }
}

/// The byte order that a 256-bit register is brought into.
#[derive(Debug, Clone, Copy)]
pub enum Reflector256 {
    NoReflector,
    ForwardReflector { smask: Simd256 },
}

/// The shuffle mask that reverses the bytes of each word in a vector.
pub open spec fn word_reversal() -> nat {
    0x0809_0a0b_0c0d_0e0f_0001_0203_0405_0607
}

/// The reflector for the bit order of a CRC.
pub fn create_reflector256(reflected: bool) -> (reflector: Reflector256)
    ensures
        reflected ==> reflector is NoReflector,
        !reflected ==> (reflector matches Reflector256::ForwardReflector { smask }
            && smask.high.value() == word_reversal() && smask.low.value() == word_reversal()),
{
    if reflected {
        Reflector256::NoReflector
    } else {
        proof {
            lemma_pow2_64();
        }
        // Load shuffle mask
        let smask = Simd256::new(
            0x08090a0b0c0d0e0f,
            0x0001020304050607,
            0x08090a0b0c0d0e0f,
            0x0001020304050607,
        );
        Reflector256::ForwardReflector { smask }
    }
}

/// The two words of a vector exchanged, byte by byte.
pub open spec fn words_exchanged(bytes: Seq<u8>) -> Seq<u8> {
    bytes.skip(8) + bytes.take(8)
}

/// Exchange the words of a vector.
fn exchange_words(v: Vector128) -> (r: Vector128)
    ensures
        r.bytes() == words_exchanged(v.bytes()),
{
    let r = Vector128::from_halves(v.low_half(), v.high_half());
    proof {
        lemma_pow2_64();
        let s = v.bytes();
        let (a, b) = (s.take(8), s.skip(8));
        lemma_le_value_of_bytes(v.value(), 16);
        assert(a + b =~= s);
        lemma_le_value_concat(a, b);
        lemma_le_value_bound(a);
        lemma_join_at(le_value(b), le_value(a), 64);
        lemma_le_value_concat(b, a);
        lemma_bytes_of_le_value(b + a);
    }
    r
}

/// Shuffle the bytes within each half by the mask, then reverse the order of the four words.
///
/// A 256-bit shuffle works within each half, so the words are reversed afterwards to complete the
/// byte reversal across the full register.
pub fn shuffle_bytes256(data: Simd256, mask: Simd256) -> (r: Simd256)
    ensures
        r.high.bytes() == words_exchanged(shuffled(data.low.bytes(), mask.low.bytes())),
        r.low.bytes() == words_exchanged(shuffled(data.high.bytes(), mask.high.bytes())),
{
    let ops = X86SsePclmulqdqOps;
    let high = ops.shuffle_bytes(data.high, mask.high);
    let low = ops.shuffle_bytes(data.low, mask.low);
    Simd256 { high: exchange_words(low), low: exchange_words(high) }
}

/// Apply the reflector to a register.
pub fn reflect_bytes256(reflector: &Reflector256, data: Simd256) -> (r: Simd256)
    ensures
        *reflector is NoReflector ==> r == data,
        (*reflector matches Reflector256::ForwardReflector { smask } ==> r.high.bytes()
            == words_exchanged(shuffled(data.low.bytes(), smask.low.bytes())) && r.low.bytes()
            == words_exchanged(shuffled(data.high.bytes(), smask.high.bytes()))),
{
    match reflector {
        Reflector256::NoReflector => data,
        Reflector256::ForwardReflector { smask } => shuffle_bytes256(data, *smask),
    }
}

/// The mask names the bytes of each word from the last to the first.
proof fn lemma_word_reversal(i: nat)
    requires
        i < 16,
    ensures
        byte_at(word_reversal(), i) == if i < 8 { 7 - i } else { 23 - i },
{
    let m = 0x0809_0a0b_0c0d_0e0f_0001_0203_0405_0607u128;
    let k = i as u128;
    assert((m >> ((8 * k) as u128)) % 256 == if k < 8 { (7 - k) as u128 } else { (23 - k) as u128 })
        by (bit_vector)
        requires
            k < 16,
            m == 0x0809_0a0b_0c0d_0e0f_0001_0203_0405_0607u128,
    ;
    vstd::bits::lemma_u128_shr_is_div(m, (8 * k) as u128);
}

/// Exchanging the words of a vector whose words were reversed leaves the vector reversed.
pub proof fn lemma_full_reversal(data: Vector128, mask: Vector128, r: Vector128)
    requires
        mask.value() == word_reversal(),
        r.bytes() == words_exchanged(shuffled(data.bytes(), mask.bytes())),
    ensures
        r.bytes() == data.bytes().reverse(),
        r.value() == message_poly(data.bytes(), false),
{
    let s = data.bytes();
    assert forall|j: int| 0 <= j < 16 implies r.bytes()[j] == s.reverse()[j] by {
        let k = if j < 8 { j + 8 } else { j - 8 };
        lemma_word_reversal(k as nat);
        assert(mask.bytes()[k] == byte_at(word_reversal(), k as nat));
        assert(r.bytes()[j] == shuffled(s, mask.bytes())[k]);
    }
    assert(r.bytes() =~= s.reverse());
    lemma_message_is_reversed_value(s);
    lemma_pow2_64();
    lemma_le_value_of_bytes(r.value(), 16);
}

/// The bytes of a register, the least significant one first.
pub open spec fn register_bytes(x: Simd256) -> Seq<u8> {
    x.low.bytes() + x.high.bytes()
}

/// The shuffle for forward CRCs reverses the bytes of a register across its full width.
pub proof fn lemma_register_reversal(data: Simd256, mask: Simd256, r: Simd256)
    requires
        mask.high.value() == word_reversal(),
        mask.low.value() == word_reversal(),
        r.high.bytes() == words_exchanged(shuffled(data.low.bytes(), mask.low.bytes())),
        r.low.bytes() == words_exchanged(shuffled(data.high.bytes(), mask.high.bytes())),
    ensures
        register_bytes(r) == register_bytes(data).reverse(),
{
    lemma_full_reversal(data.low, mask.low, r.high);
    lemma_full_reversal(data.high, mask.high, r.low);
    assert(register_bytes(r) =~= register_bytes(data).reverse());
}

/// Lane `i` of eight, as four registers hold them.
///
/// Reversal exchanges the halves of a register, so forward CRCs have the older vector in the high
/// half.
pub open spec fn register_lane(x: Seq<Simd256>, i: int, reflected: bool) -> nat {
    if (i % 2 == 0) == reflected {
        x[i / 2].low.value()
    } else {
        x[i / 2].high.value()
    }
}

/// Load the register that holds vectors `2 * k` and `2 * k + 1` of a block.
fn load_lanes(reflector: &Reflector256, block: &[Vector128; 8], k: usize) -> (r: Simd256)
    requires
        k < 4,
        *reflector matches Reflector256::ForwardReflector { smask } ==> smask.high.value()
            == word_reversal() && smask.low.value() == word_reversal(),
    ensures
        ({
            let reflected = *reflector is NoReflector;
            let older = lane(block@[2 * k], reflected);
            let newer = lane(block@[2 * k + 1], reflected);
            if reflected {
                r.low.value() == older && r.high.value() == newer
            } else {
                r.high.value() == older && r.low.value() == newer
            }
        }),
{
    let data = Simd256::load(block[2 * k], block[2 * k + 1]);
    let r = reflect_bytes256(reflector, data);
    proof {
        if let Reflector256::ForwardReflector { smask } = *reflector {
            lemma_full_reversal(data.low, smask.low, r.high);
            lemma_full_reversal(data.high, smask.high, r.low);
        }
    }
    r
}

impl X86_64Avx2VpclmulqdqOps {
    /// Create a folding coefficient for 128-byte folding distances
    pub fn create_avx2_128byte_coefficient(&self, keys: &[u64; 23], reflected: bool) -> (coeff:
        Simd256)
        ensures
            coeff.high.value() == block_coefficient(keys@, reflected),
            coeff.low.value() == block_coefficient(keys@, reflected),
    {
        let (k1, k2) = if reflected {
            (keys[3], keys[4])
        } else {
            (keys[4], keys[3])
        };
        // Replicate the coefficient pair
        Simd256::new(k1, k2, k1, k2)
    }

    /// Fold from 4 x 256-bit to 1 x 128-bit
    pub fn fold_from_4x256_to_1x128(
        &self,
        x: [Simd256; 4],
        keys: &[u64; 23],
        reflected: bool,
    ) -> (v: Vector128)
        ensures
            v.value() == folded_lanes(
                Seq::new(8, |i: int| register_lane(x@, i, reflected)),
                keys@,
                7,
                reflected,
            ),
    {
        // Create the fold coefficients for different distances
        let fold_coefficients = [
            self.0.create_vector_from_u64_pair(keys[10], keys[9], reflected),  // 112 bytes
            self.0.create_vector_from_u64_pair(keys[12], keys[11], reflected),  // 96 bytes
            self.0.create_vector_from_u64_pair(keys[14], keys[13], reflected),  // 80 bytes
            self.0.create_vector_from_u64_pair(keys[16], keys[15], reflected),  // 64 bytes
            self.0.create_vector_from_u64_pair(keys[18], keys[17], reflected),  // 48 bytes
            self.0.create_vector_from_u64_pair(keys[20], keys[19], reflected),  // 32 bytes
            self.0.create_vector_from_u64_pair(keys[2], keys[1], reflected),  // 16 bytes
        ];
        assert forall|i: int| 0 <= i < 7 implies #[trigger] fold_coefficients@[i].value()
            == lane_coefficient(keys@, i, reflected) by {}

        // Extract the 8 x 128-bit vectors from the 4 x 256-bit vectors, oldest first. Reflection
        // reverses byte order within each register, so the non-reflected path takes the lanes in
        // the opposite order.
        let v128 = if reflected {
            [
                x[0].to_128i_extract::<0>(),
                x[0].to_128i_extract::<1>(),
                x[1].to_128i_extract::<0>(),
                x[1].to_128i_extract::<1>(),
                x[2].to_128i_extract::<0>(),
                x[2].to_128i_extract::<1>(),
                x[3].to_128i_extract::<0>(),
                x[3].to_128i_extract::<1>(),
            ]
        } else {
            [
                x[0].to_128i_extract::<1>(),
                x[0].to_128i_extract::<0>(),
                x[1].to_128i_extract::<1>(),
                x[1].to_128i_extract::<0>(),
                x[2].to_128i_extract::<1>(),
                x[2].to_128i_extract::<0>(),
                x[3].to_128i_extract::<1>(),
                x[3].to_128i_extract::<0>(),
            ]
        };
        let ghost l = Seq::new(8, |i: int| register_lane(x@, i, reflected));
        assert forall|i: int| 0 <= i < 8 implies #[trigger] v128@[i].value() == l[i] by {}

        // Fold the 8 xmm registers to 1 xmm register
        let mut res = v128[7];
        let mut i: usize = 0;
        while i < 7
            invariant
                i <= 7,
                l.len() == 8,
                forall|j: int| 0 <= j < 8 ==> #[trigger] v128@[j].value() == l[j],
                forall|j: int|
                    0 <= j < 7 ==> #[trigger] fold_coefficients@[j].value() == lane_coefficient(
                        keys@,
                        j,
                        reflected,
                    ),
                res.value() == folded_lanes(l, keys@, i as nat, reflected),
            decreases 7 - i,
        {
            let folded_h = self.0.carryless_mul_00(v128[i], fold_coefficients[i]);
            let folded_l = self.0.carryless_mul_11(v128[i], fold_coefficients[i]);
            res = self.0.xor3_vectors(folded_h, folded_l, res);
            proof {
                let v = v128@[i as int];
                let c = fold_coefficients@[i as int];
                assert(v.value() == l[i as int]);
                assert(c.value() == lane_coefficient(keys@, i as int, reflected));
                assert(poly_add(folded_h.value(), folded_l.value()) == multiplied(
                    v.value(),
                    c.value(),
                ));
            }
            i = i + 1;
        }
        res
    }

    /// Fold a register and the aligned blocks after it into one vector, with 4 x 256-bit registers
    pub fn fold_blocks(
        &self,
        state: &CrcState,
        first: &[Vector128; 8],
        rest: &[[Vector128; 8]],
        keys: &[u64; 23],
        reflected: bool,
    ) -> (v: Vector128)
        ensures
            v.value() == folded(state.value.value(), first@, rest@, keys@, reflected),
    {
        let state_u64s = self.0.extract_u64s(state.value);

        let positioned_state = if reflected {
            Simd256::new(0, 0, 0, state_u64s[0])
        } else {
            Simd256::new(state_u64s[1], 0, 0, 0)
        };

        let reflector = create_reflector256(reflected);

        // 4 x 256-bit registers hold the 128 bytes of `first`.
        let mut x = [
            load_lanes(&reflector, first, 0),
            load_lanes(&reflector, first, 1),
            load_lanes(&reflector, first, 2),
            load_lanes(&reflector, first, 3),
        ];
        let ghost loaded = x@;

        x[0] = positioned_state.xor(&x[0]);

        let ghost start = first_lanes(state.value.value(), first@, reflected);
        proof {
            lemma_add_zero(loaded[0].low.value());
            lemma_add_zero(loaded[0].high.value());
            assert forall|i: int| 0 <= i < 8 implies #[trigger] start[i] == register_lane(
                x@,
                i,
                reflected,
            ) by {}
            assert(rest@.take(0) =~= Seq::<[Vector128; 8]>::empty());
        }

        // Each iteration consumes one 128-byte block, so the registers fold across a 128-byte
        // distance.
        let coeff = self.create_avx2_128byte_coefficient(keys, reflected);

        let mut n: usize = 0;
        while n < rest.len()
            invariant
                n <= rest.len(),
                reflected ==> reflector is NoReflector,
                !reflected ==> (reflector matches Reflector256::ForwardReflector { smask }
                    && smask.high.value() == word_reversal() && smask.low.value()
                    == word_reversal()),
                coeff.high.value() == block_coefficient(keys@, reflected),
                coeff.low.value() == block_coefficient(keys@, reflected),
                forall|i: int|
                    0 <= i < 8 ==> #[trigger] lanes_after(
                        start,
                        rest@.take(n as int),
                        keys@,
                        reflected,
                    )[i] == register_lane(x@, i, reflected),
            decreases rest.len() - n,
        {
            let block = &rest[n];
            let ghost before = x@;
            let ghost done = rest@.take(n as int);
            let ghost next = rest@.take(n + 1);

            x[0] = x[0].fold_32(&coeff, &load_lanes(&reflector, block, 0));
            x[1] = x[1].fold_32(&coeff, &load_lanes(&reflector, block, 1));
            x[2] = x[2].fold_32(&coeff, &load_lanes(&reflector, block, 2));
            x[3] = x[3].fold_32(&coeff, &load_lanes(&reflector, block, 3));

            proof {
                assert(next.drop_last() =~= done);
                assert(next.last() == *block);
                let old_lanes = lanes_after(start, done, keys@, reflected);
                let new_lanes = lanes_after(start, next, keys@, reflected);
                let added = lanes(block@, reflected);
                assert forall|i: int| 0 <= i < 8 implies #[trigger] new_lanes[i] == register_lane(
                    x@,
                    i,
                    reflected,
                ) by {
                    assert(old_lanes[i] == register_lane(before, i, reflected));
                    assert(new_lanes[i] == poly_add(
                        multiplied(old_lanes[i], block_coefficient(keys@, reflected)),
                        added[i],
                    ));
                }
            }
            n = n + 1;
        }

        proof {
            assert(rest@.take(rest@.len() as int) =~= rest@);
            let l = lanes_after(start, rest@, keys@, reflected);
            assert(l =~= Seq::new(8, |i: int| register_lane(x@, i, reflected)));
        }
        self.fold_from_4x256_to_1x128(x, keys, reflected)
    }

    /// Process aligned blocks using VPCLMULQDQ with 4 x 256-bit registers
    pub fn process_blocks<W: EnhancedCrcWidth>(
        &self,
        state: &CrcState,
        first: &[Vector128; 8],
        rest: &[[Vector128; 8]],
        keys: &[u64; 23],
        reflected: bool,
    ) -> (value: W::Value)
        ensures
            W::word(value) == final_register(
                folded(state.value.value(), first@, rest@, keys@, reflected),
                reflected,
                keys@[8],
                W::width(),
            ),
            // the value is the one that the width's own reduction gives for the folded vector
            exists|v: Vector128| #[trigger]
                v.value() == folded(state.value.value(), first@, rest@, keys@, reflected)
                    && call_ensures(W::perform_final_reduction, (v, reflected, keys), value),
    {
        let folded = self.fold_blocks(state, first, rest, keys, reflected);
        W::perform_final_reduction(folded, reflected, keys)
    }
}

// Everything on 128 bits is delegated to the inner tier.
impl ArchOps for X86_64Avx2VpclmulqdqOps {
    fn process_enhanced_simd_blocks<W: EnhancedCrcWidth>(
        &self,
        state: &mut CrcState,
        first: &[Vector128; 8],
        rest: &[[Vector128; 8]],
        reflector: &Reflector,
        keys: &[u64; 23],
    ) -> (handled: bool)
        ensures
            handled,
            final(state).reflected == old(state).reflected,
            final(state).value.value() == positioned(
                final_register(
                    folded(
                        old(state).value.value(),
                        first@,
                        rest@,
                        keys@,
                        old(state).reflected,
                    ),
                    old(state).reflected,
                    keys@[8],
                    W::width(),
                ),
                old(state).reflected,
                W::width(),
            ),
    {
        let reflected = state.reflected;
        proof {
            W::width_fits();
            let poly = poly_of_key(keys@[8], reflected, W::width()) as u64;
            lemma_poly_of_key(keys@[8], reflected, W::width());
            if holds_register(*state, W::width()) && keys_fold(
                keys@,
                reflected,
                modulus(poly, W::width()),
            ) {
                lemma_folding_keeps_register(*state, first@, rest@, keys@, poly, W::width());
            }
        }
        // Update the state with the result
        let value = self.process_blocks::<W>(state, first, rest, keys, reflected);
        *state = W::create_state(value, reflected);

        // Return true to indicate we handled it
        true
    }

    fn create_vector_from_u64_pair(&self, high: u64, low: u64, reflected: bool) -> (v: Vector128) {
        self.0.create_vector_from_u64_pair(high, low, reflected)
    }

    fn create_vector_from_u64_pair_non_reflected(&self, high: u64, low: u64) -> (v: Vector128) {
        self.0.create_vector_from_u64_pair_non_reflected(high, low)
    }

    fn create_vector_from_u64(&self, value: u64, high: bool) -> (v: Vector128) {
        self.0.create_vector_from_u64(value, high)
    }

    fn extract_u64s(&self, vector: Vector128) -> (words: [u64; 2]) {
        self.0.extract_u64s(vector)
    }

    fn extract_poly64s(&self, vector: Vector128) -> (words: [u64; 2]) {
        self.0.extract_poly64s(vector)
    }

    fn xor_vectors(&self, a: Vector128, b: Vector128) -> (v: Vector128) {
        self.0.xor_vectors(a, b)
    }

    fn load_bytes(&self, bytes: &[u8; 16]) -> (v: Vector128) {
        self.0.load_bytes(bytes)
    }

    fn load_aligned(&self, words: &[u64; 2]) -> (v: Vector128) {
        self.0.load_aligned(words)
    }

    fn shuffle_bytes(&self, data: Vector128, mask: Vector128) -> (v: Vector128) {
        self.0.shuffle_bytes(data, mask)
    }

    fn blend_vectors(&self, a: Vector128, b: Vector128, mask: Vector128) -> (v: Vector128) {
        self.0.blend_vectors(a, b, mask)
    }

    fn shift_left_8(&self, vector: Vector128) -> (v: Vector128) {
        self.0.shift_left_8(vector)
    }

    fn set_all_bytes(&self, value: u8) -> (v: Vector128) {
        self.0.set_all_bytes(value)
    }

    fn create_compare_mask(&self, vector: Vector128) -> (v: Vector128) {
        self.0.create_compare_mask(vector)
    }

    fn and_vectors(&self, a: Vector128, b: Vector128) -> (v: Vector128) {
        self.0.and_vectors(a, b)
    }

    fn shift_right_32(&self, vector: Vector128) -> (v: Vector128) {
        self.0.shift_right_32(vector)
    }

    fn shift_left_32(&self, vector: Vector128) -> (v: Vector128) {
        self.0.shift_left_32(vector)
    }

    fn create_vector_from_u32(&self, value: u32, high: bool) -> (v: Vector128) {
        self.0.create_vector_from_u32(value, high)
    }

    fn shift_left_4(&self, vector: Vector128) -> (v: Vector128) {
        self.0.shift_left_4(vector)
    }

    fn shift_right_4(&self, vector: Vector128) -> (v: Vector128) {
        self.0.shift_right_4(vector)
    }

    fn shift_right_8(&self, vector: Vector128) -> (v: Vector128) {
        self.0.shift_right_8(vector)
    }

    fn shift_right_5(&self, vector: Vector128) -> (v: Vector128) {
        self.0.shift_right_5(vector)
    }

    fn shift_right_6(&self, vector: Vector128) -> (v: Vector128) {
        self.0.shift_right_6(vector)
    }

    fn shift_right_7(&self, vector: Vector128) -> (v: Vector128) {
        self.0.shift_right_7(vector)
    }

    fn shift_right_12(&self, vector: Vector128) -> (v: Vector128) {
        self.0.shift_right_12(vector)
    }

    fn shift_left_12(&self, vector: Vector128) -> (v: Vector128) {
        self.0.shift_left_12(vector)
    }

    fn carryless_mul_00(&self, a: Vector128, b: Vector128) -> (v: Vector128) {
        self.0.carryless_mul_00(a, b)
    }

    fn carryless_mul_01(&self, a: Vector128, b: Vector128) -> (v: Vector128) {
        self.0.carryless_mul_01(a, b)
    }

    fn carryless_mul_10(&self, a: Vector128, b: Vector128) -> (v: Vector128) {
        self.0.carryless_mul_10(a, b)
    }

    fn carryless_mul_11(&self, a: Vector128, b: Vector128) -> (v: Vector128) {
        self.0.carryless_mul_11(a, b)
    }

    fn xor3_vectors(&self, a: Vector128, b: Vector128, c: Vector128) -> (v: Vector128) {
        self.0.xor3_vectors(a, b, c)
    }
}

} // verus!
