//! The 128-bit tier.
use vstd::arithmetic::power2::*;
use vstd::prelude::*;

use crate::arch::vector::{Vector128, pack_bytes, unpack_bytes};
use crate::bits::lemma_u128_xor;
use crate::enums::Reflector;
use crate::structs::CrcState;
use crate::traits::{ArchOps, EnhancedCrcWidth, blended, shuffled};

verus! {

/// The operations of the SSE and PCLMULQDQ tier, in portable code.
#[derive(Debug, Clone, Copy)]
pub struct X86SsePclmulqdqOps;

impl ArchOps for X86SsePclmulqdqOps {
    /// This tier has no way of its own to process blocks.
    fn process_enhanced_simd_blocks<W: EnhancedCrcWidth>(
        &self,
        state: &mut CrcState,
        first: &[Vector128; 8],
        rest: &[[Vector128; 8]],
        reflector: &Reflector,
        keys: &[u64; 23],
    ) -> (handled: bool)
        ensures
            !handled,
    {
        false
    }

    fn create_vector_from_u64_pair(&self, high: u64, low: u64, reflected: bool) -> (v: Vector128) {
        if reflected {
            Vector128::from_halves(low, high)
        } else {
            Vector128::from_halves(high, low)
        }
    }

    fn create_vector_from_u64_pair_non_reflected(&self, high: u64, low: u64) -> (v: Vector128) {
        Vector128::from_halves(high, low)
    }

    fn create_vector_from_u64(&self, value: u64, high: bool) -> (v: Vector128) {
        if high {
            Vector128::from_halves(value, 0)
        } else {
            Vector128::from_halves(0, value)
        }
    }

    fn extract_u64s(&self, vector: Vector128) -> (words: [u64; 2]) {
        [vector.low_half(), vector.high_half()]
    }

    fn extract_poly64s(&self, vector: Vector128) -> (words: [u64; 2]) {
        [vector.low_half(), vector.high_half()]
    }

    fn xor_vectors(&self, a: Vector128, b: Vector128) -> (v: Vector128) {
        proof {
            lemma_u128_xor(a.0, b.0);
        }
        Vector128(a.0 ^ b.0)
    }

    fn load_bytes(&self, bytes: &[u8; 16]) -> (v: Vector128) {
        pack_bytes(bytes)
    }

    fn load_aligned(&self, words: &[u64; 2]) -> (v: Vector128) {
        Vector128::from_halves(words[1], words[0])
    }

    fn shuffle_bytes(&self, data: Vector128, mask: Vector128) -> (v: Vector128) {
        let data = unpack_bytes(data);
        let mask = unpack_bytes(mask);
        let mut bytes = [0u8; 16];
        let mut i: usize = 0;
        while i < 16
            invariant
                i <= 16,
                forall|j: int| 0 <= j < i ==> #[trigger] bytes@[j] == shuffled(data@, mask@)[j],
            decreases 16 - i,
        {
            let m = mask[i];
            if m < 128 {
                bytes[i] = data[(m % 16) as usize];
            } else {
                bytes[i] = 0;
            }
            i = i + 1;
        }
        assert(bytes@ =~= shuffled(data@, mask@));
        pack_bytes(&bytes)
    }

    fn blend_vectors(&self, a: Vector128, b: Vector128, mask: Vector128) -> (v: Vector128) {
        let a = unpack_bytes(a);
        let b = unpack_bytes(b);
        let mask = unpack_bytes(mask);
        let mut bytes = [0u8; 16];
        let mut i: usize = 0;
        while i < 16
            invariant
                i <= 16,
                forall|j: int|
                    0 <= j < i ==> #[trigger] bytes@[j] == blended(a@, b@, mask@)[j],
            decreases 16 - i,
        {
            bytes[i] = if mask[i] >= 128 {
                b[i]
            } else {
                a[i]
            };
            i = i + 1;
        }
        assert(bytes@ =~= blended(a@, b@, mask@));
        pack_bytes(&bytes)
    }

    fn shift_left_8(&self, vector: Vector128) -> (v: Vector128) {
        Vector128(vector.0 << 64)
    }

    fn set_all_bytes(&self, value: u8) -> (v: Vector128) {
        let bytes = [value; 16];
        assert(bytes@ =~= Seq::new(16, |i: int| value));
        pack_bytes(&bytes)
    }

    fn create_compare_mask(&self, vector: Vector128) -> (v: Vector128) {
        let source = unpack_bytes(vector);
        let ghost expected = Seq::new(
            16,
            |i: int|
                if vector.bytes()[i] >= 128 {
                    255u8
                } else {
                    0u8
                },
        );
        let mut bytes = [0u8; 16];
        let mut i: usize = 0;
        while i < 16
            invariant
                i <= 16,
                expected.len() == 16,
                forall|j: int|
                    0 <= j < 16 ==> #[trigger] expected[j] == if source@[j] >= 128 {
                        255u8
                    } else {
                        0u8
                    },
                forall|j: int| 0 <= j < i ==> #[trigger] bytes@[j] == expected[j],
            decreases 16 - i,
        {
            bytes[i] = if source[i] >= 128 {
                255
            } else {
                0
            };
            i = i + 1;
        }
        assert(bytes@ =~= expected);
        pack_bytes(&bytes)
    }

    fn and_vectors(&self, a: Vector128, b: Vector128) -> (v: Vector128) {
        Vector128(a.0 & b.0)
    }

    fn shift_right_32(&self, vector: Vector128) -> (v: Vector128) {
        Vector128(vector.0 >> 32)
    }

    fn shift_left_32(&self, vector: Vector128) -> (v: Vector128) {
        Vector128(vector.0 << 32)
    }

    fn create_vector_from_u32(&self, value: u32, high: bool) -> (v: Vector128) {
        proof {
            lemma2_to64();
            lemma_pow2_adds(32, 64);
            assert((value as u64) << 32 == value * 0x1_0000_0000) by (bit_vector);
        }
        if high {
            Vector128::from_halves((value as u64) << 32, 0)
        } else {
            Vector128::from_halves(0, value as u64)
        }
    }

    fn shift_left_4(&self, vector: Vector128) -> (v: Vector128) {
        Vector128(vector.0 << 32)
    }

    fn shift_right_4(&self, vector: Vector128) -> (v: Vector128) {
        Vector128(vector.0 >> 32)
    }

    fn shift_right_8(&self, vector: Vector128) -> (v: Vector128) {
        Vector128(vector.0 >> 64)
    }

    fn shift_right_5(&self, vector: Vector128) -> (v: Vector128) {
        Vector128(vector.0 >> 40)
    }

    fn shift_right_6(&self, vector: Vector128) -> (v: Vector128) {
        Vector128(vector.0 >> 48)
    }

    fn shift_right_7(&self, vector: Vector128) -> (v: Vector128) {
        Vector128(vector.0 >> 56)
    }

    fn shift_right_12(&self, vector: Vector128) -> (v: Vector128) {
        Vector128(vector.0 >> 96)
    }

    fn shift_left_12(&self, vector: Vector128) -> (v: Vector128) {
        Vector128(vector.0 << 96)
    }

    fn carryless_mul_00(&self, a: Vector128, b: Vector128) -> (v: Vector128) {
        Vector128::carryless_mul(a.low_half(), b.low_half())
    }

    fn carryless_mul_01(&self, a: Vector128, b: Vector128) -> (v: Vector128) {
        Vector128::carryless_mul(a.high_half(), b.low_half())
    }

    fn carryless_mul_10(&self, a: Vector128, b: Vector128) -> (v: Vector128) {
        Vector128::carryless_mul(a.low_half(), b.high_half())
    }

    fn carryless_mul_11(&self, a: Vector128, b: Vector128) -> (v: Vector128) {
        Vector128::carryless_mul(a.high_half(), b.high_half())
    }

    fn xor3_vectors(&self, a: Vector128, b: Vector128, c: Vector128) -> (v: Vector128) {
        proof {
            lemma_u128_xor(a.0, b.0);
            lemma_u128_xor(a.0 ^ b.0, c.0);
        }
        Vector128(a.0 ^ b.0 ^ c.0)
    }
}

} // verus!
