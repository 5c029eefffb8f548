//! A 128-bit vector, and the bytes it holds.
use vstd::arithmetic::div_mod::*;
use vstd::arithmetic::mul::*;
use vstd::arithmetic::power2::*;
use vstd::bits::*;
use vstd::prelude::*;

use crate::bits::{
    lemma_pow2_64, lemma_pow2_ordered, lemma_reversed_digit, lemma_reversed_mod,
    lemma_reversed_split, reversed,
};
use crate::checksum::{lemma_message_concat, message_poly};
use crate::field::{clmul64, lemma_u128_halves};
use crate::poly::{lemma_pow2_0, poly_mul};

verus! {

/// A 128-bit vector. Byte 0 is the least significant one.
#[derive(Debug, Clone, Copy, PartialEq, Eq, Structural)]
pub struct Vector128(pub u128);

/// Byte `i` of a number in little-endian order.
pub open spec fn byte_at(v: nat, i: nat) -> u8 {
    ((v / pow2(8 * i)) % 256) as u8
}

/// The low `n` bytes of a number in little-endian order.
pub open spec fn bytes_of(v: nat, n: nat) -> Seq<u8> {
    Seq::new(n, |i: int| byte_at(v, i as nat))
}

/// The number that bytes in little-endian order stand for.
pub open spec fn le_value(bytes: Seq<u8>) -> nat
    decreases bytes.len(),
{
    if bytes.len() == 0 {
        0
    } else {
        bytes[0] as nat + le_value(bytes.drop_first()) * pow2(8)
    }
}

impl Vector128 {
    /// The vector as a number, or as the polynomial of its bits.
    pub open spec fn value(self) -> nat {
        self.0 as nat
    }

    /// The low 64 bits.
    pub open spec fn low(self) -> nat {
        self.0 as nat % pow2(64)
    }

    /// The high 64 bits.
    pub open spec fn high(self) -> nat {
        self.0 as nat / pow2(64)
    }

    /// The sixteen bytes in memory order.
    pub open spec fn bytes(self) -> Seq<u8> {
        bytes_of(self.0 as nat, 16)
    }

    /// Put a vector together from its two halves.
    pub fn from_halves(high: u64, low: u64) -> (v: Vector128)
        ensures
            v.high() == high,
            v.low() == low,
            v.value() == high * pow2(64) + low,
    {
        proof {
            lemma_pow2_64();
            assert(((high as u128) << 64) | (low as u128) == high * 0x1_0000_0000_0000_0000 + low)
                by (bit_vector);
        }
        Vector128(((high as u128) << 64) | (low as u128))
    }

    /// The high half.
    pub fn high_half(self) -> (high: u64)
        ensures
            high == self.high(),
    {
        proof {
            lemma_u128_halves(self.0);
        }
        (self.0 >> 64) as u64
    }

    /// The low half.
    pub fn low_half(self) -> (low: u64)
        ensures
            low == self.low(),
    {
        proof {
            lemma_u128_halves(self.0);
        }
        self.0 as u64
    }

    /// The carry-less product of two words.
    pub fn carryless_mul(a: u64, b: u64) -> (v: Vector128)
        ensures
            v.value() == poly_mul(a as nat, b as nat),
    {
        let (high, low) = clmul64(a, b);
        Vector128::from_halves(high, low)
    }
}

// ---- bytes ----

/// Byte `i` of a vector in memory.
pub open spec fn memory_byte(v: Vector128, i: int) -> u8 {
    ((v.0 >> ((8 * i) as u128)) % 256) as u8
}

/// The bytes of a vector are its bytes in memory, the least significant one first.
pub proof fn lemma_memory_byte(v: Vector128, i: int)
    requires
        0 <= i < 16,
    ensures
        v.bytes()[i] == memory_byte(v, i),
        v.bytes().len() == 16,
{
    lemma_u128_shr_is_div(v.0, (8 * i) as u128);
}

pub proof fn lemma_le_value_bound(bytes: Seq<u8>)
    ensures
        le_value(bytes) < pow2(8 * bytes.len()),
    decreases bytes.len(),
{
    lemma2_to64();
    if bytes.len() > 0 {
        let rest = bytes.drop_first();
        lemma_le_value_bound(rest);
        lemma_pow2_adds(8 * rest.len(), 8);
        assert(8 * rest.len() + 8 == 8 * bytes.len());
    }
}

/// The digits of a number past its first byte.
proof fn lemma_byte_shift(v: nat, i: nat)
    ensures
        byte_at(v, i + 1) == byte_at(v / pow2(8), i),
        byte_at(v, 0) == v % 256,
{
    lemma2_to64();
    lemma_pow2_adds(8, 8 * i);
    assert(8 + 8 * i == 8 * (i + 1));
    lemma_pow2_pos(8 * i);
    lemma_div_denominator(v as int, pow2(8) as int, pow2(8 * i) as int);
    assert(v / 1 == v);
}

/// The value of bytes has those bytes.
pub proof fn lemma_bytes_of_le_value(bytes: Seq<u8>)
    ensures
        bytes_of(le_value(bytes), bytes.len()) =~= bytes,
    decreases bytes.len(),
{
    if bytes.len() > 0 {
        let rest = bytes.drop_first();
        let v = le_value(bytes);
        lemma2_to64();
        lemma_bytes_of_le_value(rest);
        assert(v / pow2(8) == le_value(rest) && v % pow2(8) == bytes[0]);
        assert forall|i: int| 0 <= i < bytes.len() implies byte_at(v, i as nat) == bytes[i] by {
            if i == 0 {
                lemma_byte_shift(v, 0);
            } else {
                lemma_byte_shift(v, (i - 1) as nat);
                assert(bytes_of(le_value(rest), rest.len())[i - 1] == rest[i - 1]);
            }
        }
    }
}

/// A number is the value of its bytes.
pub proof fn lemma_le_value_of_bytes(v: nat, n: nat)
    requires
        v < pow2(8 * n),
    ensures
        le_value(bytes_of(v, n)) == v,
    decreases n,
{
    lemma2_to64();
    if n > 0 {
        let m = (n - 1) as nat;
        let bytes = bytes_of(v, n);
        lemma_pow2_adds(8 * m, 8);
        assert(8 * m + 8 == 8 * n);
        assert(v / pow2(8) < pow2(8 * m)) by {
            if v / pow2(8) >= pow2(8 * m) {
                lemma_mul_inequality(
                    pow2(8 * m) as int,
                    (v / pow2(8)) as int,
                    pow2(8) as int,
                );
            }
        }
        lemma_le_value_of_bytes(v / pow2(8), m);
        assert(bytes.drop_first() =~= bytes_of(v / pow2(8), m)) by {
            assert forall|i: int| 0 <= i < m implies bytes.drop_first()[i] == bytes_of(
                v / pow2(8),
                m,
            )[i] by {
                lemma_byte_shift(v, i as nat);
            }
        }
    }
}

/// Little-endian values of a concatenation.
pub proof fn lemma_le_value_concat(a: Seq<u8>, b: Seq<u8>)
    ensures
        le_value(a + b) == le_value(a) + le_value(b) * pow2(8 * a.len()),
    decreases a.len(),
{
    lemma_pow2_0();
    if a.len() == 0 {
        assert(a + b =~= b);
        lemma_mul_basics(le_value(b) as int);
    } else {
        let rest = a.drop_first();
        assert((a + b).drop_first() =~= rest + b);
        lemma_le_value_concat(rest, b);
        lemma_pow2_adds(8 * rest.len(), 8);
        assert(8 * rest.len() + 8 == 8 * a.len());
        let (u, v, k, e) = (le_value(rest), le_value(b), pow2(8 * rest.len()), pow2(8));
        assert((u + v * k) * e == u * e + v * (k * e)) by (nonlinear_arith);
    }
}

/// Read with the first byte leading, bytes are the value of their reverse.
pub proof fn lemma_message_is_reversed_value(bytes: Seq<u8>)
    ensures
        message_poly(bytes, false) == le_value(bytes.reverse()),
    decreases bytes.len(),
{
    if bytes.len() > 0 {
        let front = bytes.drop_last();
        lemma_message_is_reversed_value(front);
        assert(bytes.reverse().drop_first() =~= front.reverse());
        assert(bytes.reverse()[0] == bytes.last());
    }
}

/// Read with the first bit leading, bytes are the bit reversal of their value.
pub proof fn lemma_message_is_reversed_bits(bytes: Seq<u8>)
    ensures
        message_poly(bytes, true) == reversed(le_value(bytes), 8 * bytes.len()),
    decreases bytes.len(),
{
    lemma_reversed_digit(0, 0);
    if bytes.len() > 0 {
        let first = bytes.take(1);
        let rest = bytes.drop_first();
        let v = le_value(bytes);
        lemma2_to64();
        lemma_message_is_reversed_bits(rest);
        assert(first + rest =~= bytes);
        lemma_message_concat(first, rest, true);
        assert(first.drop_last() =~= Seq::<u8>::empty());
        assert(message_poly(Seq::<u8>::empty(), true) == 0);
        assert(message_poly(first, true) == reversed(bytes[0] as nat, 8));
        lemma_reversed_split(v, 8, 8 * rest.len());
        lemma_reversed_mod(v, 8);
        assert(8 + 8 * rest.len() == 8 * bytes.len());
    }
}

/// Put a vector together from its bytes.
pub fn pack_bytes(bytes: &[u8; 16]) -> (v: Vector128)
    ensures
        v.value() == le_value(bytes@),
        v.bytes() == bytes@,
{
    let mut value: u128 = 0;
    let mut i: usize = 16;
    while i > 0
        invariant
            i <= 16,
            value == le_value(bytes@.skip(i as int)),
        decreases i,
    {
        i = i - 1;
        let byte = bytes[i];
        proof {
            lemma2_to64();
            let before = bytes@.skip(i + 1);
            let after = bytes@.skip(i as int);
            assert(after.drop_first() =~= before);
            lemma_le_value_bound(before);
            lemma_pow2_64();
            lemma_pow2_ordered(8 * before.len(), 120);
            lemma_pow2_adds(120, 8);
            assert(pow2(120) == 0x1_000000_00000000_00000000_00000000) by {
                assert(pow2(120) * 256 == pow2(128));
            }
            assert((value << 8) | (byte as u128) == value * 256 + byte) by (bit_vector)
                requires
                    value < 0x1_000000_00000000_00000000_00000000u128,
            ;
        }
        value = (value << 8) | (byte as u128);
    }
    proof {
        assert(bytes@.skip(0) =~= bytes@);
        lemma_bytes_of_le_value(bytes@);
    }
    Vector128(value)
}

/// The bytes of a vector.
pub fn unpack_bytes(v: Vector128) -> (bytes: [u8; 16])
    ensures
        bytes@ == v.bytes(),
        le_value(bytes@) == v.value(),
{
    let mut bytes = [0u8; 16];
    let mut i: usize = 0;
    while i < 16
        invariant
            i <= 16,
            forall|j: int| 0 <= j < i ==> #[trigger] bytes@[j] == byte_at(v.0 as nat, j as nat),
        decreases 16 - i,
    {
        let shift: u32 = 8 * (i as u32);
        let word = v.0 >> shift;
        proof {
            lemma_u128_shr_is_div(v.0, shift as u128);
            assert(word as u8 == word % 256) by (bit_vector);
        }
        bytes[i] = word as u8;
        i = i + 1;
    }
    proof {
        assert(bytes@ =~= v.bytes());
        lemma_pow2_64();
        lemma_le_value_of_bytes(v.0 as nat, 16);
    }
    bytes
}

} // verus!
