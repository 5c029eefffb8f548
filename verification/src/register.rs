//! The CRC register and what feeding it message bits does to it.
use vstd::arithmetic::div_mod::*;
use vstd::arithmetic::mul::*;
use vstd::arithmetic::power2::*;
use vstd::bits::*;
use vstd::prelude::*;

use crate::bits::{lemma_u64_xor, width_mask};
use crate::field::{lemma_field_bound, lemma_modulus, lemma_shift_in, modulus, valid_poly};
use crate::poly::{
    lemma_add_associates, lemma_add_cancels, lemma_add_disjoint, lemma_add_shift, lemma_add_zero,
    lemma_div_rem_unique, lemma_mul_one, lemma_mul_pow2, lemma_rem_add, lemma_rem_digit,
    lemma_rem_mul, lemma_rem_small, poly_add, poly_rem, reduce_step,
};

verus! {

/// The register after `count` more message bits, the binary digits of `digits`.
///
/// The register holds the remainder of the message so far, multiplied by `x^width`, modulo `P`;
/// what it held before moves up by one degree for each bit that is fed.
pub open spec fn feed(register: nat, digits: nat, count: nat, poly: u64, width: u8) -> nat {
    poly_rem(
        poly_add(register * pow2(count), digits * pow2(width as nat)),
        modulus(poly, width),
    )
}

/// Feeding no bits changes nothing.
pub proof fn lemma_feed_nothing(register: nat, poly: u64, width: u8)
    requires
        valid_poly(poly, width),
        register < pow2(width as nat),
    ensures
        feed(register, 0, 0, poly, width) == register,
{
    lemma2_to64();
    lemma_modulus(poly, width);
    assert(register * pow2(0) == register);
    lemma_add_zero(register);
    lemma_rem_small(register, modulus(poly, width));
}

/// Feeding two runs of bits one after the other is feeding their concatenation.
pub proof fn lemma_feed_compose(
    register: nat,
    first: nat,
    count1: nat,
    second: nat,
    count2: nat,
    poly: u64,
    width: u8,
)
    requires
        valid_poly(poly, width),
        second < pow2(count2),
    ensures
        feed(feed(register, first, count1, poly, width), second, count2, poly, width) == feed(
            register,
            first * pow2(count2) + second,
            count1 + count2,
            poly,
            width,
        ),
{
    let p = modulus(poly, width);
    let w = width as nat;
    let n = pow2(count2);
    let u = register * pow2(count1);
    let v = first * pow2(w);
    let mid = poly_add(u, v);
    let tail = second * pow2(w);
    // the register is shifted with what it holds
    lemma_rem_add(poly_rem(mid, p) * n, tail, p);
    lemma_mul_pow2(poly_rem(mid, p), count2);
    lemma_mul_pow2(mid, count2);
    lemma_rem_mul(mid, n, p);
    lemma_rem_add(mid * n, tail, p);
    lemma_add_shift(u, v, count2);
    lemma_add_associates(u * n, v * n, tail);
    // the shifted register
    lemma_pow2_adds(count1, count2);
    lemma_mul_is_associative(register as int, pow2(count1) as int, n as int);
    // the concatenated digits
    assert(v * n == (first * n) * pow2(w)) by (nonlinear_arith)
        requires
            v == first * pow2(w),
    ;
    lemma_add_disjoint(first, second, count2);
    lemma_add_shift(first * n, second, w);
}

/// Feeding one bit: the register doubles modulo `P`, and a one adds `poly`.
pub proof fn lemma_feed_bit(register: nat, bit: nat, poly: u64, width: u8)
    requires
        valid_poly(poly, width),
        register < pow2(width as nat),
        bit < 2,
    ensures
        feed(register, bit, 1, poly, width) == poly_add(
            reduce_step(2 * register, modulus(poly, width)),
            if bit == 1 { poly as nat } else { 0 },
        ),
{
    let p = modulus(poly, width);
    let w = width as nat;
    let m = pow2(w);
    lemma2_to64();
    lemma_modulus(poly, width);
    lemma_rem_add(register * pow2(1), bit * m, p);
    lemma_rem_small(register, p);
    lemma_rem_digit(register, 0, p);
    lemma_rem_small(0, p);
    // x^width == 1 * P + poly
    assert(poly_rem(m, p) == poly as nat) by {
        lemma_mul_one(p);
        lemma_add_disjoint(1, poly as nat, w);
        lemma_add_cancels(m, poly as nat);
        lemma_div_rem_unique(m, p, 1, poly as nat);
    }
}

/// Feed the low `count` bits of `digits`, most significant first.
pub fn feed_bits(register: u64, digits: u128, count: u8, poly: u64, width: u8) -> (result: u64)
    requires
        valid_poly(poly, width),
        register < pow2(width as nat),
        count <= 128,
        digits < pow2(count as nat),
    ensures
        result == feed(register as nat, digits as nat, count as nat, poly, width),
        result < pow2(width as nat),
{
    let mask = width_mask(width);
    let ghost start = register as nat;
    let ghost w = width as nat;
    let mut register = register;
    let mut left: u8 = count;
    proof {
        lemma_feed_nothing(start, poly, width);
        lemma_basic_div(digits as int, pow2(count as nat) as int);
    }
    while left > 0
        invariant
            valid_poly(poly, width),
            w == width as nat,
            mask == pow2(w) - 1,
            left <= count <= 128,
            register < pow2(w),
            register == feed(
                start,
                digits as nat / pow2(left as nat),
                (count - left) as nat,
                poly,
                width,
            ),
        decreases left,
    {
        let ghost before = register;
        let ghost seen = digits as nat / pow2(left as nat);
        left = left - 1;
        let bit = ((digits >> left) & 1) as u64;
        proof {
            let s = digits >> left;
            lemma_u128_shr_is_div(digits, left as u128);
            assert(((s & 1) as u64) == s % 2) by (bit_vector);
            lemma_pow2_unfold(left as nat + 1);
            lemma_pow2_pos(left as nat);
            lemma_div_denominator(digits as int, pow2(left as nat) as int, 2);
            assert(s as nat == 2 * seen + bit);
            lemma2_to64();
            lemma_feed_compose(
                start,
                seen,
                (count - left - 1) as nat,
                bit as nat,
                1,
                poly,
                width,
            );
            lemma_feed_bit(before as nat, bit as nat, poly, width);
            lemma_field_bound(
                poly_add(before as nat * pow2(1), bit as nat * pow2(w)),
                poly,
                width,
            );
            lemma_shift_in(before, 0, poly, width, mask);
            assert((before << 1) | 0 == before << 1) by (bit_vector);
        }
        let carry = (register >> (width - 1)) & 1;
        let mut next = (register << 1) & mask;
        proof {
            lemma_u64_xor(next, 0);
            lemma_add_zero(next as nat);
        }
        if carry == 1 {
            next = next ^ poly;
        }
        if bit == 1 {
            proof {
                lemma_u64_xor(next, poly);
            }
            next = next ^ poly;
        }
        proof {
            lemma_add_zero(reduce_step(2 * before as nat, modulus(poly, width)));
        }
        register = next;
    }
    proof {
        lemma2_to64();
        assert(digits as nat / 1 == digits as nat);
    }
    register
}

} // verus!
