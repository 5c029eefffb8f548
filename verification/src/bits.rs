//! Machine words as polynomials, and the reversal of bits.
use vstd::arithmetic::div_mod::*;
use vstd::arithmetic::power2::*;
use vstd::bits::*;
use vstd::prelude::*;

use crate::poly::{
    lemma_add_disjoint, lemma_add_halves, lemma_add_split, lemma_add_zero, lemma_join_at,
    lemma_mul_add_right, lemma_mul_halves, lemma_mul_one, lemma_mul_pow2, lemma_mul_zero,
    lemma_pow2_0, poly_add, poly_mul,
};

verus! {

/// The low `n` binary digits of `v`, in reverse order.
#[verifier::opaque]
pub open spec fn reversed(v: nat, n: nat) -> nat
    decreases n,
{
    if n == 0 {
        0
    } else {
        (v % 2) * pow2((n - 1) as nat) + reversed(v / 2, (n - 1) as nat)
    }
}

/// Reversal, one digit at a time.
pub proof fn lemma_reversed_digit(v: nat, n: nat)
    ensures
        reversed(v, 0) == 0,
        reversed(v, n + 1) == (v % 2) * pow2(n) + reversed(v / 2, n),
{
    reveal(reversed);
}

pub proof fn lemma_reversed_bound(v: nat, n: nat)
    ensures
        reversed(v, n) < pow2(n),
    decreases n,
{
    lemma_reversed_digit(v, 0);
    lemma2_to64();
    if n > 0 {
        lemma_reversed_digit(v, (n - 1) as nat);
        lemma_reversed_bound(v / 2, (n - 1) as nat);
        lemma_pow2_unfold(n);
        let h = pow2((n - 1) as nat);
        assert((v % 2) * h <= h) by (nonlinear_arith)
            requires
                v % 2 <= 1,
        ;
    }
}

pub proof fn lemma_reversed_zero(n: nat)
    ensures
        reversed(0, n) == 0,
    decreases n,
{
    lemma_reversed_digit(0, 0);
    if n > 0 {
        lemma_reversed_digit(0, (n - 1) as nat);
        lemma_reversed_zero((n - 1) as nat);
    }
}

/// Dividing by `2^m` and then by two.
proof fn lemma_half_shift(v: nat, m: nat)
    ensures
        (v / 2) / pow2(m) == v / pow2(m + 1),
        v / pow2(m) / 2 == v / pow2(m + 1),
{
    lemma_pow2_unfold(m + 1);
    lemma_pow2_pos(m);
    lemma_div_denominator(v as int, 2, pow2(m) as int);
    lemma_div_denominator(v as int, pow2(m) as int, 2);
}

/// Reversing `m + n` digits reverses the low `m` and the `n` above them, and exchanges the two.
pub proof fn lemma_reversed_split(v: nat, m: nat, n: nat)
    ensures
        reversed(v, m + n) == reversed(v, m) * pow2(n) + reversed(v / pow2(m), n),
    decreases m,
{
    lemma_pow2_0();
    lemma_reversed_digit(v, 0);
    if m == 0 {
        assert(v / 1 == v);
        assert(m + n == n);
    } else {
        let j = (m - 1) as nat;
        lemma_reversed_digit(v, j);
        lemma_reversed_digit(v, j + n);
        lemma_reversed_split(v / 2, j, n);
        lemma_half_shift(v, j);
        lemma_pow2_adds(j, n);
        let e = v % 2;
        let r = reversed(v / 2, j);
        assert((e * pow2(j) + r) * pow2(n) == e * (pow2(j) * pow2(n)) + r * pow2(n))
            by (nonlinear_arith);
    }
}

/// Only the low `n` digits are read.
pub proof fn lemma_reversed_mod(v: nat, n: nat)
    ensures
        reversed(v % pow2(n), n) == reversed(v, n),
    decreases n,
{
    lemma_pow2_pos(n);
    let m = v % pow2(n);
    lemma_reversed_digit(v, 0);
    lemma_reversed_digit(m, 0);
    if n > 0 {
        let j = (n - 1) as nat;
        lemma_reversed_digit(v, j);
        lemma_reversed_digit(m, j);
        lemma_pow2_unfold(n);
        lemma_mod_breakdown(v as int, 2, pow2(j) as int);
        assert(m == 2 * ((v / 2) % pow2(j)) + v % 2);
        assert(m % 2 == v % 2 && m / 2 == (v / 2) % pow2(j));
        lemma_reversed_mod(v / 2, j);
    }
}

/// The leading digit of the `n` comes last.
pub proof fn lemma_reversed_top(e: nat, v: nat, n: nat)
    requires
        e < 2,
        v < pow2(n),
    ensures
        reversed(e * pow2(n) + v, n + 1) == 2 * reversed(v, n) + e,
{
    let u = e * pow2(n) + v;
    lemma_pow2_0();
    lemma_reversed_split(u, n, 1);
    lemma_join_at(e, v, n);
    lemma_reversed_mod(u, n);
    lemma_reversed_digit(e, 0);
    lemma_reversed_digit(e / 2, 0);
}

/// Reversing twice gives the digits back.
pub proof fn lemma_reversed_twice(v: nat, n: nat)
    requires
        v < pow2(n),
    ensures
        reversed(reversed(v, n), n) == v,
    decreases n,
{
    lemma_pow2_0();
    lemma_reversed_digit(reversed(v, n), 0);
    if n > 0 {
        let j = (n - 1) as nat;
        lemma_pow2_unfold(n);
        lemma_reversed_digit(v, j);
        lemma_reversed_bound(v / 2, j);
        lemma_reversed_top(v % 2, reversed(v / 2, j), j);
        lemma_reversed_twice(v / 2, j);
    }
}

/// Reversal is additive.
pub proof fn lemma_reversed_add(a: nat, b: nat, n: nat)
    ensures
        reversed(poly_add(a, b), n) == poly_add(reversed(a, n), reversed(b, n)),
    decreases n,
{
    let c = poly_add(a, b);
    if n == 0 {
        lemma_add_zero(0);
        lemma_reversed_digit(a, 0);
        lemma_reversed_digit(b, 0);
        lemma_reversed_digit(c, 0);
    } else {
        let j = (n - 1) as nat;
        lemma_reversed_add(a / 2, b / 2, j);
        lemma_reversed_bound(a / 2, j);
        lemma_reversed_bound(b / 2, j);
        lemma_reversed_digit(a, j);
        lemma_reversed_digit(b, j);
        lemma_reversed_digit(c, j);
        lemma_add_halves(a, b);
        assert(c / 2 == poly_add(a / 2, b / 2) && c % 2 == (a % 2 + b % 2) % 2);
        lemma_add_split(a % 2, reversed(a / 2, j), b % 2, reversed(b / 2, j), j);
        lemma_add_halves(a % 2, b % 2);
        lemma_add_zero(0);
        assert(poly_add(a % 2, b % 2) == c % 2);
    }
}

/// Digits above a short number become zeros below.
pub proof fn lemma_reversed_pad(v: nat, m: nat, n: nat)
    requires
        v < pow2(m),
    ensures
        reversed(v, m + n) == reversed(v, m) * pow2(n),
{
    lemma_reversed_split(v, m, n);
    lemma_basic_div(v as int, pow2(m) as int);
    lemma_reversed_zero(n);
}

/// The reverse of a product is the product of the reverses.
pub proof fn lemma_reversed_mul(a: nat, m: nat, b: nat, n: nat)
    requires
        a < pow2(m),
        b < pow2(n),
        n > 0,
    ensures
        reversed(poly_mul(a, b), (m + n - 1) as nat) == poly_mul(reversed(a, m), reversed(b, n)),
    decreases n,
{
    let ra = reversed(a, m);
    lemma_pow2_0();
    lemma_mul_zero(ra);
    lemma_mul_one(ra);
    if n == 1 {
        lemma_reversed_digit(b, 0);
        lemma_reversed_digit(b / 2, 0);
        lemma_mul_zero(a);
        lemma_mul_one(a);
        lemma_reversed_zero(m);
    } else {
        let h = b / 2;
        let f = b % 2;
        let j = (n - 1) as nat;
        let total = (m + n - 1) as nat;
        lemma_pow2_unfold(n);
        lemma_reversed_mul(a, m, h, j);
        lemma_mul_halves(a, b);
        let fa = if f == 1 { a } else { 0 };
        let ah = poly_mul(a, h);
        lemma_reversed_add(fa, 2 * ah, total);
        // the doubled product starts with a zero
        lemma_reversed_digit(2 * ah, (total - 1) as nat);
        assert((2 * ah) % 2 == 0 && (2 * ah) / 2 == ah);
        assert(reversed(2 * ah, total) == poly_mul(ra, reversed(h, j)));
        // the other summand is padded
        lemma_reversed_pad(a, m, j);
        lemma_reversed_zero(total);
        let fr: nat = f * pow2(j);
        lemma_reversed_bound(h, j);
        lemma_reversed_digit(b, j);
        lemma_add_disjoint(f, reversed(h, j), j);
        lemma_mul_add_right(ra, fr, reversed(h, j));
        lemma_mul_pow2(ra, j);
        if f == 1 {
            assert(fr == pow2(j));
        } else {
            assert(fr == 0);
        }
        assert(reversed(fa, total) == poly_mul(ra, fr));
    }
}

// ---- machine words ----

/// Exclusive-or acts digit by digit.
proof fn lemma_u64_xor_digit(a: u64, b: u64)
    by (bit_vector)
    ensures
        (a ^ b) / 2 == (a / 2) ^ (b / 2),
        (a ^ b) % 2 == if a % 2 == b % 2 { 0u64 } else { 1u64 },
        0u64 ^ 0u64 == 0u64,
{
}

proof fn lemma_u128_xor_digit(a: u128, b: u128)
    by (bit_vector)
    ensures
        (a ^ b) / 2 == (a / 2) ^ (b / 2),
        (a ^ b) % 2 == if a % 2 == b % 2 { 0u128 } else { 1u128 },
        0u128 ^ 0u128 == 0u128,
{
}

/// Exclusive-or of words is addition of polynomials.
pub proof fn lemma_u64_xor(a: u64, b: u64)
    ensures
        (a ^ b) as nat == poly_add(a as nat, b as nat),
    decreases a + b,
{
    lemma_u64_xor_digit(a, b);
    if a == 0 && b == 0 {
        lemma_add_zero(0);
    } else {
        lemma_u64_xor(a / 2, b / 2);
        lemma_add_halves(a as nat, b as nat);
    }
}

/// Exclusive-or of double words is addition of polynomials.
pub proof fn lemma_u128_xor(a: u128, b: u128)
    ensures
        (a ^ b) as nat == poly_add(a as nat, b as nat),
    decreases a + b,
{
    lemma_u128_xor_digit(a, b);
    if a == 0 && b == 0 {
        lemma_add_zero(0);
    } else {
        lemma_u128_xor(a / 2, b / 2);
        lemma_add_halves(a as nat, b as nat);
    }
}

pub proof fn lemma_pow2_64()
    ensures
        pow2(64) == 0x1_0000_0000_0000_0000,
        pow2(63) == 0x8000_0000_0000_0000,
        pow2(128) == pow2(64) * pow2(64),
        pow2(128) == 0x1_0000_0000_0000_0000_0000_0000_0000_0000,
{
    lemma2_to64_rest();
    lemma_pow2_adds(64, 64);
}

/// A shorter power of two is a smaller one.
pub proof fn lemma_pow2_ordered(m: nat, n: nat)
    requires
        m <= n,
    ensures
        pow2(m) <= pow2(n),
{
    if m < n {
        lemma_pow2_strictly_increases(m, n);
    }
}

/// Masking with `width` ones keeps the terms below `x^width`.
pub proof fn lemma_u64_mask(a: u64, mask: u64, width: nat)
    requires
        width <= 64,
        mask == pow2(width) - 1,
    ensures
        (a & mask) as nat == a as nat % pow2(width),
{
    lemma_pow2_64();
    if width == 64 {
        assert(a & 0xffff_ffff_ffff_ffffu64 == a) by (bit_vector);
    } else {
        lemma_u64_low_bits_mask_is_mod(a, width);
        lemma_u64_pow2_no_overflow(width);
    }
}

/// The mask of `width` ones.
pub fn width_mask(width: u8) -> (mask: u64)
    requires
        width <= 64,
    ensures
        mask == pow2(width as nat) - 1,
{
    proof {
        lemma_pow2_64();
    }
    if width == 64 {
        u64::MAX
    } else {
        proof {
            lemma_u64_pow2_no_overflow(width as nat);
            lemma_u64_shl_is_mul(1, width as u64);
        }
        (1u64 << width) - 1
    }
}

/// `u64::reverse_bits` of the standard library: the least significant bit of `x` becomes the most
/// significant bit of the result, the second least significant the second most significant, and
/// so on through all 64.
pub assume_specification[ u64::reverse_bits ](x: u64) -> (r: u64)
    ensures
        r as nat == reversed(x as nat, 64),
;

/// Reflect a `width`-bit value, converting between the reflected and normal domains.
pub fn reflect_value(value: u64, width: u8) -> (reflected: u64)
    requires
        1 <= width <= 64,
    ensures
        reflected == reversed(value as nat, width as nat),
        reflected < pow2(width as nat),
{
    proof {
        let w = width as nat;
        let k = (64 - w) as nat;
        let all = reversed(value as nat, 64);
        lemma_reversed_split(value as nat, w, k);
        lemma_reversed_bound(value as nat / pow2(w), k);
        lemma_join_at(reversed(value as nat, w), reversed(value as nat / pow2(w), k), k);
        lemma_reversed_bound(value as nat, w);
        lemma_u64_shr_is_div(all as u64, k as u64);
    }
    value.reverse_bits() >> (64 - width as u32)
}

} // verus!
