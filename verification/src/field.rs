//! Arithmetic modulo a CRC polynomial `P(x) = x^width + poly`.
//!
//! Field elements are words of `width` bits in normal form: bit `i` is the coefficient of `x^i`.
use vstd::arithmetic::div_mod::*;
use vstd::arithmetic::mul::*;
use vstd::arithmetic::power2::*;
use vstd::bits::*;
use vstd::prelude::*;

use crate::bits::{
    lemma_pow2_64, lemma_pow2_ordered, lemma_u128_xor, lemma_u64_mask, lemma_u64_xor, width_mask,
};
use crate::poly::{
    degree, lemma_add_associates, lemma_add_bound, lemma_add_cancels, lemma_add_commutes,
    lemma_add_disjoint, lemma_add_div_mod, lemma_add_exchange, lemma_add_leading,
    lemma_add_leading_cancels, lemma_add_shift, lemma_add_zero, lemma_degree, lemma_degree_is,
    lemma_div_rem, lemma_div_rem_unique, lemma_join_at, lemma_mul_add_left, lemma_mul_add_right,
    lemma_mul_associates, lemma_mul_bound, lemma_mul_digit_right, lemma_mul_double_left,
    lemma_mul_leading, lemma_mul_pow2, lemma_mul_shift, lemma_mul_zero, lemma_rem_add,
    lemma_rem_bound, lemma_rem_digit, lemma_rem_mul, lemma_rem_small, lemma_shift_unfolds,
    lemma_split_at, poly_add, poly_div, poly_mul, poly_rem, reduce_step,
};

verus! {

/// The polynomial `P(x) = x^width + poly`.
pub open spec fn modulus(poly: u64, width: u8) -> nat {
    pow2(width as nat) + poly as nat
}

/// `poly` holds the terms of `P` below `x^width`, and these fit a word.
pub open spec fn valid_poly(poly: u64, width: u8) -> bool {
    &&& 1 <= width <= 64
    &&& poly < pow2(width as nat)
}

/// The product of `a` and `b` in `GF(2)[x] / P(x)`.
pub open spec fn field_mul(a: nat, b: nat, poly: u64, width: u8) -> nat {
    poly_rem(poly_mul(a, b), modulus(poly, width))
}

/// The product of a word by a field element, as repeated doubling gives it.
///
/// The first doubling drops what `a` has from `x^width` up. So these terms enter the product once,
/// where `b` has a constant term, and are not reduced. A field element has none.
pub open spec fn doubling_product(a: nat, b: nat, poly: u64, width: u8) -> nat {
    let m = pow2(width as nat);
    poly_add(
        field_mul(a % m, b, poly, width),
        if b % 2 == 1 {
            (a / m) * m
        } else {
            0
        },
    )
}

/// The product of a word by a field element, as Barrett reduction gives it.
///
/// The quotient by `P` is estimated from the terms of the product from `x^width` up, and that
/// multiple of `P` is taken off; of the rest `width` bits are kept. The estimate is the quotient
/// where both operands are field elements.
pub open spec fn barrett_product(a: nat, b: nat, poly: u64, width: u8) -> nat {
    let m = pow2(width as nat);
    let p = modulus(poly, width);
    let full = poly_mul(a, b);
    let quotient = poly_mul(full / m, poly_div(pow2(2 * width as nat), p)) / m;
    poly_add(full, poly_mul(quotient, p)) % m
}

pub proof fn lemma_modulus(poly: u64, width: u8)
    requires
        valid_poly(poly, width),
    ensures
        degree(modulus(poly, width)) == width,
        pow2(width as nat) <= modulus(poly, width) < pow2(width as nat + 1),
        modulus(poly, width) > 0,
{
    lemma_pow2_unfold(width as nat + 1);
    lemma_degree_is(modulus(poly, width), width as nat);
}

/// Remainders modulo `P` fit a word.
pub proof fn lemma_field_bound(a: nat, poly: u64, width: u8)
    requires
        valid_poly(poly, width),
    ensures
        poly_rem(a, modulus(poly, width)) < pow2(width as nat),
        pow2(width as nat) <= pow2(64),
{
    lemma_modulus(poly, width);
    lemma_rem_bound(a, modulus(poly, width));
    lemma_pow2_ordered(width as nat, 64);
}

/// Masking by a single bit, spread over the word.
proof fn lemma_select(v: u64)
    ensures
        v & 0xffff_ffff_ffff_ffffu64 == v,
        v & 0u64 == 0u64,
{
    assert(v & 0xffff_ffff_ffff_ffffu64 == v && v & 0u64 == 0u64) by (bit_vector);
}

/// Shifting a digit into a word drops the bit that leaves it.
proof fn lemma_shift_word(a: u64, bit: u64)
    requires
        bit < 2,
    ensures
        ((a << 1) | bit) as int == if a >= 0x8000_0000_0000_0000u64 {
            2 * a + bit - 0x1_0000_0000_0000_0000
        } else {
            2 * a + bit
        },
        ((a << 1) | bit) as nat == (2 * a as nat + bit as nat) % pow2(64),
{
    assert(((a << 1) | bit) as int == if a >= 0x8000_0000_0000_0000u64 {
        2 * a + bit - 0x1_0000_0000_0000_0000
    } else {
        2 * a + bit
    }) by (bit_vector)
        requires
            bit < 2,
    ;
    lemma_pow2_64();
    if a >= 0x8000_0000_0000_0000u64 {
        lemma_fundamental_div_mod_converse(
            2 * a + bit,
            pow2(64) as int,
            1,
            2 * a + bit - pow2(64),
        );
    }
}

/// Shifting a digit into a remainder: the bit that leaves the word tells whether `P` divides in.
pub proof fn lemma_shift_in(a: u64, bit: u64, poly: u64, width: u8, mask: u64)
    requires
        valid_poly(poly, width),
        a < pow2(width as nat),
        bit < 2,
        mask == pow2(width as nat) - 1,
    ensures
        (a >> ((width - 1) as u8)) & 1 == if 2 * a + bit >= pow2(width as nat) {
            1u64
        } else {
            0u64
        },
        ((((a << 1) | bit) & mask) ^ (if 2 * a + bit >= pow2(width as nat) {
            poly
        } else {
            0u64
        })) as nat == reduce_step((2 * a + bit) as nat, modulus(poly, width)),
{
    let w = width as nat;
    let p = modulus(poly, width);
    let t = (2 * a + bit) as nat;
    lemma_modulus(poly, width);
    lemma_pow2_64();
    lemma_pow2_unfold(w);
    lemma_pow2_unfold(w + 1);
    let half = pow2((w - 1) as nat);
    // the carry
    let c = a >> ((width - 1) as u8);
    lemma_u64_shr_is_div(a, (width - 1) as u64);
    assert(c as nat == a as nat / half);
    if a >= half {
        lemma_fundamental_div_mod_converse(a as int, half as int, 1, a - half);
    } else {
        lemma_basic_div(a as int, half as int);
    }
    assert(c & 1 == c % 2) by (bit_vector);
    // the shifted word
    let s = (a << 1) | bit;
    lemma_shift_word(a, bit);
    lemma_u64_mask(s, mask, w);
    let m = s & mask;
    assert(m as nat == if t >= pow2(w) { (t - pow2(w)) as nat } else { t }) by {
        if w == 64 {
            lemma_small_mod(s as nat, pow2(64));
        } else {
            lemma_pow2_ordered(w, 63);
            if t >= pow2(w) {
                lemma_fundamental_div_mod_converse(t as int, pow2(w) as int, 1, t - pow2(w));
            } else {
                lemma_small_mod(t, pow2(w));
            }
        }
    }
    lemma_u64_xor(m, poly);
    lemma_u64_xor(m, 0);
    lemma_add_zero(m as nat);
    if t >= pow2(w) {
        lemma_add_leading_cancels(t, p, w);
    }
}

/// The leading `n` digits of a power of `x`, read as a polynomial.
spec fn leading_digits(n: nat) -> nat {
    if n == 0 {
        0
    } else {
        pow2((n - 1) as nat)
    }
}

/// The quotient of `x^(2 * width)` by `P` has `width + 1` bits: its leading term is always
/// `x^width`.
pub proof fn lemma_barrett_leading(poly: u64, width: u8)
    requires
        valid_poly(poly, width),
    ensures
        pow2(width as nat) <= poly_div(pow2(2 * width as nat), modulus(poly, width)) < pow2(
            width as nat + 1,
        ),
{
    let w = width as nat;
    let p = modulus(poly, width);
    let full = pow2(2 * w);
    let q = poly_div(full, p);
    let r = poly_rem(full, p);
    lemma_modulus(poly, width);
    lemma_div_rem(full, p);
    lemma_rem_bound(full, p);
    lemma_pow2_strictly_increases(w, 2 * w);
    lemma_mul_zero(p);
    lemma_add_zero(r);
    assert(q > 0);
    lemma_degree(q);
    let d = degree(q);
    lemma_mul_leading(q, d, p, w);
    lemma_pow2_ordered(w, d + w);
    lemma_add_leading(poly_mul(q, p), r, d + w);
    assert(degree(full) == 2 * w) by {
        lemma_pow2_strictly_increases(2 * w, 2 * w + 1);
        lemma_degree_is(full, 2 * w);
    }
    lemma_degree_is(full, d + w);
}

/// `floor(x^(2 * width) / P(x))` without its leading term.
///
/// Bitwise long division of `x^(2 * width)`. The quotient has `width + 1` bits and its leading
/// term is always `x^width`, so only the low `width` are kept; a reduction folds the implicit
/// term back in.
pub fn barrett_mu(poly: u64, width: u8) -> (mu: u64)
    requires
        valid_poly(poly, width),
    ensures
        mu < pow2(width as nat),
        pow2(width as nat) + mu == poly_div(pow2(2 * width as nat), modulus(poly, width)),
{
    let mask = width_mask(width);
    let mut remainder: u64 = 0;
    let mut quotient: u64 = 0;
    let top: u32 = 2 * (width as u32);
    let ghost p = modulus(poly, width);
    proof {
        lemma_pow2_64();
        lemma_modulus(poly, width);
        lemma_rem_small(0, p);
    }
    // Walk the dividend from its leading term down. Only bit `2 * width` is set.
    let mut pos: u32 = top + 1;
    while pos > 0
        invariant
            valid_poly(poly, width),
            p == modulus(poly, width),
            mask == pow2(width as nat) - 1,
            top == 2 * width,
            pos <= top + 1,
            remainder == poly_rem(leading_digits((top + 1 - pos) as nat), p),
            remainder < pow2(width as nat),
            quotient == poly_div(leading_digits((top + 1 - pos) as nat), p) % pow2(64),
        decreases pos,
    {
        let ghost before = leading_digits((top + 1 - pos) as nat);
        pos = pos - 1;
        let bit: u64 = if pos == top {
            1
        } else {
            0
        };
        let ghost after = leading_digits((top + 1 - pos) as nat);
        proof {
            lemma2_to64();
            if pos < top {
                lemma_pow2_unfold((top - pos) as nat);
            }
            assert(after == 2 * before + bit);
            lemma_modulus(poly, width);
            lemma_rem_digit(before, bit as nat, p);
            lemma_field_bound(after, poly, width);
            lemma_shift_in(remainder, bit, poly, width, mask);
            lemma_select(poly);
        }
        // The bit shifted past `width - 1` lands in position `width`, which means P divides in
        // here and the quotient takes a one.
        let carry = (remainder >> (width - 1)) & 1;
        proof {
            lemma_shift_word(quotient, carry);
        }
        remainder = (((remainder << 1) | bit) & mask) ^ (poly & 0u64.wrapping_sub(carry));
        quotient = (quotient << 1) | carry;
    }
    proof {
        let w = width as nat;
        let full = poly_div(pow2(2 * w), p);
        lemma_barrett_leading(poly, width);
        lemma_pow2_unfold(w + 1);
        lemma_u64_mask(quotient, mask, w);
        // the low bits of the truncated quotient are those of the quotient
        lemma_pow2_adds(w, (64 - w) as nat);
        lemma_pow2_pos((64 - w) as nat);
        lemma_mod_mod(full as int, pow2(w) as int, pow2((64 - w) as nat) as int);
        lemma_fundamental_div_mod_converse(full as int, pow2(w) as int, 1, full - pow2(w));
    }
    quotient & mask
}

/// Doubling a word modulo `x^width` looks only at its terms below.
proof fn lemma_doubling_masked(a: u64, mask: u64, width: u8)
    requires
        1 <= width <= 64,
        mask == pow2(width as nat) - 1,
    ensures
        (a << 1) & mask == ((a & mask) << 1) & mask,
        (a >> ((width - 1) as u8)) & 1 == ((a & mask) >> ((width - 1) as u8)) & 1,
{
    let k = (width - 1) as u64;
    lemma_pow2_64();
    if width == 64 {
        assert(a & 0xffff_ffff_ffff_ffffu64 == a) by (bit_vector);
    } else {
        let w = width as u64;
        lemma_u64_pow2_no_overflow(width as nat);
        lemma_u64_shl_is_mul(1, w);
        assert((a << 1) & mask == ((a & mask) << 1) & mask) by (bit_vector)
            requires
                w < 64,
                mask + 1 == 1u64 << w,
        ;
        assert((a >> k) & 1 == ((a & mask) >> k) & 1) by (bit_vector)
            requires
                k < 63,
                mask + 1 == 1u64 << ((k + 1) as u64),
        ;
    }
}

/// Field elements have the product of the field.
pub proof fn lemma_doubling_product(a: nat, b: nat, poly: u64, width: u8)
    requires
        a < pow2(width as nat),
    ensures
        doubling_product(a, b, poly, width) == field_mul(a, b, poly, width),
{
    let m = pow2(width as nat);
    lemma_small_mod(a, m);
    lemma_basic_div(a as int, m as int);
    lemma_add_zero(field_mul(a, b, poly, width));
}

/// One step of the sum: what `a` has above the field enters it apart from the rest.
proof fn lemma_take_term(sum: nat, above: nat, field: nat, term: nat, term_above: nat)
    requires
        sum == poly_add(field, above),
        above == 0 || term_above == 0,
    ensures
        poly_add(sum, poly_add(term, term_above)) == poly_add(
            poly_add(field, term),
            if above == 0 {
                term_above
            } else {
                above
            },
        ),
{
    lemma_add_exchange(field, above, term, term_above);
    lemma_add_zero(above);
    lemma_add_zero(term_above);
}

/// Carry-less multiply modulo `P(x)`.
///
/// Russian-peasant: `b` is consumed a bit at a time while `a` is doubled, reducing by `poly`
/// whenever doubling overflows the field.
pub fn mul_mod_poly(a: u64, b: u64, poly: u64, width: u8) -> (product: u64)
    requires
        valid_poly(poly, width),
        b < pow2(width as nat),
    ensures
        product == doubling_product(a as nat, b as nat, poly, width),
        a < pow2(width as nat) ==> product == field_mul(a as nat, b as nat, poly, width)
            && product < pow2(width as nat),
{
    let ghost p = modulus(poly, width);
    let ghost w = width as nat;
    let ghost m = pow2(w);
    let ghost (a0, b0) = (a as nat % m, b as nat);
    // the terms of `a` from `x^width` up, and where they stand in the product
    let ghost a_above = (a as nat / m) * m;
    let ghost above: nat = if b % 2 == 1 { a_above } else { 0 };
    proof {
        lemma_modulus(poly, width);
        lemma_u64_pow2_no_overflow((width - 1) as nat);
        lemma_split_at(a as nat, w);
        lemma_add_disjoint(a as nat / m, a0, w);
        lemma_add_zero(poly_mul(a0, b0));
        lemma_add_zero(0);
        if a < m {
            lemma_doubling_product(a as nat, b0, poly, width);
            lemma_field_bound(poly_mul(a as nat, b0), poly, width);
        }
    }
    let msb: u64 = 1u64 << (width - 1);
    let mask = width_mask(width);
    let mut a = a;
    let mut b = b;
    let mut product: u64 = 0;
    let mut n: u8 = 0;
    // the product within the field, of the terms of `a` below `x^width`
    let ghost mut field: nat = 0;
    let ghost mut low_a: nat = a0;
    // Branch-free: both conditions depend on data a predictor cannot learn, inside a dependency
    // chain.
    while n < width
        invariant
            valid_poly(poly, width),
            p == modulus(poly, width),
            w == width as nat,
            m == pow2(w),
            mask == m - 1,
            msb == 1u64 << ((width - 1) as u8),
            n <= width,
            low_a < m,
            a as nat == poly_add(low_a, if n == 0 { a_above } else { 0 }),
            a as nat % m == low_a,
            n == 0 ==> b == b0,
            above == if b0 % 2 == 1 { a_above } else { 0 },
            b < pow2((width - n) as nat),
            field < m,
            product as nat == poly_add(field, if n == 0 { 0 } else { above }),
            poly_rem(poly_add(field, poly_mul(low_a, b as nat)), p) == poly_rem(
                poly_mul(a0, b0),
                p,
            ),
        decreases width - n,
    {
        let ghost (a1, product1) = (a, product);
        let ghost (low_a1, field1) = (low_a, field);
        let low = b & 1;
        proof {
            assert(low == b % 2 && b >> 1 == b / 2) by (bit_vector)
                requires
                    low == b & 1,
            ;
            lemma_select(a);
        }
        product = product ^ (a & 0u64.wrapping_sub(low));
        b = b >> 1;
        proof {
            let k = (width - 1) as u64;
            assert((a & (1u64 << k)) >> k == (a >> k) & 1) by (bit_vector);
            lemma_doubling_masked(a, mask, width);
            lemma_u64_mask(a, mask, w);
            let word = a & mask;
            lemma_shift_in(word, 0, poly, width, mask);
            lemma_select(poly);
            assert((word << 1) | 0 == word << 1) by (bit_vector);
        }
        let overflow = 0u64.wrapping_sub((a & msb) >> (width - 1));
        a = ((a << 1) & mask) ^ (poly & overflow);
        n = n + 1;
        proof {
            lemma_modulus(poly, width);
            // the doubled operand is the remainder of `x * a`
            lemma_rem_small(low_a1, p);
            lemma_rem_digit(low_a1, 0, p);
            lemma_field_bound(2 * low_a1, poly, width);
            low_a = poly_rem(2 * low_a1, p);
            assert(a == low_a);
            lemma_small_mod(low_a, m);
            lemma_add_zero(low_a);
            // `product` took over the constant term of `b`
            let term: nat = if low == 1 { low_a1 } else { 0 };
            let term_above: nat = if n == 1 { above } else { 0 };
            let term_word: u64 = if low == 1 { a1 } else { 0 };
            lemma_u64_xor(product1, term_word);
            lemma_add_zero(term);
            lemma_take_term(
                product1 as nat,
                if n == 1 { 0 } else { above },
                field1,
                term,
                term_above,
            );
            field = poly_add(field1, term);
            lemma_add_bound(field1, term, w);
            lemma_mul_digit_right(low_a1, b as nat, low as nat);
            lemma_mul_double_left(low_a1, b as nat);
            let rest = poly_mul(2 * low_a1, b as nat);
            lemma_add_associates(field1, term, rest);
            lemma_rem_mul(2 * low_a1, b as nat, p);
            lemma_rem_add(field, rest, p);
            lemma_rem_add(field, poly_mul(low_a, b as nat), p);
            lemma_pow2_unfold((width - n + 1) as nat);
        }
    }
    proof {
        lemma2_to64();
        lemma_mul_zero(low_a);
        lemma_add_zero(field);
        lemma_rem_small(field, p);
    }
    product
}

/// The two halves of a double word.
pub proof fn lemma_u128_halves(v: u128)
    ensures
        (v as u64) as nat == v as nat % pow2(64),
        ((v >> 64) as u64) as nat == v as nat / pow2(64),
        v as nat == ((v >> 64) as u64) as nat * pow2(64) + (v as u64) as nat,
{
    lemma_pow2_64();
    assert((v as u64) == v % 0x1_0000_0000_0000_0000 && ((v >> 64) as u64) == v
        / 0x1_0000_0000_0000_0000) by (bit_vector);
}

/// Carry-less multiply of two 64-bit polynomials, returning the 128-bit product as
/// `(high, low)`.
pub fn clmul64(a: u64, b: u64) -> (product: (u64, u64))
    ensures
        product.0 * pow2(64) + product.1 == poly_mul(a as nat, b as nat),
        product.0 < pow2(63),
{
    let mut product: u128 = 0;
    let mut shifted: u128 = a as u128;
    let mut rest: u64 = b;
    let mut i: u8 = 0;
    proof {
        lemma2_to64();
        lemma_add_zero(poly_mul(a as nat, b as nat));
    }
    while i < 64
        invariant
            i <= 64,
            shifted == a * pow2(i as nat),
            rest < pow2((64 - i) as nat),
            poly_add(product as nat, poly_mul(shifted as nat, rest as nat)) == poly_mul(
                a as nat,
                b as nat,
            ),
        decreases 64 - i,
    {
        let ghost (product1, shifted1, rest1) = (product, shifted, rest);
        let low = rest & 1;
        if low == 1 {
            product = product ^ shifted;
        }
        rest = rest >> 1;
        proof {
            assert(low == rest1 % 2 && rest == rest1 / 2) by (bit_vector)
                requires
                    low == rest1 & 1,
                    rest == rest1 >> 1,
            ;
            lemma_pow2_64();
            lemma_pow2_ordered(i as nat, 63);
            lemma_mul_inequality(pow2(i as nat) as int, pow2(63) as int, a as int);
            lemma_mul_is_commutative(a as int, pow2(i as nat) as int);
            assert(shifted < 0x8000_0000_0000_0000_0000_0000_0000_0000u128);
            assert(shifted << 1 == 2 * shifted) by (bit_vector)
                requires
                    shifted < 0x8000_0000_0000_0000_0000_0000_0000_0000u128,
            ;
            lemma_shift_unfolds(a as nat, i as nat + 1);
            lemma_pow2_unfold((64 - i) as nat);
            // `product` took over the constant term of `rest`
            let term: nat = if low == 1 { shifted1 as nat } else { 0 };
            lemma_u128_xor(product1, shifted1);
            lemma_add_zero(product1 as nat);
            lemma_mul_digit_right(shifted1 as nat, rest as nat, low as nat);
            lemma_mul_double_left(shifted1 as nat, rest as nat);
            lemma_add_associates(
                product1 as nat,
                term,
                poly_mul(2 * shifted1 as nat, rest as nat),
            );
        }
        shifted = shifted << 1;
        i = i + 1;
    }
    proof {
        lemma_mul_zero(shifted as nat);
        lemma_add_zero(product as nat);
        lemma_u128_halves(product);
        lemma_mul_bound(a as nat, 64, b as nat, 64);
        let high = (product >> 64) as u64;
        assert(high < pow2(63)) by {
            lemma_pow2_adds(63, 64);
        }
    }
    ((product >> 64) as u64, product as u64)
}

/// The implicit term of the Barrett constant contributes the upper part itself to the quotient.
proof fn lemma_implicit_term(upper: nat, mu: nat, width: nat)
    requires
        mu < pow2(width),
    ensures
        poly_mul(upper, pow2(width) + mu) / pow2(width) == poly_add(
            poly_mul(upper, mu) / pow2(width),
            upper,
        ),
{
    let m = pow2(width);
    let x = poly_mul(upper, mu);
    lemma_pow2_pos(width);
    lemma_add_disjoint(1, mu, width);
    lemma_mul_add_right(upper, m, mu);
    lemma_mul_pow2(upper, width);
    lemma_add_div_mod(upper * m, x, width);
    lemma_join_at(upper, 0, width);
    lemma_add_commutes(upper, x / m);
}

/// The low terms of a multiple of `P` come from `poly`.
proof fn lemma_low_multiple(q: nat, poly: u64, width: u8)
    requires
        valid_poly(poly, width),
    ensures
        poly_mul(q, modulus(poly, width)) % pow2(width as nat) == poly_mul(q, poly as nat) % pow2(
            width as nat,
        ),
{
    let w = width as nat;
    let m = pow2(w);
    let z = poly_mul(q, poly as nat);
    lemma_pow2_pos(w);
    lemma_add_disjoint(1, poly as nat, w);
    lemma_mul_add_right(q, m, poly as nat);
    lemma_mul_pow2(q, w);
    lemma_add_div_mod(q * m, z, w);
    lemma_join_at(q, 0, w);
    lemma_add_zero(z % m);
}

/// Barrett reduction: with `mu` the quotient of `x^(2 * width)` by `P`, the quotient of a product
/// comes out of its upper half alone.
pub proof fn lemma_barrett(a: nat, poly: u64, width: u8)
    requires
        valid_poly(poly, width),
        a < pow2(2 * width as nat),
    ensures
        ({
            let m = pow2(width as nat);
            let p = modulus(poly, width);
            let mu = poly_div(pow2(2 * width as nat), p);
            let q = poly_mul(a / m, mu) / m;
            &&& q == poly_div(a, p)
            &&& poly_rem(a, p) == poly_add(a, poly_mul(q, p))
        }),
{
    let w = width as nat;
    let m = pow2(w);
    let p = modulus(poly, width);
    let full = pow2(2 * w);
    let mu = poly_div(full, p);
    lemma_modulus(poly, width);
    lemma_barrett_leading(poly, width);
    lemma_pow2_adds(w, w);
    assert(w + w == 2 * w);
    let upper = a / m;
    let lower = a % m;
    lemma_split_at(a, w);
    assert(upper < m) by {
        if upper >= m {
            lemma_mul_inequality(m as int, upper as int, m as int);
        }
    }
    // upper * mu, split at x^width
    let u = poly_mul(upper, mu);
    let q = u / m;
    let u0 = u % m;
    lemma_split_at(u, w);
    // x^(2 * width) == mu * P + r
    let r = poly_rem(full, p);
    lemma_div_rem(full, p);
    lemma_rem_bound(full, p);
    let y = poly_mul(q, p);
    let m0 = poly_mul(u0, p);
    let mr = poly_mul(upper, r);
    assert(upper * full == poly_add(poly_add(y * m, m0), mr)) by {
        lemma_mul_pow2(upper, 2 * w);
        lemma_mul_add_right(upper, poly_mul(mu, p), r);
        lemma_mul_associates(upper, mu, p);
        lemma_add_disjoint(q, u0, w);
        lemma_mul_add_left(q * m, u0, p);
        lemma_mul_shift(q, p, w);
    }
    // a * x^width == upper * x^(2 * width) + lower * x^width
    let lw = lower * m;
    assert(a * m == poly_add(upper * full, lw)) by {
        lemma_add_disjoint(upper, lower, w);
        lemma_add_shift(upper * m, lower, w);
        lemma_mul_is_associative(upper as int, m as int, m as int);
    }
    // (a + q * P) * x^width has only low terms
    let e = poly_add(poly_add(m0, mr), lw);
    assert(poly_add(a, y) * m == e) by {
        lemma_add_shift(a, y, w);
        lemma_add_associates(y * m, m0, mr);
        lemma_add_associates(y * m, poly_add(m0, mr), lw);
        lemma_add_commutes(y * m, e);
        lemma_add_cancels(e, y * m);
    }
    assert(e < full) by {
        lemma_mul_bound(u0, w, p, w + 1);
        lemma_mul_bound(upper, w, r, w);
        lemma_mul_strict_inequality(lower as int, m as int, m as int);
        lemma_add_bound(m0, mr, 2 * w);
        lemma_add_bound(poly_add(m0, mr), lw, 2 * w);
    }
    let rem = poly_add(a, y);
    assert(rem < m) by {
        if rem >= m {
            lemma_mul_inequality(m as int, rem as int, m as int);
        }
    }
    lemma_add_cancels(a, y);
    lemma_div_rem_unique(a, p, q, rem);
}

/// Barrett reduction gives field elements the product of the field.
pub proof fn lemma_barrett_product(a: nat, b: nat, poly: u64, width: u8)
    requires
        valid_poly(poly, width),
        a < pow2(width as nat),
        b < pow2(width as nat),
    ensures
        barrett_product(a, b, poly, width) == field_mul(a, b, poly, width),
{
    let w = width as nat;
    let full = poly_mul(a, b);
    lemma_mul_bound(a, w, b, w);
    lemma_barrett(full, poly, width);
    lemma_field_bound(full, poly, width);
    lemma_small_mod(poly_rem(full, modulus(poly, width)), pow2(w));
}

/// The terms of a double word from `x^width` up.
fn upper_part(high: u64, low: u64, width: u8) -> (upper: u64)
    requires
        1 <= width <= 64,
        high < pow2(width as nat),
    ensures
        upper == (high * pow2(64) + low) as nat / pow2(width as nat),
{
    let ghost w = width as nat;
    proof {
        lemma_pow2_64();
    }
    if width == 64 {
        high
    } else {
        proof {
            let k = (64 - w) as nat;
            lemma_pow2_adds(w, k);
            lemma_u64_pow2_no_overflow(k);
            lemma_u64_shr_is_div(low, width as u64);
            lemma_mul_strict_inequality(high as int, pow2(w) as int, pow2(k) as int);
            lemma_u64_shl_is_mul(high, k as u64);
            lemma_u64_shl_is_mul(1, k as u64);
            let l = low >> width;
            lemma_split_at(low as nat, w);
            assert(l < pow2(k)) by {
                if l >= pow2(k) {
                    lemma_mul_inequality(pow2(k) as int, l as int, pow2(w) as int);
                }
            }
            let kk = k as u64;
            assert(l | (high << kk) == l + (high << kk)) by (bit_vector)
                requires
                    kk < 64,
                    l < (1u64 << kk),
            ;
            let joined = high as nat * pow2(k) + l as nat;
            assert(high * pow2(64) + low == joined * pow2(w) + low as nat % pow2(w)) by {
                lemma_mul_is_associative(high as int, pow2(k) as int, pow2(w) as int);
                lemma_mul_is_distributive_add_other_way(
                    pow2(w) as int,
                    (high * pow2(k)) as int,
                    l as int,
                );
            }
            lemma_join_at(joined, low as nat % pow2(w), w);
        }
        (low >> width) | (high << (64 - width))
    }
}

/// The upper word of the product of a word by a field element is a field element.
proof fn lemma_upper_word(high: u64, low: u64, width: u8)
    requires
        width <= 64,
        high * pow2(64) + low < pow2(64 + width as nat),
    ensures
        high < pow2(width as nat),
{
    let w = width as nat;
    if high >= pow2(w) {
        lemma_mul_inequality(pow2(w) as int, high as int, pow2(64) as int);
        lemma_pow2_adds(w, 64);
    }
}

/// `a * b mod P(x)` via carry-less multiply and Barrett reduction.
///
/// Three multiplies: the product, the Barrett quotient estimate, and folding that estimate back.
/// `P(x)` and the Barrett constant both have an implicit `x^width` that does not fit a `u64`, so
/// each is applied as a separate exclusive-or of the operand.
pub fn mul_mod_poly_clmul(a: u64, b: u64, poly: u64, mu: u64, width: u8) -> (product: u64)
    requires
        valid_poly(poly, width),
        b < pow2(width as nat),
        mu < pow2(width as nat),
        pow2(width as nat) + mu == poly_div(pow2(2 * width as nat), modulus(poly, width)),
    ensures
        product == barrett_product(a as nat, b as nat, poly, width),
        a < pow2(width as nat) ==> product == field_mul(a as nat, b as nat, poly, width),
        product < pow2(width as nat),
{
    let mask = width_mask(width);
    let ghost w = width as nat;
    let ghost m = pow2(w);
    let ghost full = poly_mul(a as nat, b as nat);

    // Full product, then split at the field width.
    let (product_high, product_low) = clmul64(a, b);
    proof {
        lemma_pow2_64();
        lemma_mul_bound(a as nat, 64, b as nat, w);
        lemma_upper_word(product_high, product_low, width);
    }
    let upper = upper_part(product_high, product_low, width);
    let lower = product_low & mask;

    // q = high(upper * mu), where mu = x^width + barrett_mu, so the implicit term contributes
    // `upper` itself.
    let (mu_high, mu_low) = clmul64(upper, mu);
    proof {
        lemma_mul_bound(upper as nat, 64, mu as nat, w);
        lemma_upper_word(mu_high, mu_low, width);
    }
    let estimate = upper_part(mu_high, mu_low, width);
    let quotient = estimate ^ upper;

    // r = low(product) ^ low(q * P). The implicit x^width of P contributes only above the
    // window, so only `poly` matters here.
    let (_fold_high, fold_low) = clmul64(quotient, poly);
    proof {
        lemma_u64_xor(estimate, upper);
        lemma_implicit_term(upper as nat, mu as nat, w);
        lemma_low_word(product_high, product_low, width);
        lemma_low_word(_fold_high, fold_low, width);
        lemma_low_multiple(quotient as nat, poly, width);
        lemma_u64_mask(product_low, mask, w);
        lemma_u64_xor(lower, fold_low);
        lemma_u64_mask(lower ^ fold_low, mask, w);
        lemma_add_div_mod(lower as nat, fold_low as nat, w);
        lemma_small_mod(lower as nat, m);
        lemma_add_div_mod(full, poly_mul(quotient as nat, modulus(poly, width)), w);
        lemma_pow2_pos(w);
        lemma_mod_bound((lower ^ fold_low) as int, m as int);
        if a < m {
            lemma_barrett_product(a as nat, b as nat, poly, width);
        }
    }
    (lower ^ fold_low) & mask
}

/// The terms of a double word below `x^width` stand in its low word.
proof fn lemma_low_word(high: u64, low: u64, width: u8)
    requires
        width <= 64,
    ensures
        (high * pow2(64) + low) as nat % pow2(width as nat) == low as nat % pow2(width as nat),
{
    let w = width as nat;
    let k = (64 - w) as nat;
    lemma_pow2_adds(k, w);
    lemma_pow2_pos(w);
    lemma_mul_is_associative(high as int, pow2(k) as int, pow2(w) as int);
    lemma_mod_multiples_vanish((high * pow2(k)) as int, low as int, pow2(w) as int);
}

} // verus!
