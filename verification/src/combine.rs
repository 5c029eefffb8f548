//! Combining the CRCs of two sequences of bytes into the CRC of their concatenation.
//!
//! The operation needs only the two CRCs and the length of the second sequence. It is the
//! generalisation of zlib's `crc32_combine` that Mark Adler describes, for any CRC whose
//! parameters follow Ross Williams' model.
/*
  The combination of CRCs from their lengths is after crccomb.c, by Mark Adler:
  https://stackoverflow.com/questions/29915764/generic-crc-8-16-32-64-combine-implementation/29928573#29928573
  This is an altered version of it.
*/

/* crccomb.c -- generalized combination of CRCs
 * Copyright (C) 2015 Mark Adler
 * Version 1.1  29 Apr 2015  Mark Adler
 */

/*
 This software is provided 'as-is', without any express or implied
 warranty.  In no event will the author be held liable for any damages
 arising from the use of this software.

 Permission is granted to anyone to use this software for any purpose,
 including commercial applications, and to alter it and redistribute it
 freely, subject to the following restrictions:

 1. The origin of this software must not be misrepresented; you must not
    claim that you wrote the original software. If you use this software
    in a product, an acknowledgment in the product documentation would be
    appreciated but is not required.
 2. Altered source versions must be plainly marked as such, and must not be
    misrepresented as being the original software.
 3. This notice may not be removed or altered from any source distribution.

 Mark Adler
 madler@alumni.caltech.edu
*/

use vstd::arithmetic::power2::*;
use vstd::prelude::*;

use crate::bits::{lemma_pow2_64, lemma_reversed_bound, lemma_u64_xor, reflect_value};
use crate::feature_detection::{ArchOpsInstance, has_clmul};
use crate::field::{
    barrett_mu, barrett_product, doubling_product, field_mul, lemma_barrett_product,
    lemma_doubling_product, lemma_field_bound, lemma_modulus, modulus, mul_mod_poly,
    mul_mod_poly_clmul, valid_poly,
};
use crate::params::CrcParams;
use crate::poly::{
    lemma_mul_associates, lemma_mul_one, lemma_mul_pow2, lemma_pow2_0, lemma_rem_mul,
    lemma_rem_small, poly_add, poly_div, poly_mul, poly_rem,
};

verus! {

/// Keys for combining, one per power-of-two byte length: `x^(8 * 2^i) mod P(x)` for i in `0..64`,
/// in normal (non-reflected) form, plus the Barrett constant used to reduce a product.
///
/// Appending `len2` zero bytes multiplies a CRC by `x^(8 * len2)` in `GF(2)[x]/P(x)`, so
///
/// ```text
/// crc(A || B) = crc(A) * x^(8 * len(B)) + crc(B)
/// ```
///
/// and `x^(8 * len2)` is the product of the keys that `len2`'s set bits select. Combining is
/// therefore one field multiply per set bit, and a single multiply when `len2` is a power of two.
///
/// The same kind of constant as the crate's folding keys -- `x^n mod P(x)` -- but for the
/// exponents combining needs rather than the ones the folding kernel needs.
#[derive(Debug, Clone, Copy)]
pub struct CombineKeys {
    /// `x^(8 * 2^i) mod P(x)`.
    keys: [u64; 64],
    /// `floor(x^(2 * width) / P(x))`, low `width` bits; the implicit `x^width` is folded into the
    /// reduction rather than stored.
    barrett_mu: u64,
}

/// `x^(8 * len)`, the factor by which `len` zero bytes multiply a register.
pub open spec fn zero_bytes(len: nat) -> nat {
    pow2(8 * len)
}

/// `value * x^(8 * len2) mod P`, on register values in the reported bit order.
pub open spec fn shifted(value: nat, len2: nat, params: CrcParams) -> nat {
    params.turned(
        poly_rem(
            poly_mul(params.turned(value), zero_bytes(len2)),
            modulus(params.poly, params.width),
        ),
    )
}

/// The CRC of a concatenation, from the CRCs of its two parts and the length of the second.
///
/// The first CRC is freed of what the initial register and the final exclusive-or put into it,
/// and carried over the bytes of the second sequence.
pub open spec fn combined(crc1: u64, crc2: u64, len2: u64, params: CrcParams) -> nat {
    poly_add(
        shifted((crc1 ^ params.init_algorithm ^ params.xorout) as nat, len2 as nat, params),
        crc2 as nat,
    )
}

/// What is left of `crc1` without the initial register and the final exclusive-or has the width
/// of the CRC. That holds of every CRC; a reflected one is cut to its width as it is turned.
pub open spec fn fits(crc1: u64, params: CrcParams) -> bool {
    params.refin || (crc1 ^ params.init_algorithm ^ params.xorout) < pow2(params.width as nat)
}

/// The product of a word by a field element, with or without a carry-less multiply.
///
/// The two ways agree on field elements, and only there.
pub open spec fn tier_product(a: nat, b: nat, params: CrcParams, clmul: bool) -> nat {
    if clmul {
        barrett_product(a, b, params.poly, params.width)
    } else {
        doubling_product(a, b, params.poly, params.width)
    }
}

/// `acc` multiplied by the keys that the bits of `len` select, from key `i` on.
pub open spec fn carried(acc: nat, len: nat, i: nat, params: CrcParams, clmul: bool) -> nat
    decreases len,
{
    if len == 0 {
        acc
    } else {
        let key = poly_rem(zero_bytes(pow2(i)), modulus(params.poly, params.width));
        let next = if len % 2 == 1 {
            tier_product(acc, key, params, clmul)
        } else {
            acc
        };
        carried(next, len / 2, i + 1, params, clmul)
    }
}

/// What combining gives for any two words: `combined` where `crc1` fits.
pub open spec fn combined_words(
    crc1: u64,
    crc2: u64,
    len2: u64,
    params: CrcParams,
    clmul: bool,
) -> nat {
    let value = params.turned((crc1 ^ params.init_algorithm ^ params.xorout) as nat);
    poly_add(params.turned(carried(value, len2 as nat, 0, params, clmul)), crc2 as nat)
}

impl CombineKeys {
    /// The key for `2^i` zero bytes.
    pub closed spec fn key(self, i: int) -> u64 {
        self.keys@[i]
    }

    /// The Barrett constant, without its leading term.
    pub closed spec fn mu(self) -> u64 {
        self.barrett_mu
    }

    /// These are the keys of `P(x) = x^width + poly`.
    pub open spec fn valid_for(self, poly: u64, width: u8) -> bool {
        &&& forall|i: int|
            0 <= i < 64 ==> #[trigger] self.key(i) == poly_rem(
                zero_bytes(pow2(i as nat)),
                modulus(poly, width),
            )
        &&& self.mu() < pow2(width as nat)
        &&& pow2(width as nat) + self.mu() == poly_div(
            pow2(2 * width as nat),
            modulus(poly, width),
        )
    }

    /// Build the table for a `width`-bit polynomial given in normal form.
    ///
    /// Each key is the square of the one below it, starting from `x^8` -- one zero byte -- which
    /// needs no reduction because every supported width exceeds 8.
    pub fn new(poly: u64, width: u8) -> (keys: CombineKeys)
        requires
            8 < width <= 64,
            valid_poly(poly, width),
        ensures
            keys.valid_for(poly, width),
    {
        let mut keys = [0u64; 64];
        keys[0] = 256;
        let ghost p = modulus(poly, width);
        proof {
            lemma2_to64();
            lemma_pow2_strictly_increases(8, width as nat);
            lemma_modulus(poly, width);
            lemma_rem_small(256, p);
        }
        let mut i: usize = 1;
        while i < 64
            invariant
                valid_poly(poly, width),
                p == modulus(poly, width),
                1 <= i <= 64,
                forall|j: int|
                    0 <= j < i ==> #[trigger] keys@[j] == poly_rem(
                        zero_bytes(pow2(j as nat)),
                        p,
                    ),
            decreases 64 - i,
        {
            let below = keys[i - 1];
            proof {
                let e = zero_bytes(pow2((i - 1) as nat));
                assert(below == poly_rem(e, p));
                lemma_field_bound(e, poly, width);
                lemma_square_of_zero_bytes((i - 1) as nat, p);
            }
            keys[i] = mul_mod_poly(below, below, poly, width);
            i = i + 1;
        }
        let barrett_mu = barrett_mu(poly, width);
        CombineKeys { keys, barrett_mu }
    }
}

/// Each key is the square of the one below it.
pub proof fn lemma_square_of_zero_bytes(i: nat, p: nat)
    requires
        p > 0,
    ensures
        poly_rem(
            poly_mul(
                poly_rem(zero_bytes(pow2(i)), p),
                poly_rem(zero_bytes(pow2(i)), p),
            ),
            p,
        ) == poly_rem(zero_bytes(pow2(i + 1)), p),
{
    let e = zero_bytes(pow2(i));
    lemma_rem_mul(e, poly_rem(e, p), p);
    lemma_rem_mul(e, e, p);
    lemma_mul_pow2(e, 8 * pow2(i));
    lemma_pow2_adds(8 * pow2(i), 8 * pow2(i));
    lemma_pow2_unfold(i + 1);
}

impl CombineKeys {
    /// `a * b mod P(x)`, using the carry-less multiply when the tier has one.
    pub fn mul_mod(&self, a: u64, b: u64, params: &CrcParams, ops: &ArchOpsInstance) -> (product:
        u64)
        requires
            valid_poly(params.poly, params.width),
            self.valid_for(params.poly, params.width),
            b < pow2(params.width as nat),
        ensures
            product == tier_product(a as nat, b as nat, *params, !(*ops is SoftwareFallback)),
            a < pow2(params.width as nat) ==> product == field_mul(
                a as nat,
                b as nat,
                params.poly,
                params.width,
            ) && product < pow2(params.width as nat),
    {
        if has_clmul(ops) {
            return mul_mod_poly_clmul(a, b, params.poly, self.barrett_mu, params.width);
        }
        mul_mod_poly(a, b, params.poly, params.width)
    }

    /// Multiply `crc1` by `x^(8 * len2)` using the keys `len2`'s set bits select, then add `crc2`.
    ///
    /// The keys are in normal form, so a reflected CRC is converted in and out once per combine
    /// rather than once per multiply.
    pub fn combine(
        &self,
        crc1: u64,
        crc2: u64,
        len2: u64,
        params: &CrcParams,
        ops: &ArchOpsInstance,
    ) -> (crc: u64)
        requires
            valid_poly(params.poly, params.width),
            self.valid_for(params.poly, params.width),
        ensures
            fits(crc1, *params) ==> crc == combined(crc1, crc2, len2, *params),
            crc == combined_words(crc1, crc2, len2, *params, !(*ops is SoftwareFallback)),
    {
        let normalized = crc1 ^ params.init_algorithm ^ params.xorout;
        let mut acc = if params.refin {
            reflect_value(normalized, params.width)
        } else {
            normalized
        };
        let ghost clmul = !(*ops is SoftwareFallback);
        let ghost goal = carried(acc as nat, len2 as nat, 0, *params, clmul);
        let mut len = len2;
        let mut i: usize = 0;
        proof {
            lemma_pow2_64();
            if fits(crc1, *params) {
                lemma_combined_words(crc1, crc2, len2, *params, clmul);
            }
        }
        while len > 0
            invariant
                valid_poly(params.poly, params.width),
                self.valid_for(params.poly, params.width),
                clmul == !(*ops is SoftwareFallback),
                i <= 64,
                len < pow2((64 - i) as nat),
                carried(acc as nat, len as nat, i as nat, *params, clmul) == goal,
            decreases len,
        {
            let low = len & 1;
            proof {
                lemma2_to64();
                assert(low == len % 2 && len >> 1 == len / 2) by (bit_vector)
                    requires
                        low == len & 1,
                ;
                assert(i < 64);
                let key = self.key(i as int);
                lemma_field_bound(zero_bytes(pow2(i as nat)), params.poly, params.width);
                assert(key < pow2(params.width as nat));
            }
            if low == 1 {
                acc = self.mul_mod(acc, self.keys[i], params, ops);
            }
            len = len >> 1;
            proof {
                lemma_pow2_unfold((64 - i) as nat);
            }
            i = i + 1;
        }
        let shifted = if params.refin {
            reflect_value(acc, params.width)
        } else {
            acc
        };
        proof {
            lemma_u64_xor(shifted, crc2);
        }
        shifted ^ crc2
    }
}

/// The keys that the bits of `len` select multiply a field element by their zero bytes.
proof fn lemma_carried(acc: nat, len: nat, i: nat, params: CrcParams, clmul: bool)
    requires
        valid_poly(params.poly, params.width),
        acc < pow2(params.width as nat),
    ensures
        carried(acc, len, i, params, clmul) == poly_rem(
            poly_mul(acc, zero_bytes(len * pow2(i))),
            modulus(params.poly, params.width),
        ),
    decreases len,
{
    let p = modulus(params.poly, params.width);
    lemma_modulus(params.poly, params.width);
    if len == 0 {
        lemma_pow2_0();
        assert(0 * pow2(i) == 0);
        lemma_mul_one(acc);
        lemma_rem_small(acc, p);
    } else {
        let key = poly_rem(zero_bytes(pow2(i)), p);
        lemma_field_bound(zero_bytes(pow2(i)), params.poly, params.width);
        lemma_field_bound(poly_mul(acc, key), params.poly, params.width);
        lemma_doubling_product(acc, key, params.poly, params.width);
        lemma_barrett_product(acc, key, params.poly, params.width);
        lemma_take_bit(acc, len, i, p);
        let next = if len % 2 == 1 {
            poly_rem(poly_mul(acc, key), p)
        } else {
            acc
        };
        lemma_carried(next, len / 2, i + 1, params, clmul);
    }
}

/// Where `crc1` fits, combining carries it over the second sequence exactly, with or without a
/// carry-less multiply.
pub proof fn lemma_combined_words(
    crc1: u64,
    crc2: u64,
    len2: u64,
    params: CrcParams,
    clmul: bool,
)
    requires
        valid_poly(params.poly, params.width),
        fits(crc1, params),
    ensures
        combined_words(crc1, crc2, len2, params, clmul) == combined(crc1, crc2, len2, params),
{
    let value = (crc1 ^ params.init_algorithm ^ params.xorout) as nat;
    lemma_reversed_bound(value, params.width as nat);
    lemma_pow2_0();
    lemma_carried(params.turned(value), len2 as nat, 0, params, clmul);
}

/// One bit of a length: `2^i` zero bytes where it is set, and those of the bits above it.
pub proof fn lemma_zero_bytes_digit(len: nat, i: nat)
    ensures
        zero_bytes(len * pow2(i)) == poly_mul(
            if len % 2 == 1 {
                zero_bytes(pow2(i))
            } else {
                1
            },
            zero_bytes((len / 2) * pow2(i + 1)),
        ),
{
    let h = len / 2;
    let k = pow2(i);
    lemma_pow2_unfold(i + 1);
    if len % 2 == 1 {
        assert(len * k == k + h * (2 * k)) by (nonlinear_arith)
            requires
                len == 2 * h + 1,
        ;
        lemma_pow2_adds(8 * k, 8 * (h * pow2(i + 1)));
        lemma_mul_pow2(zero_bytes(k), 8 * (h * pow2(i + 1)));
    } else {
        assert(len * k == h * (2 * k)) by (nonlinear_arith)
            requires
                len == 2 * h,
        ;
        lemma_mul_one(zero_bytes(h * pow2(i + 1)));
    }
}

/// One bit of the length: the key it selects takes over its share of the zero bytes.
proof fn lemma_take_bit(acc: nat, len: nat, i: nat, p: nat)
    requires
        p > 0,
    ensures
        ({
            let before = poly_rem(poly_mul(acc, zero_bytes(len * pow2(i))), p);
            let key = poly_rem(zero_bytes(pow2(i)), p);
            let next = if len % 2 == 1 { poly_rem(poly_mul(acc, key), p) } else { acc };
            before == poly_rem(poly_mul(next, zero_bytes((len / 2) * pow2(i + 1))), p)
        }),
{
    let one = zero_bytes(pow2(i));
    let rest = zero_bytes((len / 2) * pow2(i + 1));
    lemma_zero_bytes_digit(len, i);
    if len % 2 == 1 {
        lemma_mul_associates(acc, one, rest);
        lemma_rem_mul(one, acc, p);
        lemma_rem_mul(poly_mul(acc, one), rest, p);
    } else {
        lemma_mul_one(rest);
    }
}

/// Combine the CRCs of two successive sequences, where `crc1` is the CRC of the first sequence of
/// bytes, `crc2` is the CRC of the immediately following sequence of bytes, and `len2` is the
/// length of the second sequence. The CRC of the combined sequence is returned.
///
/// The products are computed as the tier of the machine allows; for CRCs the result is the same
/// for all of them.
pub fn checksums(
    crc1: u64,
    crc2: u64,
    len2: u64,
    params: &CrcParams,
    ops: &ArchOpsInstance,
) -> (crc: u64)
    requires
        params.combinable(),
    ensures
        fits(crc1, *params) ==> crc == combined(crc1, crc2, len2, *params),
        crc == combined_words(crc1, crc2, len2, *params, !(*ops is SoftwareFallback)),
{
    match &params.combine_keys {
        Some(keys) => keys.combine(crc1, crc2, len2, params, ops),
        // A custom polynomial has no prepared table, so build one. Sixty-four squarings, once per
        // combine.
        None => CombineKeys::new(params.poly, params.width).combine(crc1, crc2, len2, params, ops),
    }
}

} // verus!
