//! How calls of the library relate to each other.
use vstd::arithmetic::div_mod::*;
use vstd::arithmetic::mul::*;
use vstd::arithmetic::power2::*;
use vstd::prelude::*;

use crate::algorithms::{CrcAlgorithm, get_calculator_params};
use crate::bits::{lemma_reversed_bound, lemma_reversed_twice, lemma_u64_xor};
use crate::checksum::{checksum_with_params, crc_from, message_poly};
use crate::combine::{carried, checksums};
use crate::digits::{digit, lemma_joined_digit, lemma_sum_digit};
use crate::feature_detection::ArchOpsInstance;
use crate::field::{
    barrett_mu, field_mul, lemma_field_bound, lemma_modulus, modulus, mul_mod_poly,
    mul_mod_poly_clmul, valid_poly,
};
use crate::laws::{lemma_combined_is_crc_of_concatenation, lemma_twins_combine_alike};
use crate::params::CrcParams;
use crate::poly::{
    lemma_add_associates, lemma_add_cancels, lemma_add_commutes, lemma_add_disjoint,
    lemma_add_div_mod, lemma_add_exchange, lemma_add_halves, lemma_add_leading_cancels,
    lemma_add_self, lemma_add_zero, lemma_div_rem, lemma_div_rem_unique, lemma_join_at,
    lemma_mul_add_left, lemma_mul_add_right, lemma_mul_associates, lemma_mul_commutes,
    lemma_mul_one, lemma_mul_pow2, lemma_rem_add, lemma_rem_bound, lemma_rem_digit, lemma_rem_mul,
    lemma_rem_small, lemma_split_at, poly_add, poly_div, poly_mul, poly_rem,
};
use crate::register::lemma_feed_nothing;

verus! {

/// `P` vanishes: `x^width` and the lower terms of `P` are the same modulo `P`.
pub proof fn lemma_modulus_vanishes(poly: u64, width: u8)
    requires
        valid_poly(poly, width),
    ensures
        poly_rem(pow2(width as nat), modulus(poly, width)) == poly,
        poly_rem(poly_add(pow2(width as nat), poly as nat), modulus(poly, width)) == 0,
{
    let w = width as nat;
    let m = pow2(w);
    let p = modulus(poly, width);
    lemma_modulus(poly, width);
    lemma_mul_one(p);
    lemma_add_disjoint(1, poly as nat, w);
    lemma_add_cancels(m, poly as nat);
    lemma_div_rem_unique(m, p, 1, poly as nat);
    lemma_rem_add(m, poly as nat, p);
    lemma_rem_small(poly as nat, p);
    lemma_add_self(poly as nat);
}

/// A message with its CRC appended is a multiple of `P`.
///
/// The CRC is taken without its final exclusive-or, and the message with the initial register
/// added over its first bits.
pub proof fn lemma_checksum_completes_message(params: CrcParams, buf: &[u8], crc: u64)
    requires
        params.well_formed(),
        call_ensures(checksum_with_params, (params, buf), crc),
    ensures
        ({
            let register = params.turned((crc ^ params.xorout) as nat);
            let message = poly_add(
                params.turned(params.init as nat) * pow2(8 * buf@.len()),
                message_poly(buf@, params.refin) * pow2(params.width as nat),
            );
            &&& register < pow2(params.width as nat)
            &&& poly_rem(
                poly_add(message, register),
                pow2(params.width as nat) + params.poly as nat,
            ) == 0
        }),
        (crc ^ params.xorout) < pow2(params.width as nat),
{
    let w = params.width as nat;
    let p = modulus(params.poly, params.width);
    let message = poly_add(
        params.turned(params.init as nat) * pow2(8 * buf@.len()),
        message_poly(buf@, params.refin) * pow2(w),
    );
    let r = poly_rem(message, p);
    lemma_modulus(params.poly, params.width);
    lemma_field_bound(message, params.poly, params.width);
    lemma_reversed_bound(r, w);
    lemma_reversed_twice(r, w);
    lemma_u64_xor(crc, params.xorout);
    lemma_add_cancels(params.turned(r), params.xorout as nat);
    lemma_rem_add(message, r, p);
    lemma_rem_small(r, p);
    lemma_add_self(r);
}

/// An empty message leaves the initial register.
pub proof fn lemma_checksum_of_nothing(params: CrcParams, buf: &[u8], crc: u64)
    requires
        params.well_formed(),
        buf@.len() == 0,
        call_ensures(checksum_with_params, (params, buf), crc),
    ensures
        crc == params.init ^ params.xorout,
{
    let w = params.width as nat;
    let init = params.init as nat;
    lemma2_to64();
    lemma_reversed_bound(init, w);
    lemma_reversed_twice(init, w);
    lemma_mul_basics(params.turned(init) as int);
    lemma_mul_basics(pow2(w) as int);
    lemma_feed_nothing(params.turned(init), params.poly, params.width);
    assert(message_poly(buf@, params.refin) == 0);
    lemma_u64_xor(params.init, params.xorout);
}

/// The checksums of two sequences combine to the checksum of their concatenation, whatever the tier
/// of the machine.
///
/// The first sequence may start from any register; the second one starts from the register that
/// the algorithm prescribes.
pub proof fn lemma_checksums_of_concatenation(
    params: CrcParams,
    resumed: CrcParams,
    first: &[u8],
    second: &[u8],
    whole: &[u8],
    len2: u64,
    ops: &ArchOpsInstance,
    crc1: u64,
    crc2: u64,
    crc: u64,
    combined_crc: u64,
)
    requires
        params.well_formed(),
        params.init == params.init_algorithm,
        resumed.init < pow2(params.width as nat),
        resumed == (CrcParams { init: resumed.init, ..params }),
        whole@ == first@ + second@,
        len2 == second@.len(),
        call_ensures(checksum_with_params, (resumed, first), crc1),
        call_ensures(checksum_with_params, (params, second), crc2),
        call_ensures(checksum_with_params, (resumed, whole), crc),
        call_ensures(checksums, (crc1, crc2, len2, &params, ops), combined_crc),
    ensures
        combined_crc == crc,
{
    assert(crc1 == crc_from(resumed.init, first@, params));
    assert(crc == crc_from(resumed.init, whole@, params));
    lemma_combined_is_crc_of_concatenation(
        resumed.init,
        first@,
        second@,
        crc1,
        crc2,
        params,
    );
}

/// What is added to the second CRC is added to the combined one, for any words.
pub proof fn lemma_combining_adds_second(
    params: CrcParams,
    ops: &ArchOpsInstance,
    crc1: u64,
    crc2: u64,
    change: u64,
    len2: u64,
    before: u64,
    after: u64,
)
    requires
        params.combinable(),
        call_ensures(checksums, (crc1, crc2, len2, &params, ops), before),
        call_ensures(checksums, (crc1, crc2 ^ change, len2, &params, ops), after),
    ensures
        after == before ^ change,
{
    let clmul = !(*ops is SoftwareFallback);
    let value = params.turned((crc1 ^ params.init_algorithm ^ params.xorout) as nat);
    let c = params.turned(carried(value, len2 as nat, 0, params, clmul));
    lemma_u64_xor(crc2, change);
    lemma_u64_xor(before, change);
    lemma_add_associates(c, crc2 as nat, change as nat);
}

/// With no bytes in between, combining only takes the initial register and the final exclusive-or
/// out of the first CRC.
pub proof fn lemma_combining_over_nothing(
    params: CrcParams,
    ops: &ArchOpsInstance,
    crc1: u64,
    crc2: u64,
    crc: u64,
)
    requires
        params.combinable(),
        (crc1 ^ params.init_algorithm ^ params.xorout) < pow2(params.width as nat),
        call_ensures(checksums, (crc1, crc2, 0, &params, ops), crc),
    ensures
        crc == crc1 ^ params.init_algorithm ^ params.xorout ^ crc2,
{
    let value = crc1 ^ params.init_algorithm ^ params.xorout;
    lemma_reversed_twice(value as nat, params.width as nat);
    lemma_u64_xor(value, crc2);
}

/// Multiplication modulo `P`: by one it changes nothing, and by `x` it shifts and reduces. The
/// first factor may be of any width.
pub proof fn lemma_multiplying_by_x(
    a: u64,
    poly: u64,
    width: u8,
    by_one: u64,
    by_x: u64,
)
    requires
        valid_poly(poly, width),
        width > 1,
        call_ensures(mul_mod_poly, (a, 1, poly, width), by_one),
        call_ensures(mul_mod_poly, (a, 2, poly, width), by_x),
    ensures
        by_one == a,
        by_x as nat == ({
            let m = pow2(width as nat);
            let twice = 2 * (a as nat % m);
            if twice >= m {
                poly_add((twice - m) as nat, poly as nat)
            } else {
                twice
            }
        }),
{
    let w = width as nat;
    let m = pow2(w);
    let p = modulus(poly, width);
    let low = a as nat % m;
    lemma_modulus(poly, width);
    lemma2_to64();
    lemma_split_at(a as nat, w);
    lemma_rem_small(low, p);
    lemma_mul_one(low);
    lemma_add_disjoint(a as nat / m, low, w);
    lemma_mul_pow2(low, 1);
    lemma_rem_digit(low, 0, p);
    lemma_pow2_unfold(w + 1);
    if 2 * low >= m {
        lemma_add_leading_cancels(2 * low, p, w);
    }
    lemma_add_zero(field_mul(low, 2, poly, width));
}

/// Multiplication modulo `P` distributes over exclusive-or, for a first factor of any width.
pub proof fn lemma_multiplying_distributes(
    a: u64,
    b: u64,
    c: u64,
    poly: u64,
    width: u8,
    by_b: u64,
    by_c: u64,
    by_sum: u64,
)
    requires
        valid_poly(poly, width),
        call_ensures(mul_mod_poly, (a, b, poly, width), by_b),
        call_ensures(mul_mod_poly, (a, c, poly, width), by_c),
        call_ensures(mul_mod_poly, (a, b ^ c, poly, width), by_sum),
    ensures
        by_sum == by_b ^ by_c,
{
    let m = pow2(width as nat);
    let p = modulus(poly, width);
    let low = a as nat % m;
    let above = (a as nat / m) * m;
    let (b1, c1, s1) = (b as nat, c as nat, (b ^ c) as nat);
    let eb: nat = if b1 % 2 == 1 { above } else { 0 };
    let ec: nat = if c1 % 2 == 1 { above } else { 0 };
    let es: nat = if s1 % 2 == 1 { above } else { 0 };
    lemma_modulus(poly, width);
    lemma_u64_xor(b, c);
    lemma_u64_xor(by_b, by_c);
    lemma_mul_add_right(low, b1, c1);
    lemma_rem_add(poly_mul(low, b1), poly_mul(low, c1), p);
    lemma_add_halves(b1, c1);
    lemma_add_self(above);
    lemma_add_zero(above);
    lemma_add_zero(0);
    assert(es == poly_add(eb, ec));
    lemma_add_exchange(
        field_mul(low, b1, poly, width),
        eb,
        field_mul(low, c1, poly, width),
        ec,
    );
    assert(by_b as nat == poly_add(field_mul(low, b1, poly, width), eb));
    assert(by_c as nat == poly_add(field_mul(low, c1, poly, width), ec));
    assert(by_sum as nat == poly_add(field_mul(low, s1, poly, width), es));
}

/// Multiplying by a double is doubling first: with the two laws above that fixes every product.
pub proof fn lemma_multiplying_by_double(
    a: u64,
    b: u64,
    twice_b: u64,
    poly: u64,
    width: u8,
    by_x: u64,
    by_x_and_b: u64,
    by_twice_b: u64,
)
    requires
        valid_poly(poly, width),
        twice_b == 2 * b,
        twice_b < pow2(width as nat),
        call_ensures(mul_mod_poly, (a, 2, poly, width), by_x),
        call_ensures(mul_mod_poly, (by_x, b, poly, width), by_x_and_b),
        call_ensures(mul_mod_poly, (a, twice_b, poly, width), by_twice_b),
    ensures
        by_twice_b == by_x_and_b,
{
    let p = modulus(poly, width);
    let low = a as nat % pow2(width as nat);
    lemma_modulus(poly, width);
    lemma2_to64();
    lemma_add_zero(field_mul(low, 2, poly, width));
    lemma_field_bound(poly_mul(low, 2), poly, width);
    lemma_mul_associates(low, 2, b as nat);
    lemma_mul_commutes(2, b as nat);
    lemma_mul_pow2(b as nat, 1);
    lemma_rem_mul(poly_mul(low, 2), b as nat, p);
    lemma_add_zero(field_mul(low, twice_b as nat, poly, width));
}

/// Both ways of multiplying agree on field elements.
pub proof fn lemma_multiplies_agree(
    a: u64,
    b: u64,
    poly: u64,
    width: u8,
    mu: u64,
    doubled: u64,
    reduced: u64,
)
    requires
        valid_poly(poly, width),
        a < pow2(width as nat),
        b < pow2(width as nat),
        call_ensures(barrett_mu, (poly, width), mu),
        call_ensures(mul_mod_poly, (a, b, poly, width), doubled),
        call_ensures(mul_mod_poly_clmul, (a, b, poly, mu, width), reduced),
    ensures
        doubled == reduced,
{
}

/// The Barrett constant: multiplied by `P` it gives `x^(2 * width)`, down to the terms below
/// `x^width`.
pub proof fn lemma_barrett_constant(poly: u64, width: u8, mu: u64)
    requires
        valid_poly(poly, width),
        call_ensures(barrett_mu, (poly, width), mu),
    ensures
        mu < pow2(width as nat),
        poly_add(
            poly_mul(pow2(width as nat) + mu as nat, pow2(width as nat) + poly as nat),
            pow2(2 * width as nat),
        ) < pow2(width as nat),
{
    let p = modulus(poly, width);
    let full = pow2(2 * width as nat);
    lemma_modulus(poly, width);
    lemma_div_rem(full, p);
    lemma_rem_bound(full, p);
    let q = poly_mul(poly_div(full, p), p);
    let r = poly_rem(full, p);
    lemma_add_commutes(q, r);
    lemma_add_commutes(q, full);
    lemma_add_cancels(r, q);
}

/// Barrett reduction of a word of any width by a field element: the product, less a multiple of
/// `P`, cut to the width.
///
/// The multiple is the upper part of what the upper part of the product gives times the Barrett
/// constant with its leading term.
pub proof fn lemma_barrett_estimate(
    a: u64,
    b: u64,
    poly: u64,
    width: u8,
    mu: u64,
    product: u64,
    upper: nat,
    lower: nat,
    multiple: nat,
    rest: nat,
    i: nat,
)
    requires
        valid_poly(poly, width),
        i < width,
        call_ensures(barrett_mu, (poly, width), mu),
        call_ensures(mul_mod_poly_clmul, (a, b, poly, mu, width), product),
        lower < pow2(width as nat),
        rest < pow2(width as nat),
        poly_mul(a as nat, b as nat) == upper * pow2(width as nat) + lower,
        poly_mul(upper, pow2(width as nat) + mu as nat) == multiple * pow2(width as nat) + rest,
    ensures
        product < pow2(width as nat),
        digit(product as nat, i) == (digit(lower, i) + digit(
            poly_mul(multiple, pow2(width as nat) + poly as nat),
            i,
        )) % 2,
{
    let w = width as nat;
    let m = pow2(w);
    let full = poly_mul(a as nat, b as nat);
    let taken = poly_mul(multiple, modulus(poly, width));
    lemma_join_at(upper, lower, w);
    lemma_join_at(multiple, rest, w);
    let sum = poly_add(full, taken);
    lemma_split_at(sum, w);
    lemma_joined_digit(sum / m, sum % m, w, i);
    lemma_joined_digit(upper, lower, w, i);
    lemma_sum_digit(full, taken, i);
}

/// Barrett reduction distributes over exclusive-or in its first factor, for words of any width.
pub proof fn lemma_barrett_distributes(
    a: u64,
    c: u64,
    b: u64,
    poly: u64,
    mu: u64,
    width: u8,
    of_a: u64,
    of_c: u64,
    of_sum: u64,
)
    requires
        valid_poly(poly, width),
        call_ensures(mul_mod_poly_clmul, (a, b, poly, mu, width), of_a),
        call_ensures(mul_mod_poly_clmul, (c, b, poly, mu, width), of_c),
        call_ensures(mul_mod_poly_clmul, (a ^ c, b, poly, mu, width), of_sum),
    ensures
        of_sum == of_a ^ of_c,
{
    let w = width as nat;
    let m = pow2(w);
    let p = modulus(poly, width);
    let k = poly_div(pow2(2 * w), p);
    let (x, y) = (poly_mul(a as nat, b as nat), poly_mul(c as nat, b as nat));
    let (ux, uy) = (poly_mul(x / m, k), poly_mul(y / m, k));
    let (vx, vy) = (poly_mul(ux / m, p), poly_mul(uy / m, p));
    lemma_pow2_pos(w);
    lemma_u64_xor(a, c);
    lemma_u64_xor(of_a, of_c);
    lemma_mul_add_left(a as nat, c as nat, b as nat);
    lemma_add_div_mod(x, y, w);
    lemma_mul_add_left(x / m, y / m, k);
    lemma_add_div_mod(ux, uy, w);
    lemma_mul_add_left(ux / m, uy / m, p);
    lemma_add_exchange(x, y, vx, vy);
    lemma_add_div_mod(poly_add(x, vx), poly_add(y, vy), w);
}

/// A custom polynomial behaves like the catalogued CRC that names the same one, though it carries
/// no keys.
pub proof fn lemma_custom_twin(
    algorithm: CrcAlgorithm,
    params: CrcParams,
    name: &'static str,
    check: u64,
    custom: CrcParams,
    buf: &[u8],
    crc1: u64,
    crc2: u64,
    len2: u64,
    ops: &ArchOpsInstance,
    listed: u64,
    twin: u64,
    listed_crc: u64,
    twin_crc: u64,
)
    requires
        call_ensures(get_calculator_params, (algorithm,), params),
        call_ensures(
            CrcParams::new,
            (
                name,
                params.width,
                params.poly,
                params.init,
                params.refin,
                params.xorout,
                check,
            ),
            custom,
        ),
        call_ensures(checksums, (crc1, crc2, len2, &params, ops), listed),
        call_ensures(checksums, (crc1, crc2, len2, &custom, ops), twin),
        call_ensures(checksum_with_params, (params, buf), listed_crc),
        call_ensures(checksum_with_params, (custom, buf), twin_crc),
    ensures
        custom.combine_keys is None,
        twin == listed,
        twin_crc == listed_crc,
{
    lemma_twins_combine_alike(
        crc1,
        crc2,
        len2,
        params,
        custom,
        !(*ops is SoftwareFallback),
    );
}

} // verus!
