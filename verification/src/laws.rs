//! What holds of combining as a whole.
use vstd::arithmetic::mul::*;
use vstd::arithmetic::power2::*;
use vstd::prelude::*;

use crate::bits::{
    lemma_pow2_64, lemma_reversed_add, lemma_reversed_bound, lemma_reversed_twice,
    lemma_reversed_zero, lemma_u64_xor,
};
use crate::checksum::{crc_from, lemma_message_bound, lemma_message_concat, message_poly};
use crate::combine::{
    CombineKeys, carried, combined, combined_words, fits, lemma_combined_words,
    lemma_square_of_zero_bytes, lemma_zero_bytes_digit, shifted, tier_product, zero_bytes,
};
use crate::field::{field_mul, lemma_field_bound, lemma_modulus, modulus, valid_poly};
use crate::params::CrcParams;
use crate::poly::{
    degree, lemma_add_associates, lemma_add_bound, lemma_add_cancels, lemma_add_commutes,
    lemma_add_shift, lemma_add_zero, lemma_mul_add_left, lemma_mul_associates, lemma_mul_one,
    lemma_mul_pow2, lemma_pow2_0, lemma_rem_add, lemma_rem_digit, lemma_rem_mul,
    lemma_rem_mul_congruent, lemma_rem_small, lemma_shift_unfolds, poly_add, poly_mul, poly_rem,
    reduce_step,
};
use crate::register::{feed, lemma_feed_compose};

verus! {

/// Turning a value between the bit orders is additive.
proof fn lemma_turned_add(a: nat, b: nat, params: CrcParams)
    ensures
        params.turned(poly_add(a, b)) == poly_add(params.turned(a), params.turned(b)),
{
    lemma_reversed_add(a, b, params.width as nat);
}

/// A turned value turns back, and keeps its width.
proof fn lemma_turned_twice(a: nat, params: CrcParams)
    requires
        a < pow2(params.width as nat),
    ensures
        params.turned(params.turned(a)) == a,
        params.turned(a) < pow2(params.width as nat),
{
    lemma_reversed_twice(a, params.width as nat);
    lemma_reversed_bound(a, params.width as nat);
}

/// What is left of a CRC once the initial register and the final exclusive-or are taken out.
proof fn lemma_normalized(crc1: u64, register: nat, params: CrcParams)
    requires
        crc1 == poly_add(register, params.xorout as nat),
    ensures
        (crc1 ^ params.init_algorithm ^ params.xorout) as nat == poly_add(
            register,
            params.init_algorithm as nat,
        ),
{
    let ia = params.init_algorithm as nat;
    let xo = params.xorout as nat;
    lemma_u64_xor(crc1, params.init_algorithm);
    lemma_u64_xor(crc1 ^ params.init_algorithm, params.xorout);
    lemma_add_associates(register, xo, ia);
    lemma_add_commutes(xo, ia);
    lemma_add_associates(register, ia, xo);
    lemma_add_cancels(poly_add(register, ia), xo);
}

/// Combining gives the CRC of the concatenation.
///
/// `crc1` is the CRC of `a`, whatever register it started from; `crc2` is the CRC of `b`, from the
/// register that the algorithm prescribes. The combined CRC is that of `a` followed by `b`.
pub proof fn lemma_combined_is_crc_of_concatenation(
    start: u64,
    a: Seq<u8>,
    b: Seq<u8>,
    crc1: u64,
    crc2: u64,
    params: CrcParams,
)
    requires
        params.well_formed(),
        start < pow2(params.width as nat),
        b.len() <= u64::MAX,
        crc1 == crc_from(start, a, params),
        crc2 == crc_from(params.init_algorithm, b, params),
    ensures
        fits(crc1, params),
        combined(crc1, crc2, b.len() as u64, params) == crc_from(start, a + b, params),
{
    let w = params.width as nat;
    let p = modulus(params.poly, params.width);
    let ia = params.init_algorithm as nat;
    let xo = params.xorout as nat;
    let n = 8 * b.len();
    let k = pow2(n);
    let s = params.turned(start as nat);
    let ti = params.turned(ia);
    let ma = message_poly(a, params.refin);
    let mb = message_poly(b, params.refin);
    let ra = feed(s, ma, 8 * a.len(), params.poly, params.width);
    lemma_field_bound(
        poly_add(s * pow2(8 * a.len()), ma * pow2(w)),
        params.poly,
        params.width,
    );
    lemma_turned_twice(ra, params);
    // the normalized first CRC
    let norm = (crc1 ^ params.init_algorithm ^ params.xorout) as nat;
    lemma_normalized(crc1, params.turned(ra), params);
    lemma_add_bound(params.turned(ra), ia, w);
    lemma_turned_add(params.turned(ra), ia, params);
    assert(params.turned(norm) == poly_add(ra, ti));
    // carried over the second sequence
    let x = poly_rem(ra * k, p);
    let y = poly_rem(ti * k, p);
    let z = poly_rem(mb * pow2(w), p);
    lemma_mul_pow2(poly_add(ra, ti), n);
    lemma_add_shift(ra, ti, n);
    lemma_rem_add(ra * k, ti * k, p);
    assert(shifted(norm, b.len(), params) == params.turned(poly_add(x, y)));
    // the second CRC
    lemma_rem_add(ti * k, mb * pow2(w), p);
    assert(crc2 as nat == poly_add(params.turned(poly_add(y, z)), xo));
    // what the two have in common cancels
    lemma_turned_add(poly_add(x, y), poly_add(y, z), params);
    lemma_add_associates(params.turned(poly_add(x, y)), params.turned(poly_add(y, z)), xo);
    lemma_add_associates(x, y, poly_add(y, z));
    lemma_add_cancels(z, y);
    // and the rest is the register over both sequences
    lemma_rem_add(ra * k, mb * pow2(w), p);
    lemma_message_bound(b, params.refin);
    lemma_feed_compose(s, ma, 8 * a.len(), mb, n, params.poly, params.width);
    lemma_message_concat(a, b, params.refin);
    assert(8 * a.len() + n == 8 * (a + b).len());
}

/// Appending zero bytes multiplies the register by `x^(8 * len)`.
pub proof fn lemma_zero_bytes_multiply(
    register: nat,
    zeros: Seq<u8>,
    reflected: bool,
    poly: u64,
    width: u8,
)
    requires
        valid_poly(poly, width),
        forall|i: int| 0 <= i < zeros.len() ==> zeros[i] == 0,
    ensures
        feed(register, message_poly(zeros, reflected), 8 * zeros.len(), poly, width) == poly_rem(
            poly_mul(register, zero_bytes(zeros.len())),
            modulus(poly, width),
        ),
{
    lemma_zero_message(zeros, reflected);
    lemma_mul_pow2(register, 8 * zeros.len());
    lemma_add_zero(register * pow2(8 * zeros.len()));
}

proof fn lemma_zero_message(zeros: Seq<u8>, reflected: bool)
    requires
        forall|i: int| 0 <= i < zeros.len() ==> zeros[i] == 0,
    ensures
        message_poly(zeros, reflected) == 0,
    decreases zeros.len(),
{
    if zeros.len() > 0 {
        lemma_zero_message(zeros.drop_last(), reflected);
        lemma_reversed_zero(8);
        assert(zeros.last() == 0);
        lemma_mul_basics(pow2(8) as int);
    }
}

/// A register after `n` zero bits, one at a time.
pub open spec fn after_zero_bits(register: nat, n: nat, p: nat) -> nat
    decreases n,
{
    if n == 0 {
        register
    } else {
        reduce_step(2 * after_zero_bits(register, (n - 1) as nat, p), p)
    }
}

/// Carrying a register over `len` zero bytes is the operator of one zero bit, applied `8 * len`
/// times.
pub proof fn lemma_zero_bits_operator(value: nat, len: nat, params: CrcParams)
    requires
        valid_poly(params.poly, params.width),
        value < pow2(params.width as nat),
    ensures
        shifted(value, len, params) == params.turned(
            after_zero_bits(
                params.turned(value),
                8 * len,
                modulus(params.poly, params.width),
            ),
        ),
{
    let p = modulus(params.poly, params.width);
    lemma_modulus(params.poly, params.width);
    lemma_turned_twice(value, params);
    lemma_after_zero_bits(params.turned(value), 8 * len, p);
    lemma_mul_pow2(params.turned(value), 8 * len);
}

proof fn lemma_after_zero_bits(register: nat, n: nat, p: nat)
    requires
        p > 0,
        register < pow2(degree(p)),
    ensures
        after_zero_bits(register, n, p) == poly_rem(register * pow2(n), p),
    decreases n,
{
    if n == 0 {
        lemma_pow2_0();
        lemma_rem_small(register, p);
    } else {
        let m = (n - 1) as nat;
        lemma_after_zero_bits(register, m, p);
        lemma_shift_unfolds(register, n);
        lemma_rem_digit(register * pow2(m), 0, p);
    }
}

/// The product of the keys that the set bits of `len` select, the lowest bit selecting key `i`.
pub open spec fn selected_product(keys: CombineKeys, len: nat, i: nat) -> nat
    decreases len,
{
    if len == 0 {
        1
    } else {
        poly_mul(
            if len % 2 == 1 {
                keys.key(i as int) as nat
            } else {
                1
            },
            selected_product(keys, len / 2, i + 1),
        )
    }
}

/// `x^(8 * len)` is the product of the keys that the set bits of `len` select.
pub proof fn lemma_selected_product(keys: CombineKeys, len: u64, poly: u64, width: u8)
    requires
        valid_poly(poly, width),
        keys.valid_for(poly, width),
    ensures
        poly_rem(selected_product(keys, len as nat, 0), modulus(poly, width)) == poly_rem(
            zero_bytes(len as nat),
            modulus(poly, width),
        ),
{
    lemma_pow2_64();
    lemma_pow2_0();
    lemma_selected_product_from(keys, len as nat, 0, poly, width);
}

proof fn lemma_selected_product_from(keys: CombineKeys, len: nat, i: nat, poly: u64, width: u8)
    requires
        valid_poly(poly, width),
        keys.valid_for(poly, width),
        i <= 64,
        len < pow2((64 - i) as nat),
    ensures
        poly_rem(selected_product(keys, len, i), modulus(poly, width)) == poly_rem(
            zero_bytes(len * pow2(i)),
            modulus(poly, width),
        ),
    decreases len,
{
    let p = modulus(poly, width);
    lemma_pow2_0();
    if len > 0 {
        assert(i < 64);
        let h = len / 2;
        lemma_pow2_unfold((64 - i) as nat);
        lemma_zero_bytes_digit(len, i);
        lemma_selected_product_from(keys, h, i + 1, poly, width);
        let rest = selected_product(keys, h, i + 1);
        let share = zero_bytes(h * pow2(i + 1));
        if len % 2 == 1 {
            let one = zero_bytes(pow2(i));
            lemma_rem_mul(one, rest, p);
            lemma_rem_mul_congruent(rest, share, one, p);
        } else {
            lemma_mul_one(rest);
            lemma_mul_one(share);
        }
    } else {
        assert(0 * pow2(i) == 0);
    }
}

/// A length that is a power of two selects a single key.
pub proof fn lemma_power_of_two_selects_one_key(keys: CombineKeys, i: nat)
    requires
        i < 64,
    ensures
        selected_product(keys, pow2(i), 0) == keys.key(i as int),
{
    lemma_one_key_from(keys, i, 0);
}

proof fn lemma_one_key_from(keys: CombineKeys, i: nat, base: nat)
    ensures
        selected_product(keys, pow2(i), base) == keys.key((base + i) as int),
    decreases i,
{
    lemma_pow2_0();
    if i == 0 {
        assert(selected_product(keys, 0, base + 1) == 1);
        assert(1nat / 2 == 0 && 1nat % 2 == 1);
        lemma_mul_one(keys.key(base as int) as nat);
    } else {
        let j = (i - 1) as nat;
        lemma_pow2_unfold(i);
        lemma_one_key_from(keys, j, base + 1);
        assert(pow2(i) % 2 == 0 && pow2(i) / 2 == pow2(j));
        lemma_mul_one(selected_product(keys, pow2(j), base + 1));
    }
}

/// The first key is `x^8`, and each key is the square of the one below it.
pub proof fn lemma_keys_are_squares(keys: CombineKeys, i: int, poly: u64, width: u8)
    requires
        8 < width <= 64,
        valid_poly(poly, width),
        keys.valid_for(poly, width),
        0 <= i < 63,
    ensures
        keys.key(0) == 256,
        keys.key(i + 1) == field_mul(keys.key(i) as nat, keys.key(i) as nat, poly, width),
{
    lemma2_to64();
    lemma_modulus(poly, width);
    lemma_pow2_strictly_increases(8, width as nat);
    lemma_rem_small(256, modulus(poly, width));
    lemma_square_of_zero_bytes(i as nat, modulus(poly, width));
}

/// A polynomial has one table of keys, however it was obtained.
pub proof fn lemma_keys_unique(keys1: CombineKeys, keys2: CombineKeys, poly: u64, width: u8)
    requires
        keys1.valid_for(poly, width),
        keys2.valid_for(poly, width),
    ensures
        forall|i: int| 0 <= i < 64 ==> #[trigger] keys1.key(i) == keys2.key(i),
        keys1.mu() == keys2.mu(),
{
}

/// Parameters that differ only in what they carry along -- a name, a check value, prepared keys --
/// combine alike.
pub proof fn lemma_twins_combine_alike(
    crc1: u64,
    crc2: u64,
    len2: u64,
    params: CrcParams,
    twin: CrcParams,
    clmul: bool,
)
    requires
        params.width == twin.width,
        params.poly == twin.poly,
        params.init_algorithm == twin.init_algorithm,
        params.refin == twin.refin,
        params.xorout == twin.xorout,
    ensures
        combined(crc1, crc2, len2, params) == combined(crc1, crc2, len2, twin),
        combined_words(crc1, crc2, len2, params, clmul) == combined_words(
            crc1,
            crc2,
            len2,
            twin,
            clmul,
        ),
{
    let value = params.turned((crc1 ^ params.init_algorithm ^ params.xorout) as nat);
    lemma_twins_carry_alike(value, len2 as nat, 0, params, twin, clmul);
}

proof fn lemma_twins_carry_alike(
    acc: nat,
    len: nat,
    i: nat,
    params: CrcParams,
    twin: CrcParams,
    clmul: bool,
)
    requires
        params.width == twin.width,
        params.poly == twin.poly,
    ensures
        carried(acc, len, i, params, clmul) == carried(acc, len, i, twin, clmul),
    decreases len,
{
    if len > 0 {
        let key = poly_rem(zero_bytes(pow2(i)), modulus(params.poly, params.width));
        let next = if len % 2 == 1 {
            tier_product(acc, key, params, clmul)
        } else {
            acc
        };
        lemma_twins_carry_alike(next, len / 2, i + 1, params, twin, clmul);
    }
}

/// Combining gives the same CRC with and without a carry-less multiply.
pub proof fn lemma_tiers_agree(crc1: u64, crc2: u64, len2: u64, params: CrcParams)
    requires
        valid_poly(params.poly, params.width),
        fits(crc1, params),
    ensures
        combined_words(crc1, crc2, len2, params, true) == combined_words(
            crc1,
            crc2,
            len2,
            params,
            false,
        ),
{
    lemma_combined_words(crc1, crc2, len2, params, true);
    lemma_combined_words(crc1, crc2, len2, params, false);
}

/// Shifting is additive, keeps the width, and adds up lengths.
proof fn lemma_shifted(a: nat, b: nat, len1: nat, len2: nat, params: CrcParams)
    requires
        valid_poly(params.poly, params.width),
    ensures
        shifted(poly_add(a, b), len1, params) == poly_add(
            shifted(a, len1, params),
            shifted(b, len1, params),
        ),
        shifted(a, len1, params) < pow2(params.width as nat),
        shifted(shifted(a, len1, params), len2, params) == shifted(a, len1 + len2, params),
{
    let p = modulus(params.poly, params.width);
    let (ta, tb) = (params.turned(a), params.turned(b));
    let k1 = zero_bytes(len1);
    let k2 = zero_bytes(len2);
    lemma_turned_add(a, b, params);
    lemma_mul_add_left(ta, tb, k1);
    lemma_rem_add(poly_mul(ta, k1), poly_mul(tb, k1), p);
    let once = poly_rem(poly_mul(ta, k1), p);
    lemma_turned_add(once, poly_rem(poly_mul(tb, k1), p), params);
    lemma_field_bound(poly_mul(ta, k1), params.poly, params.width);
    lemma_turned_twice(once, params);
    lemma_rem_mul(poly_mul(ta, k1), k2, p);
    lemma_mul_associates(ta, k1, k2);
    lemma_mul_pow2(k1, 8 * len2);
    lemma_pow2_adds(8 * len1, 8 * len2);
    assert(8 * len1 + 8 * len2 == 8 * (len1 + len2));
}

/// Combining three sequences gives the same CRC in either grouping.
pub proof fn lemma_combining_associates(
    crc1: u64,
    crc2: u64,
    len2: u64,
    crc3: u64,
    len3: u64,
    left: u64,
    right: u64,
    params: CrcParams,
)
    requires
        valid_poly(params.poly, params.width),
        len2 + len3 <= u64::MAX,
        left == combined(crc1, crc2, len2, params),
        right == combined(crc2, crc3, len3, params),
    ensures
        combined(left, crc3, len3, params) == combined(
            crc1,
            right,
            (len2 + len3) as u64,
            params,
        ),
{
    let k = params.init_algorithm ^ params.xorout;
    let kn = k as nat;
    lemma_xor_regroup(crc1, params);
    lemma_xor_regroup(crc2, params);
    lemma_xor_regroup(left, params);
    let n1 = poly_add(crc1 as nat, kn);
    let n2 = poly_add(crc2 as nat, kn);
    let s = shifted(n1, len2 as nat, params);
    // (s + crc2) + k == s + (crc2 + k)
    lemma_add_associates(s, crc2 as nat, kn);
    lemma_shifted(s, n2, len3 as nat, 0, params);
    lemma_shifted(n1, 0, len2 as nat, len3 as nat, params);
    lemma_add_associates(
        shifted(n1, (len2 + len3) as nat, params),
        shifted(n2, len3 as nat, params),
        crc3 as nat,
    );
}

proof fn lemma_xor_regroup(crc: u64, params: CrcParams)
    ensures
        (crc ^ params.init_algorithm ^ params.xorout) as nat == poly_add(
            crc as nat,
            (params.init_algorithm ^ params.xorout) as nat,
        ),
{
    lemma_u64_xor(crc, params.init_algorithm);
    lemma_u64_xor(crc ^ params.init_algorithm, params.xorout);
    lemma_u64_xor(params.init_algorithm, params.xorout);
    lemma_add_associates(
        crc as nat,
        params.init_algorithm as nat,
        params.xorout as nat,
    );
}

} // verus!
