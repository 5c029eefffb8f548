//! The definitions of sums, reversals and messages, one coefficient at a time.
use vstd::arithmetic::div_mod::*;
use vstd::arithmetic::mul::*;
use vstd::arithmetic::power2::*;
use vstd::prelude::*;

use crate::bits::{lemma_reversed_bound, lemma_reversed_digit, lemma_reversed_split, reversed};
use crate::checksum::{
    byte_poly, lemma_byte_poly_bound, lemma_message_bound, lemma_message_concat, message_poly,
};
use crate::poly::{lemma_add_div_mod, lemma_add_halves, lemma_join_at, lemma_split_at, poly_add};

verus! {

/// The coefficient of `x^i`.
pub open spec fn digit(a: nat, i: nat) -> nat {
    (a / pow2(i)) % 2
}

/// Coefficients are added modulo two.
pub proof fn lemma_sum_digit(a: nat, b: nat, i: nat)
    ensures
        digit(poly_add(a, b), i) == (digit(a, i) + digit(b, i)) % 2,
{
    lemma_pow2_pos(i);
    lemma_add_div_mod(a, b, i);
    lemma_add_halves(a / pow2(i), b / pow2(i));
}

/// Reversal exchanges the first coefficient with the last, the second with the last but one, and
/// so on.
pub proof fn lemma_reversal_digit(v: nat, n: nat, i: nat)
    requires
        i < n,
    ensures
        digit(reversed(v, n), i) == digit(v, (n - 1 - i) as nat),
        reversed(v, n) < pow2(n),
{
    let m = (n - 1 - i) as nat;
    let rest = v / pow2(m + 1);
    lemma_reversed_bound(v, n);
    lemma_reversed_split(v, m + 1, i);
    lemma_reversed_bound(rest, i);
    lemma_join_at(reversed(v, m + 1), reversed(rest, i), i);
    lemma_reversed_split(v, m, 1);
    lemma2_to64();
    lemma_pow2_pos(m);
    let top = v / pow2(m);
    lemma_reversed_digit(top, 0);
    lemma_reversed_digit(top / 2, 0);
    lemma_mul_basics((top % 2) as int);
}

/// Digits above a place do not depend on what is added below it, nor those below on what is above.
pub proof fn lemma_joined_digit(high: nat, low: nat, k: nat, i: nat)
    requires
        low < pow2(k),
    ensures
        digit(high * pow2(k) + low, k + i) == digit(high, i),
        i < k ==> digit(high * pow2(k) + low, i) == digit(low, i),
{
    let v = high * pow2(k) + low;
    lemma_join_at(high, low, k);
    lemma_pow2_adds(k, i);
    lemma_pow2_pos(k);
    lemma_pow2_pos(i);
    lemma_div_denominator(v as int, pow2(k) as int, pow2(i) as int);
    if i < k {
        let j = (k - 1 - i) as nat;
        lemma_pow2_adds(i, j + 1);
        lemma_pow2_unfold(j + 1);
        let (e, f) = (pow2(i), pow2(j));
        let half = high * f;
        let top = 2 * half;
        assert(high * pow2(k) == top * e) by (nonlinear_arith)
            requires
                pow2(k) == e * (2 * f),
                top == 2 * half,
                half == high * f,
        ;
        lemma_split_at(low, i);
        assert(v == (top + low / e) * e + low % e) by (nonlinear_arith)
            requires
                v == top * e + low,
                low == (low / e) * e + low % e,
        ;
        lemma_join_at(top + low / e, low % e, i);
        let below = low / e;
        assert((2 * half + below) % 2 == below % 2);
    }
}

/// The bits of a message in the order of transmission: those of the first byte have the highest
/// powers of `x`, and within a byte the most significant bit leads, or the least significant one
/// for reflected CRCs.
pub proof fn lemma_message_digit(bytes: Seq<u8>, reflected: bool, j: int, b: nat)
    requires
        0 <= j < bytes.len(),
        b < 8,
    ensures
        message_poly(bytes, reflected) < pow2(8 * bytes.len()),
        digit(message_poly(bytes, reflected), (8 * (bytes.len() - 1 - j) + b) as nat) == digit(
            bytes[j] as nat,
            if reflected {
                (7 - b) as nat
            } else {
                b
            },
        ),
{
    let head = bytes.take(j + 1);
    let tail = bytes.skip(j + 1);
    let s = 8 * tail.len();
    lemma_message_bound(bytes, reflected);
    lemma_message_bound(tail, reflected);
    assert(head + tail =~= bytes);
    lemma_message_concat(head, tail, reflected);
    lemma_joined_digit(message_poly(head, reflected), message_poly(tail, reflected), s, b);
    assert(head.drop_last() =~= bytes.take(j));
    let byte = byte_poly(bytes[j], reflected);
    lemma_byte_poly_bound(bytes[j], reflected);
    lemma_joined_digit(message_poly(bytes.take(j), reflected), byte, 8, b);
    if reflected {
        lemma_reversal_digit(bytes[j] as nat, 8, b);
    }
    assert((8 * (bytes.len() - 1 - j) + b) as nat == s + b);
}

} // verus!
