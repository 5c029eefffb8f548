//! Folding keeps the remainder of the message, and so the CRC.
use vstd::arithmetic::mul::*;
use vstd::arithmetic::power2::*;
use vstd::prelude::*;

use crate::arch::vector::{Vector128, lemma_le_value_of_bytes, lemma_message_is_reversed_bits};
use crate::bits::{
    lemma_pow2_64, lemma_pow2_ordered, lemma_reversed_add, lemma_reversed_bound, lemma_reversed_mod,
    lemma_reversed_mul, lemma_reversed_pad, lemma_reversed_split, lemma_reversed_twice, reversed,
};
use crate::checksum::{crc_from, lemma_message_bound, lemma_message_concat, message_poly};
use crate::field::{lemma_field_bound, modulus, valid_poly};
use crate::folding::{
    block_bytes, block_coefficient, coefficient, first_lanes, folded, folded_lanes, held_word,
    holds_register, key_poly, keys_fold, lane, lane_coefficient, lanes, lanes_after, message_bytes,
    multiplied, pair_folds, register_after, register_part,
};
use crate::params::CrcParams;
use crate::poly::{
    lemma_add_associates, lemma_add_bound, lemma_add_commutes, lemma_add_disjoint,
    lemma_add_exchange, lemma_add_shift, lemma_add_zero, lemma_mul_bound, lemma_mul_digit_right,
    lemma_mul_pow2, lemma_pow2_0, lemma_rem_add, lemma_rem_mul_congruent, poly_add, poly_mul,
    poly_rem,
};
use crate::register::{feed, lemma_feed_compose};
use crate::structs::CrcState;
use crate::traits::{lane_poly, turned_word};

verus! {

/// A vector of the message stands for its bytes.
pub proof fn lemma_lane_poly(v: Vector128, reflected: bool)
    ensures
        lane_poly(lane(v, reflected), reflected) == message_poly(v.bytes(), reflected),
        lane(v, reflected) < pow2(128),
{
    lemma_pow2_64();
    lemma_le_value_of_bytes(v.value(), 16);
    lemma_message_is_reversed_bits(v.bytes());
    lemma_message_bound(v.bytes(), false);
}

proof fn lemma_lane_poly_add(a: nat, b: nat, reflected: bool)
    ensures
        lane_poly(poly_add(a, b), reflected) == poly_add(
            lane_poly(a, reflected),
            lane_poly(b, reflected),
        ),
{
    lemma_reversed_add(a, b, 128);
}

/// Numbers that agree modulo `P` still agree once shifted.
proof fn lemma_rem_shift(a: nat, b: nat, k: nat, p: nat)
    requires
        p > 0,
        poly_rem(a, p) == poly_rem(b, p),
    ensures
        poly_rem(a * pow2(k), p) == poly_rem(b * pow2(k), p),
{
    lemma_rem_mul_congruent(a, b, pow2(k), p);
    lemma_mul_pow2(a, k);
    lemma_mul_pow2(b, k);
}

/// Two shifts are one.
proof fn lemma_shift_twice(a: nat, m: nat, n: nat)
    ensures
        (a * pow2(m)) * pow2(n) == a * pow2(m + n),
{
    lemma_pow2_adds(m, n);
    lemma_mul_is_associative(a as int, pow2(m) as int, pow2(n) as int);
}

/// Multiplying a half by a constant that stands for `x^k` shifts it by `k`.
proof fn lemma_half_advances(half: nat, key: nat, k: nat, p: nat)
    requires
        p > 0,
        poly_rem(key, p) == poly_rem(pow2(k), p),
    ensures
        poly_rem(poly_mul(half, key), p) == poly_rem(half * pow2(k), p),
{
    lemma_rem_mul_congruent(key, pow2(k), half, p);
    lemma_mul_pow2(half, k);
}

/// The reverse of a product of words is one place short of the product of their reverses.
proof fn lemma_reversed_product(a: nat, key: u64)
    requires
        a < pow2(64),
    ensures
        reversed(poly_mul(a, key as nat), 128) == poly_mul(reversed(a, 64), key_poly(key, true)),
{
    let k = key as nat;
    let rk = reversed(k, 64);
    let ra = reversed(a, 64);
    lemma_pow2_64();
    lemma_pow2_0();
    lemma_mul_bound(a, 64, k, 64);
    lemma_reversed_mul(a, 64, k, 64);
    lemma_reversed_pad(poly_mul(a, k), 127, 1);
    lemma_mul_digit_right(ra, rk, 0);
    lemma_add_zero(2 * poly_mul(ra, rk));
}

/// Multiplying a vector by a pair of constants moves it on by their distance, modulo `P`.
pub proof fn lemma_multiplied_advances(
    v: nat,
    high: u64,
    low: u64,
    distance: nat,
    reflected: bool,
    p: nat,
)
    requires
        p > 0,
        v < pow2(128),
        pair_folds(high, low, distance, reflected, p),
    ensures
        poly_rem(
            lane_poly(multiplied(v, coefficient(high, low, reflected)), reflected),
            p,
        ) == poly_rem(lane_poly(v, reflected) * pow2(distance), p),
        multiplied(v, coefficient(high, low, reflected)) < pow2(128),
{
    let m = pow2(64);
    let vl = v % m;
    let vh = v / m;
    let c = coefficient(high, low, reflected);
    lemma_pow2_64();
    let a = poly_mul(vl, c % m);
    let b = poly_mul(vh, c / m);
    lemma_mul_bound(vl, 64, c % m, 64);
    lemma_mul_bound(vh, 64, c / m, 64);
    lemma_add_bound(a, b, 128);
    let d = pow2(distance);
    if reflected {
        let rl = reversed(vl, 64);
        let rh = reversed(vh, 64);
        lemma_reversed_add(a, b, 128);
        lemma_reversed_product(vl, high);
        lemma_reversed_product(vh, low);
        let pa = poly_mul(rl, key_poly(high, true));
        let pb = poly_mul(rh, key_poly(low, true));
        lemma_rem_add(pa, pb, p);
        lemma_half_advances(rl, key_poly(high, true), distance + 64, p);
        lemma_half_advances(rh, key_poly(low, true), distance, p);
        // the vector itself
        lemma_reversed_split(v, 64, 64);
        lemma_reversed_mod(v, 64);
        lemma_reversed_bound(vh, 64);
        lemma_add_disjoint(rl, rh, 64);
        lemma_add_shift(rl * m, rh, distance);
        lemma_shift_twice(rl, 64, distance);
        lemma_rem_add((rl * m) * d, rh * d, p);
    } else {
        lemma_rem_add(a, b, p);
        lemma_half_advances(vl, low as nat, distance, p);
        lemma_half_advances(vh, high as nat, distance + 64, p);
        lemma_add_disjoint(vh, vl, 64);
        lemma_add_shift(vh * m, vl, distance);
        lemma_shift_twice(vh, 64, distance);
        lemma_rem_add((vh * m) * d, vl * d, p);
        lemma_add_commutes(poly_rem((vh * m) * d, p), poly_rem(vl * d, p));
    }
}

/// The first `n` lanes, each 128 bits further on in the message than the one before.
pub open spec fn joined(l: Seq<nat>, n: nat, reflected: bool) -> nat
    decreases n,
{
    if n == 0 {
        0
    } else {
        poly_add(
            joined(l, (n - 1) as nat, reflected) * pow2(128),
            lane_poly(l[n - 1], reflected),
        )
    }
}

/// The lanes of a block join to the polynomial of its bytes.
proof fn lemma_joined_block(block: Seq<Vector128>, n: nat, reflected: bool)
    requires
        n <= 8,
    ensures
        joined(lanes(block, reflected), n, reflected) == message_poly(
            block_bytes(block, n),
            reflected,
        ),
        block_bytes(block, n).len() == 16 * n,
    decreases n,
{
    if n > 0 {
        let m = (n - 1) as nat;
        let v = block[m as int];
        lemma_joined_block(block, m, reflected);
        lemma_lane_poly(v, reflected);
        lemma_message_concat(block_bytes(block, m), v.bytes(), reflected);
        lemma_message_bound(v.bytes(), reflected);
        lemma_add_disjoint(
            message_poly(block_bytes(block, m), reflected),
            message_poly(v.bytes(), reflected),
            128,
        );
    }
}

/// Folding a block into the lanes moves what they join to on by a block, and adds the block.
proof fn lemma_joined_fold(
    before: Seq<nat>,
    block: Seq<nat>,
    after: Seq<nat>,
    keys: Seq<u64>,
    n: nat,
    reflected: bool,
    p: nat,
)
    requires
        p > 0,
        n <= 8,
        before.len() == 8,
        block.len() == 8,
        after.len() == 8,
        forall|i: int| 0 <= i < 8 ==> #[trigger] before[i] < pow2(128),
        forall|i: int|
            0 <= i < 8 ==> #[trigger] after[i] == poly_add(
                multiplied(before[i], block_coefficient(keys, reflected)),
                block[i],
            ),
        pair_folds(keys[4], keys[3], 1024, reflected, p),
    ensures
        poly_rem(joined(after, n, reflected), p) == poly_rem(
            poly_add(
                joined(before, n, reflected) * pow2(1024),
                joined(block, n, reflected),
            ),
            p,
        ),
    decreases n,
{
    let d = pow2(1024);
    if n == 0 {
        lemma_mul_basics(d as int);
        lemma_add_zero(0);
    } else {
        let i = n - 1;
        let m = i as nat;
        let k = pow2(128);
        lemma_joined_fold(before, block, after, keys, m, reflected, p);
        let ja = joined(after, m, reflected);
        let jb = joined(before, m, reflected);
        let jc = joined(block, m, reflected);
        let lb = lane_poly(before[i], reflected);
        let lc = lane_poly(block[i], reflected);
        let t = multiplied(before[i], block_coefficient(keys, reflected));
        let lt = lane_poly(t, reflected);
        lemma_multiplied_advances(before[i], keys[4], keys[3], 1024, reflected, p);
        assert(after[i] == poly_add(t, block[i]));
        lemma_lane_poly_add(t, block[i], reflected);
        // the lanes before this one
        let sum = poly_add(jb * d, jc);
        lemma_rem_shift(ja, sum, 128, p);
        lemma_add_shift(jb * d, jc, 128);
        // this lane
        lemma_rem_add(lt, lc, p);
        lemma_rem_add(lb * d, lc, p);
        assert(poly_rem(poly_add(lt, lc), p) == poly_rem(poly_add(lb * d, lc), p));
        // together
        lemma_rem_add(ja * k, poly_add(lt, lc), p);
        lemma_rem_add(sum * k, poly_add(lb * d, lc), p);
        lemma_add_exchange((jb * d) * k, jc * k, lb * d, lc);
        lemma_shift_twice(jb, 1024, 128);
        lemma_shift_twice(jb, 128, 1024);
        lemma_add_shift(jb * k, lb, 1024);
    }
}

/// The lanes stay within 128 bits.
proof fn lemma_lanes_bound(
    start: Seq<nat>,
    rest: Seq<[Vector128; 8]>,
    keys: Seq<u64>,
    reflected: bool,
    p: nat,
)
    requires
        p > 0,
        start.len() == 8,
        forall|i: int| 0 <= i < 8 ==> #[trigger] start[i] < pow2(128),
        pair_folds(keys[4], keys[3], 1024, reflected, p),
    ensures
        lanes_after(start, rest, keys, reflected).len() == 8,
        forall|i: int|
            0 <= i < 8 ==> #[trigger] lanes_after(start, rest, keys, reflected)[i] < pow2(128),
    decreases rest.len(),
{
    if rest.len() > 0 {
        let front = rest.drop_last();
        let before = lanes_after(start, front, keys, reflected);
        let after = lanes_after(start, rest, keys, reflected);
        let block = rest.last()@;
        lemma_lanes_bound(start, front, keys, reflected, p);
        assert forall|i: int| 0 <= i < 8 implies #[trigger] after[i] < pow2(128) by {
            assert(before[i] < pow2(128));
            lemma_multiplied_advances(before[i], keys[4], keys[3], 1024, reflected, p);
            lemma_lane_poly(block[i], reflected);
            lemma_add_bound(
                multiplied(before[i], block_coefficient(keys, reflected)),
                lane(block[i], reflected),
                128,
            );
        }
    }
}

/// What the lanes join to once every block is folded in: what they joined to at the start, moved
/// on, and the message of the blocks after the first.
proof fn lemma_joined_lanes_after(
    head: nat,
    start: Seq<nat>,
    first: Seq<Vector128>,
    rest: Seq<[Vector128; 8]>,
    keys: Seq<u64>,
    reflected: bool,
    p: nat,
)
    requires
        p > 0,
        start.len() == 8,
        forall|i: int| 0 <= i < 8 ==> #[trigger] start[i] < pow2(128),
        keys_fold(keys, reflected, p),
        joined(start, 8, reflected) == poly_add(
            head,
            message_poly(block_bytes(first, 8), reflected),
        ),
    ensures
        poly_rem(joined(lanes_after(start, rest, keys, reflected), 8, reflected), p) == poly_rem(
            poly_add(
                head * pow2(1024 * rest.len()),
                message_poly(message_bytes(first, rest), reflected),
            ),
            p,
        ),
        message_bytes(first, rest).len() == 128 * (1 + rest.len()),
    decreases rest.len(),
{
    lemma_joined_block(first, 8, reflected);
    if rest.len() == 0 {
        lemma_pow2_0();
    } else {
        let front = rest.drop_last();
        let r = front.len();
        let before = lanes_after(start, front, keys, reflected);
        let after = lanes_after(start, rest, keys, reflected);
        let block = lanes(rest.last()@, reflected);
        let d = pow2(1024);
        lemma_joined_lanes_after(head, start, first, front, keys, reflected, p);
        lemma_lanes_bound(start, front, keys, reflected, p);
        lemma_joined_fold(before, block, after, keys, 8, reflected, p);
        lemma_joined_block(rest.last()@, 8, reflected);
        let mf = message_poly(message_bytes(first, front), reflected);
        let bytes = block_bytes(rest.last()@, 8);
        let ml = message_poly(bytes, reflected);
        lemma_message_concat(message_bytes(first, front), bytes, reflected);
        lemma_message_bound(bytes, reflected);
        assert(8 * bytes.len() == 1024);
        lemma_add_disjoint(mf, ml, 1024);
        // moving on what was there
        let jb = joined(before, 8, reflected);
        let shifted_head = head * pow2(1024 * r);
        lemma_rem_shift(jb, poly_add(shifted_head, mf), 1024, p);
        lemma_add_shift(shifted_head, mf, 1024);
        lemma_shift_twice(head, 1024 * r, 1024);
        assert(1024 * r + 1024 == 1024 * rest.len());
        lemma_rem_add(jb * d, ml, p);
        lemma_rem_add(poly_add(shifted_head * d, mf * d), ml, p);
        lemma_add_associates(shifted_head * d, mf * d, ml);
    }
}

/// Folding the first `n` lanes onto the last one.
proof fn lemma_folded_lanes(l: Seq<nat>, keys: Seq<u64>, n: nat, reflected: bool, p: nat)
    requires
        p > 0,
        n <= 7,
        l.len() == 8,
        forall|i: int| 0 <= i < 8 ==> #[trigger] l[i] < pow2(128),
        keys_fold(keys, reflected, p),
    ensures
        poly_rem(lane_poly(folded_lanes(l, keys, n, reflected), reflected), p) == poly_rem(
            poly_add(
                joined(l, n, reflected) * pow2((128 * (8 - n)) as nat),
                lane_poly(l[7], reflected),
            ),
            p,
        ),
    decreases n,
{
    let last = lane_poly(l[7], reflected);
    if n == 0 {
        lemma_mul_basics(pow2(1024) as int);
        lemma_add_zero(last);
    } else {
        let i = n - 1;
        let m = i as nat;
        let distance = (128 * (7 - i)) as nat;
        let d = pow2(distance);
        lemma_folded_lanes(l, keys, m, reflected, p);
        let below = folded_lanes(l, keys, m, reflected);
        let t = multiplied(l[i], lane_coefficient(keys, i, reflected));
        assert(l[i] < pow2(128));
        if i < 6 {
            let high = keys[10 + 2 * i];
            lemma_multiplied_advances(l[i], high, keys[9 + 2 * i], distance, reflected, p);
        } else {
            lemma_multiplied_advances(l[i], keys[2], keys[1], distance, reflected, p);
        }
        lemma_lane_poly_add(t, below, reflected);
        let li = lane_poly(l[i], reflected);
        let j = joined(l, m, reflected);
        let k = pow2((128 * (8 - m)) as nat);
        assert((128 * (8 - m)) as nat == 128 + distance);
        assert((128 * (8 - n)) as nat == distance);
        let rest = poly_add(j * k, last);
        lemma_rem_add(lane_poly(t, reflected), lane_poly(below, reflected), p);
        lemma_rem_add(li * d, rest, p);
        // regroup: li * d + (j * k + last) == (j * x^128 + li) * d + last
        lemma_add_associates(li * d, j * k, last);
        lemma_add_commutes(li * d, j * k);
        lemma_shift_twice(j, 128, distance);
        lemma_add_shift(j * pow2(128), li, distance);
    }
}

/// A register added over the first lane.
proof fn lemma_joined_first(l: Seq<nat>, part: nat, n: nat, reflected: bool)
    requires
        l.len() == 8,
        1 <= n <= 8,
    ensures
        joined(l.update(0, poly_add(part, l[0])), n, reflected) == poly_add(
            lane_poly(part, reflected) * pow2((128 * (n - 1)) as nat),
            joined(l, n, reflected),
        ),
    decreases n,
{
    let u = l.update(0, poly_add(part, l[0]));
    let lp = lane_poly(part, reflected);
    lemma_pow2_0();
    if n == 1 {
        assert(joined(l, 0, reflected) == 0 && joined(u, 0, reflected) == 0);
        lemma_mul_basics(pow2(128) as int);
        lemma_lane_poly_add(part, l[0], reflected);
        lemma_add_zero(lane_poly(u[0], reflected));
        lemma_add_zero(lane_poly(l[0], reflected));
    } else {
        let m = (n - 1) as nat;
        lemma_joined_first(l, part, m, reflected);
        let e = (128 * (m - 1)) as nat;
        lemma_add_shift(lp * pow2(e), joined(l, m, reflected), 128);
        lemma_shift_twice(lp, e, 128);
        assert(e + 128 == (128 * (n - 1)) as nat);
        lemma_add_associates(
            lp * pow2(e + 128),
            joined(l, m, reflected) * pow2(128),
            lane_poly(l[m as int], reflected),
        );
    }
}

/// A register that the state holds stands for its value, as far up in a vector as it is wide.
proof fn lemma_register_part(state: CrcState, width: u8)
    requires
        1 <= width <= 64,
        holds_register(state, width),
    ensures
        lane_poly(register_part(state.value.value(), state.reflected), state.reflected)
            == turned_word(held_word(state, width), state.reflected, width) * pow2(
            (128 - width) as nat,
        ),
        register_part(state.value.value(), state.reflected) < pow2(128),
{
    let w = width as nat;
    let value = state.value.value();
    let word = held_word(state, width);
    let k = (128 - w) as nat;
    lemma_pow2_64();
    lemma_pow2_ordered(w, 64);
    if state.reflected {
        lemma_reversed_pad(word, w, k);
    } else {
        let h = (64 - w) as nat;
        lemma_shift_twice(word, h, 64);
        assert(h + 64 == k);
    }
}

/// Folding a register and the blocks after it, and reducing what they fold into, leaves the
/// register that the bytes of the blocks leave when they are fed one by one.
pub proof fn lemma_folding_keeps_register(
    state: CrcState,
    first: Seq<Vector128>,
    rest: Seq<[Vector128; 8]>,
    keys: Seq<u64>,
    poly: u64,
    width: u8,
)
    requires
        valid_poly(poly, width),
        holds_register(state, width),
        keys_fold(keys, state.reflected, modulus(poly, width)),
    ensures
        feed(
            0,
            lane_poly(
                folded(state.value.value(), first, rest, keys, state.reflected),
                state.reflected,
            ),
            128,
            poly,
            width,
        ) == feed(
            turned_word(held_word(state, width), state.reflected, width),
            message_poly(message_bytes(first, rest), state.reflected),
            8 * message_bytes(first, rest).len(),
            poly,
            width,
        ),
{
    let reflected = state.reflected;
    let p = modulus(poly, width);
    let w = width as nat;
    let part = register_part(state.value.value(), reflected);
    let t = turned_word(held_word(state, width), reflected, width);
    let l = lanes(first, reflected);
    let start = first_lanes(state.value.value(), first, reflected);
    lemma_register_part(state, width);
    // the lanes at the start
    assert forall|i: int| 0 <= i < 8 implies #[trigger] start[i] < pow2(128) by {
        lemma_lane_poly(first[i], reflected);
        if i == 0 {
            lemma_add_bound(part, l[0], 128);
        }
    }
    lemma_joined_first(l, part, 8, reflected);
    lemma_joined_block(first, 8, reflected);
    let head = lane_poly(part, reflected) * pow2(896);
    lemma_joined_lanes_after(head, start, first, rest, keys, reflected, p);
    lemma_lanes_bound(start, rest, keys, reflected, p);
    // the lanes at the end, folded into one
    let end = lanes_after(start, rest, keys, reflected);
    lemma_folded_lanes(end, keys, 7, reflected, p);
    assert(joined(end, 8, reflected) == poly_add(
        joined(end, 7, reflected) * pow2(128),
        lane_poly(end[7], reflected),
    ));
    // the final reduction multiplies by x^width
    let v = lane_poly(folded_lanes(end, keys, 7, reflected), reflected);
    let message = message_bytes(first, rest);
    let mp = message_poly(message, reflected);
    let r = rest.len();
    let moved = head * pow2(1024 * r);
    lemma_rem_shift(v, poly_add(moved, mp), w, p);
    lemma_add_shift(moved, mp, w);
    lemma_shift_twice(t, (128 - w) as nat, 896);
    lemma_shift_twice(t, (128 - w) as nat + 896, 1024 * r);
    lemma_shift_twice(t, (128 - w) as nat + 896 + 1024 * r, w);
    lemma_add_zero(v * pow2(w));
}

/// Two messages one after the other leave the register that their concatenation leaves.
pub proof fn lemma_register_after_concat(
    word: nat,
    a: Seq<u8>,
    b: Seq<u8>,
    reflected: bool,
    poly: u64,
    width: u8,
)
    requires
        valid_poly(poly, width),
    ensures
        register_after(
            register_after(word, a, reflected, poly, width),
            b,
            reflected,
            poly,
            width,
        ) == register_after(word, a + b, reflected, poly, width),
{
    let w = width as nat;
    let start = turned_word(word, reflected, width);
    let ma = message_poly(a, reflected);
    let mb = message_poly(b, reflected);
    let mid = feed(start, ma, 8 * a.len(), poly, width);
    lemma_field_bound(
        poly_add(start * pow2(8 * a.len()), ma * pow2(w)),
        poly,
        width,
    );
    lemma_reversed_twice(mid, w);
    lemma_message_bound(b, reflected);
    lemma_message_concat(a, b, reflected);
    lemma_feed_compose(start, ma, 8 * a.len(), mb, 8 * b.len(), poly, width);
    assert(8 * a.len() + 8 * b.len() == 8 * (a + b).len());
}

/// The CRC of a message is the register that it leaves, with the final exclusive-or.
pub proof fn lemma_register_gives_crc(start: u64, bytes: Seq<u8>, params: CrcParams)
    ensures
        crc_from(start, bytes, params) == poly_add(
            register_after(start as nat, bytes, params.refin, params.poly, params.width),
            params.xorout as nat,
        ),
{
}

} // verus!
