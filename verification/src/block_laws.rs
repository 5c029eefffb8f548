//! What processing blocks does to a register, in terms of the memory that the blocks lie in.
use vstd::arithmetic::div_mod::*;
use vstd::arithmetic::mul::*;
use vstd::arithmetic::power2::*;
use vstd::bits::*;
use vstd::prelude::*;

use crate::arch::avx2_vpclmulqdq::X86_64Avx2VpclmulqdqOps;
use crate::arch::vector::{
    Vector128, bytes_of, lemma_bytes_of_le_value, lemma_le_value_of_bytes, lemma_memory_byte,
    lemma_message_is_reversed_value, memory_byte,
};
use crate::bits::{
    lemma_pow2_64, lemma_pow2_ordered, lemma_reversed_bound, lemma_reversed_digit,
    lemma_reversed_twice, lemma_u128_xor, lemma_u64_xor, reversed,
};
use crate::checksum::{checksum_with_params, crc_from};
use crate::field::{lemma_field_bound, lemma_modulus, modulus, valid_poly};
use crate::fold_laws::{lemma_folding_keeps_register, lemma_lane_poly, lemma_register_gives_crc};
use crate::folding::{
    block_bytes, blocks_processed, first_lanes, folded, held_word, holds_register, keys_fold, lane,
    message_bytes, pair_folds, register_after,
};
use crate::params::CrcParams;
use crate::poly::{
    lemma_add_cancels, lemma_add_zero, lemma_join_at, lemma_rem_digit, lemma_rem_small, poly_rem,
};
use crate::structs::CrcState;
use crate::traits::{EnhancedCrcWidth, poly_of_key};

verus! {

/// The bytes of a block follow each other as its vectors do.
proof fn lemma_block_memory(block: Seq<Vector128>, n: nat, j: int, i: int)
    requires
        n <= 8,
        0 <= i < 16,
    ensures
        block_bytes(block, n).len() == 16 * n,
        0 <= j < n ==> block_bytes(block, n)[16 * j + i] == memory_byte(block[j], i),
    decreases n,
{
    if n > 0 {
        lemma_block_memory(block, (n - 1) as nat, j, i);
        lemma_memory_byte(block[n - 1], i);
    }
}

/// The message that block processing is stated over is the memory of the blocks in order.
///
/// Byte `i` of vector `j` of block `k` is byte `128 * k + 16 * j + i` of the message, where block 0
/// is `first` and block `k` is `rest[k - 1]`; and there are no other bytes.
pub proof fn lemma_message_is_memory(
    first: Seq<Vector128>,
    rest: Seq<[Vector128; 8]>,
    k: int,
    j: int,
    i: int,
)
    requires
        0 <= k <= rest.len(),
        0 <= j < 8,
        0 <= i < 16,
    ensures
        message_bytes(first, rest).len() == 128 * (1 + rest.len()),
        message_bytes(first, rest)[128 * k + 16 * j + i] == memory_byte(
            if k == 0 {
                first[j]
            } else {
                rest[k - 1]@[j]
            },
            i,
        ),
    decreases rest.len(),
{
    if rest.len() == 0 {
        lemma_block_memory(first, 8, j, i);
    } else {
        let front = rest.drop_last();
        lemma_block_memory(rest.last()@, 8, j, i);
        if k < rest.len() {
            lemma_message_is_memory(first, front, k, j, i);
        } else {
            lemma_message_is_memory(first, front, 0, j, i);
        }
    }
}

/// Bytes that stand as the blocks do are the message.
proof fn lemma_memory_is_message(
    first: Seq<Vector128>,
    rest: Seq<[Vector128; 8]>,
    memory: Seq<u8>,
)
    requires
        memory.len() == 128 * (1 + rest.len()),
        forall|k: int, j: int, i: int|
            0 <= k <= rest.len() && 0 <= j < 8 && 0 <= i < 16 ==> #[trigger] memory[128 * k + 16 * j
                + i] == memory_byte(
                if k == 0 {
                    first[j]
                } else {
                    rest[k - 1]@[j]
                },
                i,
            ),
    ensures
        message_bytes(first, rest) == memory,
{
    let m = message_bytes(first, rest);
    lemma_message_is_memory(first, rest, 0, 0, 0);
    assert forall|n: int| 0 <= n < m.len() implies m[n] == memory[n] by {
        let k = n / 128;
        let j = (n % 128) / 16;
        let i = n % 16;
        assert(n == 128 * k + 16 * j + i);
        assert(memory[128 * k + 16 * j + i] == memory[n]);
        lemma_message_is_memory(first, rest, k, j, i);
    }
    assert(m =~= memory);
}

/// The constant of a folding table for `x^n`: `x^n mod P`, and for a reflected CRC `x^(n-1) mod P`
/// with the 64 bits of its word reversed.
pub open spec fn fold_constant(n: nat, reflected: bool, poly: u64, width: u8) -> nat {
    if reflected {
        reversed(poly_rem(pow2((n - 1) as nat), modulus(poly, width)), 64)
    } else {
        poly_rem(pow2(n), modulus(poly, width))
    }
}

/// Two neighbouring entries fold over `distance` bits.
pub open spec fn holds_pair(
    keys: Seq<u64>,
    at: int,
    distance: nat,
    reflected: bool,
    poly: u64,
    width: u8,
) -> bool {
    &&& keys[at] == fold_constant(distance, reflected, poly, width)
    &&& keys[at + 1] == fold_constant(distance + 64, reflected, poly, width)
}

/// The folding table of `P`.
///
/// Entry 8 holds `P`, cut to 64 bits: as it is for forward CRCs, and with its `width + 1` bits
/// reversed for reflected ones. A reflected 64-bit polynomial has a constant term.
pub open spec fn table_of(keys: Seq<u64>, reflected: bool, poly: u64, width: u8) -> bool {
    &&& holds_pair(keys, 1, 128, reflected, poly, width)
    &&& holds_pair(keys, 3, 1024, reflected, poly, width)
    &&& holds_pair(keys, 9, 896, reflected, poly, width)
    &&& holds_pair(keys, 11, 768, reflected, poly, width)
    &&& holds_pair(keys, 13, 640, reflected, poly, width)
    &&& holds_pair(keys, 15, 512, reflected, poly, width)
    &&& holds_pair(keys, 17, 384, reflected, poly, width)
    &&& holds_pair(keys, 19, 256, reflected, poly, width)
    &&& if reflected {
        &&& keys[8] == (2 * reversed(poly as nat, width as nat) + 1) % pow2(64)
        &&& width == 64 ==> poly % 2 == 1
    } else {
        keys[8] == modulus(poly, width) % pow2(64)
    }
}

proof fn lemma_pair_folds(
    keys: Seq<u64>,
    at: int,
    distance: nat,
    reflected: bool,
    poly: u64,
    width: u8,
)
    requires
        valid_poly(poly, width),
        distance > 0,
        holds_pair(keys, at, distance, reflected, poly, width),
    ensures
        pair_folds(keys[at + 1], keys[at], distance, reflected, modulus(poly, width)),
{
    lemma_constant(distance, reflected, poly, width);
    lemma_constant(distance + 64, reflected, poly, width);
}

proof fn lemma_constant(n: nat, reflected: bool, poly: u64, width: u8)
    requires
        valid_poly(poly, width),
        n > 0,
    ensures
        ({
            let key = fold_constant(n, reflected, poly, width);
            let value = if reflected {
                2 * reversed(key, 64)
            } else {
                key
            };
            poly_rem(value, modulus(poly, width)) == poly_rem(pow2(n), modulus(poly, width))
        }),
{
    let p = modulus(poly, width);
    lemma_modulus(poly, width);
    if reflected {
        let x = pow2((n - 1) as nat);
        let r = poly_rem(x, p);
        lemma_field_bound(x, poly, width);
        lemma_reversed_twice(r, 64);
        lemma_rem_small(r, p);
        lemma_rem_digit(r, 0, p);
        lemma_rem_digit(x, 0, p);
        lemma_pow2_unfold(n);
    } else {
        lemma_field_bound(pow2(n), poly, width);
        lemma_rem_small(poly_rem(pow2(n), p), p);
    }
}

/// The table of a polynomial holds the constants that folding needs, and names the polynomial.
pub proof fn lemma_table_folds(keys: Seq<u64>, reflected: bool, poly: u64, width: u8)
    requires
        valid_poly(poly, width),
        table_of(keys, reflected, poly, width),
    ensures
        keys_fold(keys, reflected, modulus(poly, width)),
        poly_of_key(keys[8], reflected, width) == poly,
{
    let w = width as nat;
    let p = modulus(poly, width);
    lemma_pair_folds(keys, 1, 128, reflected, poly, width);
    lemma_pair_folds(keys, 3, 1024, reflected, poly, width);
    lemma_pair_folds(keys, 9, 896, reflected, poly, width);
    lemma_pair_folds(keys, 11, 768, reflected, poly, width);
    lemma_pair_folds(keys, 13, 640, reflected, poly, width);
    lemma_pair_folds(keys, 15, 512, reflected, poly, width);
    lemma_pair_folds(keys, 17, 384, reflected, poly, width);
    lemma_pair_folds(keys, 19, 256, reflected, poly, width);
    assert forall|i: int| 0 <= i < 6 implies pair_folds(
        #[trigger] keys[10 + 2 * i],
        keys[9 + 2 * i],
        (128 * (7 - i)) as nat,
        reflected,
        p,
    ) by {
        assert(i == 0 || i == 1 || i == 2 || i == 3 || i == 4 || i == 5);
    }
    lemma_pow2_64();
    lemma_pow2_ordered(w, 64);
    let r = reversed(poly as nat, w);
    lemma_reversed_bound(poly as nat, w);
    lemma_reversed_twice(poly as nat, w);
    lemma2_to64_rest();
    if reflected {
        if width < 64 {
            lemma_pow2_ordered(w, 63);
            lemma_small_mod(2 * r + 1, pow2(64));
        } else {
            lemma_reversed_digit(poly as nat, 63);
            lemma_reversed_bound(poly as nat / 2, 63);
            lemma_mul_basics(pow2(63) as int);
            lemma_fundamental_div_mod_converse(
                (2 * r + 1) as int,
                pow2(64) as int,
                1,
                2 * r + 1 - pow2(64),
            );
        }
    } else {
        lemma_small_mod(poly as nat, pow2(w));
        if width < 64 {
            lemma_pow2_ordered(w, 63);
            lemma_small_mod(p, pow2(64));
        }
        lemma_fundamental_div_mod_converse(p as int, pow2(w) as int, 1, poly as int);
    }
}

/// A register stands in the low bits of a state for reflected CRCs, and in the high bits for
/// forward ones.
pub open spec fn register_in(state: CrcState, word: nat, width: u8) -> bool {
    state.value.0 as nat == if state.reflected {
        word
    } else {
        word * pow2((128 - width) as nat)
    }
}

/// Every register can be held, and is the one that is read back.
pub proof fn lemma_register_in(state: CrcState, word: nat, width: u8)
    requires
        1 <= width <= 64,
        word < pow2(width as nat),
        register_in(state, word, width),
    ensures
        holds_register(state, width),
        held_word(state, width) == word,
{
    let k = (128 - width) as nat;
    lemma_pow2_pos(k);
    lemma_join_at(word, 0, k);
}

/// Processing blocks leaves the CRC of their memory.
///
/// A state that holds the initial register, and a table of the polynomial: after the blocks, the
/// state holds what the checksum of their bytes is before its final exclusive-or. The bytes are
/// those of `first`, followed by those of every block of `rest` in order.
pub proof fn lemma_blocks_give_checksum(
    before: CrcState,
    after: CrcState,
    first: Seq<Vector128>,
    rest: Seq<[Vector128; 8]>,
    keys: Seq<u64>,
    params: CrcParams,
    memory: &[u8],
    crc: u64,
)
    requires
        params.well_formed(),
        before.reflected == params.refin,
        register_in(before, params.init as nat, params.width),
        table_of(keys, params.refin, params.poly, params.width),
        blocks_processed(before, after, first, rest, keys, params.width),
        memory@.len() == 128 * (1 + rest.len()),
        forall|k: int, j: int, i: int|
            0 <= k <= rest.len() && 0 <= j < 8 && 0 <= i < 16 ==> #[trigger] memory@[128 * k + 16
                * j + i] == memory_byte(
                if k == 0 {
                    first[j]
                } else {
                    rest[k - 1]@[j]
                },
                i,
            ),
        call_ensures(checksum_with_params, (params, memory), crc),
    ensures
        after.reflected == params.refin,
        register_in(after, (crc ^ params.xorout) as nat, params.width),
{
    let m = message_bytes(first, rest);
    lemma_memory_is_message(first, rest, memory@);
    lemma_table_folds(keys, params.refin, params.poly, params.width);
    lemma_register_in(before, params.init as nat, params.width);
    let register = register_after(params.init as nat, m, params.refin, params.poly, params.width);
    lemma_register_gives_crc(params.init, m, params);
    assert(crc == crc_from(params.init, m, params));
    lemma_u64_xor(crc, params.xorout);
    lemma_add_cancels(register, params.xorout as nat);
}

proof fn lemma_xor_byte(a: u128, b: u128, i: int)
    requires
        0 <= i < 16,
    ensures
        memory_byte(Vector128(a ^ b), i) == memory_byte(Vector128(a), i) ^ memory_byte(
            Vector128(b),
            i,
        ),
{
    let k = i as u128;
    assert((((a ^ b) >> ((8 * k) as u128)) % 256) as u8 == (((a >> ((8 * k) as u128)) % 256) as u8)
        ^ (((b >> ((8 * k) as u128)) % 256) as u8)) by (bit_vector)
        requires
            k < 16,
    ;
}

proof fn lemma_half_bytes(a: u128, i: int)
    requires
        0 <= i < 16,
    ensures
        memory_byte(Vector128(a & 0xffff_ffff_ffff_ffff), i) == if i < 8 {
            memory_byte(Vector128(a), i)
        } else {
            0
        },
        memory_byte(Vector128((a >> 64) << 64), i) == if i < 8 {
            0
        } else {
            memory_byte(Vector128(a), i)
        },
        (a & 0xffff_ffff_ffff_ffff) as nat == a as nat % pow2(64),
        ((a >> 64) << 64) as nat == (a as nat / pow2(64)) * pow2(64),
{
    let k = i as u128;
    let shift = (8 * k) as u128;
    lemma_pow2_64();
    assert(((a & 0xffff_ffff_ffff_ffff) >> shift) % 256 == (if k < 8 {
        (a >> shift) % 256
    } else {
        0
    }) && (((a >> 64) << 64) >> shift) % 256 == (if k < 8 {
        0
    } else {
        (a >> shift) % 256
    }) && a & 0xffff_ffff_ffff_ffff == a % 0x1_0000_0000_0000_0000 && (a >> 64) << 64 == (a
        / 0x1_0000_0000_0000_0000) * 0x1_0000_0000_0000_0000) by (bit_vector)
        requires
            k < 16,
            shift == 8 * k,
    ;
}

/// A register meets the first eight bytes of the message.
///
/// Folding with a state is folding with an empty one over blocks whose first bytes have the state
/// added: its low half for reflected CRCs, in memory order, and its high half for forward ones,
/// the most significant byte first. The other half has no part in it. That holds of any state and
/// any table.
pub proof fn lemma_state_meets_first_bytes(
    state: Vector128,
    first: Seq<Vector128>,
    met: Seq<Vector128>,
    rest: Seq<[Vector128; 8]>,
    keys: Seq<u64>,
    reflected: bool,
)
    requires
        first.len() == 8,
        met.len() == 8,
        forall|j: int| 1 <= j < 8 ==> met[j] == first[j],
        forall|i: int|
            0 <= i < 16 ==> #[trigger] memory_byte(met[0], i) == memory_byte(first[0], i) ^ (if i
                < 8 {
                memory_byte(
                    state,
                    if reflected {
                        i
                    } else {
                        15 - i
                    },
                )
            } else {
                0
            }),
    ensures
        folded(state.0 as nat, first, rest, keys, reflected) == folded(
            0,
            met,
            rest,
            keys,
            reflected,
        ),
{
    let a = state.0;
    let old_lane = lane(first[0], reflected);
    let new_lane = lane(met[0], reflected);
    let part: u128 = if reflected { a & 0xffff_ffff_ffff_ffff } else { (a >> 64) << 64 };
    lemma_lane_poly(first[0], reflected);
    lemma_lane_poly(met[0], reflected);
    lemma_pow2_64();
    let word = old_lane as u128;
    let sum = Vector128(part ^ word);
    lemma_u128_xor(part, word);
    lemma_half_bytes(a, 0);
    // the bytes of the sum are those of the lane that the state has met
    assert forall|i: int| 0 <= i < 16 implies #[trigger] sum.bytes()[i] == bytes_of(
        new_lane,
        16,
    )[i] by {
        lemma_memory_byte(sum, i);
        lemma_xor_byte(part, word, i);
        lemma_half_bytes(a, i);
        lemma_memory_byte(Vector128(word), i);
        lemma_lane_byte(first[0], reflected, i);
        lemma_lane_byte(met[0], reflected, i);
        let s = if reflected { i } else { 15 - i };
        let (x, y) = (memory_byte(first[0], s), memory_byte(Vector128(part), i));
        assert(x ^ y == y ^ x && x ^ 0 == x) by (bit_vector);
        assert(memory_byte(met[0], s) == x ^ y);
    }
    assert(sum.bytes() =~= bytes_of(new_lane, 16));
    lemma_le_value_of_bytes(sum.0 as nat, 16);
    lemma_le_value_of_bytes(new_lane, 16);
    assert(sum.0 as nat == new_lane);
    // so the lanes are the same
    let start = first_lanes(a as nat, first, reflected);
    let other = first_lanes(0, met, reflected);
    lemma_add_zero(new_lane);
    lemma_mul_basics(pow2(64) as int);
    assert(start =~= other) by {
        assert forall|j: int| 0 <= j < 8 implies start[j] == other[j] by {
            if j > 0 {
                assert(met[j] == first[j]);
            }
        }
    }
}

/// The bytes of a lane: those of the vector, reversed for forward CRCs.
proof fn lemma_lane_byte(v: Vector128, reflected: bool, i: int)
    requires
        0 <= i < 16,
    ensures
        bytes_of(lane(v, reflected), 16)[i] == memory_byte(
            v,
            if reflected {
                i
            } else {
                15 - i
            },
        ),
{
    let s = v.bytes();
    if reflected {
        lemma_memory_byte(v, i);
    } else {
        lemma_memory_byte(v, 15 - i);
        lemma_message_is_reversed_value(s);
        lemma_bytes_of_le_value(s.reverse());
        assert(s.reverse()[i] == s[15 - i]);
    }
}

/// The value that the blocks leave is the checksum of their memory before its final exclusive-or.
///
/// The state holds the initial register and the table is that of the polynomial, as above.
pub proof fn lemma_blocks_reduce_to_checksum<W: EnhancedCrcWidth>(
    ops: &X86_64Avx2VpclmulqdqOps,
    state: &CrcState,
    first: &[Vector128; 8],
    rest: &[[Vector128; 8]],
    keys: &[u64; 23],
    params: CrcParams,
    memory: &[u8],
    value: W::Value,
    crc: u64,
)
    requires
        params.well_formed(),
        params.width == W::width(),
        state.reflected == params.refin,
        register_in(*state, params.init as nat, params.width),
        table_of(keys@, params.refin, params.poly, params.width),
        memory@.len() == 128 * (1 + rest@.len()),
        forall|k: int, j: int, i: int|
            0 <= k <= rest@.len() && 0 <= j < 8 && 0 <= i < 16 ==> #[trigger] memory@[128 * k + 16
                * j + i] == memory_byte(
                if k == 0 {
                    first@[j]
                } else {
                    rest@[k - 1]@[j]
                },
                i,
            ),
        call_ensures(
            X86_64Avx2VpclmulqdqOps::process_blocks::<W>,
            (ops, state, first, rest, keys, params.refin),
            value,
        ),
        call_ensures(checksum_with_params, (params, memory), crc),
    ensures
        W::word(value) == crc ^ params.xorout,
{
    let (poly, width) = (params.poly, params.width);
    let init = params.init as nat;
    lemma_memory_is_message(first@, rest@, memory@);
    lemma_table_folds(keys@, params.refin, poly, width);
    lemma_register_in(*state, init, width);
    lemma_folding_keeps_register(*state, first@, rest@, keys@, poly, width);
    let register = register_after(init, memory@, params.refin, poly, width);
    lemma_register_gives_crc(params.init, memory@, params);
    assert(crc == crc_from(params.init, memory@, params));
    lemma_u64_xor(crc, params.xorout);
    lemma_add_cancels(register, params.xorout as nat);
}

} // verus!
