//! Folding a message into a single vector.
//!
//! Folding multiplies a vector by a power of `x` and adds the vector that stands that far further
//! on in the message, so that the remainder modulo `P` of the whole stays what it was. The two
//! halves of a vector are multiplied by a constant each; which constants these are is in a table of
//! 23 keys:
//!
//! ```text
//! index    distance folded over
//!  1,  2    16 bytes
//!  3,  4   128 bytes
//!  8       (the polynomial)
//!  9, 10   112 bytes
//! 11, 12    96 bytes
//! 13, 14    80 bytes
//! 15, 16    64 bytes
//! 17, 18    48 bytes
//! 19, 20    32 bytes
//! ```
//!
//! Of each pair the first is the constant of the half with the lower powers of `x`.
use vstd::arithmetic::power2::*;
use vstd::prelude::*;

use crate::arch::vector::Vector128;
use crate::bits::reversed;
use crate::checksum::message_poly;
use crate::field::modulus;
use crate::poly::{poly_add, poly_mul, poly_rem};
use crate::register::feed;
use crate::structs::CrcState;
use crate::traits::{poly_of_key, positioned, turned_word};

verus! {

// ---- what folding computes ----

/// A pair of constants as a vector, in the bit order of the CRC.
pub open spec fn coefficient(high: u64, low: u64, reflected: bool) -> nat {
    if reflected {
        low as nat * pow2(64) + high as nat
    } else {
        high as nat * pow2(64) + low as nat
    }
}

/// A vector multiplied by a coefficient, half by half.
pub open spec fn multiplied(v: nat, c: nat) -> nat {
    poly_add(
        poly_mul(v % pow2(64), c % pow2(64)),
        poly_mul(v / pow2(64), c / pow2(64)),
    )
}

/// A vector of the message as it takes part in folding: forward CRCs have the first byte leading.
pub open spec fn lane(v: Vector128, reflected: bool) -> nat {
    if reflected {
        v.value()
    } else {
        message_poly(v.bytes(), false)
    }
}

/// The vectors of a block, oldest first.
pub open spec fn lanes(block: Seq<Vector128>, reflected: bool) -> Seq<nat> {
    Seq::new(8, |i: int| lane(block[i], reflected))
}

/// The part of the state vector that the register occupies.
pub open spec fn register_part(state: nat, reflected: bool) -> nat {
    if reflected {
        state % pow2(64)
    } else {
        (state / pow2(64)) * pow2(64)
    }
}

/// The lanes of the first block, with the register added over its first bytes.
pub open spec fn first_lanes(state: nat, first: Seq<Vector128>, reflected: bool) -> Seq<nat> {
    let l = lanes(first, reflected);
    l.update(0, poly_add(register_part(state, reflected), l[0]))
}

/// The coefficient for a whole block, 128 bytes.
pub open spec fn block_coefficient(keys: Seq<u64>, reflected: bool) -> nat {
    coefficient(keys[4], keys[3], reflected)
}

/// The coefficient that carries lane `i` of a block to its last lane.
pub open spec fn lane_coefficient(keys: Seq<u64>, i: int, reflected: bool) -> nat {
    if i < 6 {
        coefficient(keys[10 + 2 * i], keys[9 + 2 * i], reflected)
    } else {
        coefficient(keys[2], keys[1], reflected)
    }
}

/// The lanes once every further block has been folded in.
pub open spec fn lanes_after(
    start: Seq<nat>,
    rest: Seq<[Vector128; 8]>,
    keys: Seq<u64>,
    reflected: bool,
) -> Seq<nat>
    decreases rest.len(),
{
    if rest.len() == 0 {
        start
    } else {
        let before = lanes_after(start, rest.drop_last(), keys, reflected);
        let block = lanes(rest.last()@, reflected);
        Seq::new(
            8,
            |i: int|
                poly_add(multiplied(before[i], block_coefficient(keys, reflected)), block[i]),
        )
    }
}

/// The last lane, with the first `n` lanes folded onto it.
pub open spec fn folded_lanes(l: Seq<nat>, keys: Seq<u64>, n: nat, reflected: bool) -> nat
    decreases n,
{
    if n == 0 {
        l[7]
    } else {
        poly_add(
            multiplied(l[n - 1], lane_coefficient(keys, n - 1, reflected)),
            folded_lanes(l, keys, (n - 1) as nat, reflected),
        )
    }
}

/// The vector that a register and the blocks after it are folded into.
pub open spec fn folded(
    state: nat,
    first: Seq<Vector128>,
    rest: Seq<[Vector128; 8]>,
    keys: Seq<u64>,
    reflected: bool,
) -> nat {
    folded_lanes(
        lanes_after(first_lanes(state, first, reflected), rest, keys, reflected),
        keys,
        7,
        reflected,
    )
}

// ---- what it means ----

/// The bytes of the first `n` vectors of a block.
pub open spec fn block_bytes(block: Seq<Vector128>, n: nat) -> Seq<u8>
    decreases n,
{
    if n == 0 {
        Seq::empty()
    } else {
        block_bytes(block, (n - 1) as nat) + block[n - 1].bytes()
    }
}

/// The bytes of a message in blocks of 128.
pub open spec fn message_bytes(first: Seq<Vector128>, rest: Seq<[Vector128; 8]>) -> Seq<u8>
    decreases rest.len(),
{
    if rest.len() == 0 {
        block_bytes(first, 8)
    } else {
        message_bytes(first, rest.drop_last()) + block_bytes(rest.last()@, 8)
    }
}

/// The polynomial of a constant. Multiplying reversed words leaves the product one place short,
/// which the constants of reflected CRCs make up for.
pub open spec fn key_poly(key: u64, reflected: bool) -> nat {
    if reflected {
        2 * reversed(key as nat, 64)
    } else {
        key as nat
    }
}

/// A pair of constants folds over `distance` bits.
pub open spec fn pair_folds(high: u64, low: u64, distance: nat, reflected: bool, p: nat) -> bool {
    &&& poly_rem(key_poly(low, reflected), p) == poly_rem(pow2(distance), p)
    &&& poly_rem(key_poly(high, reflected), p) == poly_rem(pow2(distance + 64), p)
}

/// The table holds the constants of `P`.
pub open spec fn keys_fold(keys: Seq<u64>, reflected: bool, p: nat) -> bool {
    &&& pair_folds(keys[4], keys[3], 1024, reflected, p)
    &&& forall|i: int|
        0 <= i < 6 ==> pair_folds(
            #[trigger] keys[10 + 2 * i],
            keys[9 + 2 * i],
            (128 * (7 - i)) as nat,
            reflected,
            p,
        )
    &&& pair_folds(keys[2], keys[1], 128, reflected, p)
}

/// The register that a state holds.
pub open spec fn held_word(state: CrcState, width: u8) -> nat {
    if state.reflected {
        state.value.value()
    } else {
        state.value.value() / pow2((128 - width) as nat)
    }
}

/// The state holds a register of `width` bits, and nothing else.
pub open spec fn holds_register(state: CrcState, width: u8) -> bool {
    &&& held_word(state, width) < pow2(width as nat)
    &&& state.value.value() == positioned(held_word(state, width), state.reflected, width)
}

/// The register that a message leaves, from the register before it.
pub open spec fn register_after(
    word: nat,
    message: Seq<u8>,
    reflected: bool,
    poly: u64,
    width: u8,
) -> nat {
    turned_word(
        feed(
            turned_word(word, reflected, width),
            message_poly(message, reflected),
            8 * message.len(),
            poly,
            width,
        ),
        reflected,
        width,
    )
}

/// `after` holds the register that the message leaves on top of `before`, provided that `before`
/// holds a register and that the table holds the constants of its polynomial.
pub open spec fn blocks_processed(
    before: CrcState,
    after: CrcState,
    first: Seq<Vector128>,
    rest: Seq<[Vector128; 8]>,
    keys: Seq<u64>,
    width: u8,
) -> bool {
    let poly = poly_of_key(keys[8], before.reflected, width) as u64;
    let reflected = before.reflected;
    &&& after.reflected == reflected
    &&& holds_register(before, width) && keys_fold(keys, reflected, modulus(poly, width))
        ==> after.value.value() == positioned(
        register_after(
            held_word(before, width),
            message_bytes(first, rest),
            reflected,
            poly,
            width,
        ),
        reflected,
        width,
    )
}

} // verus!
