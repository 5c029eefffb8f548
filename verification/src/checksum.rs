//! The CRC of a sequence of bytes.
use vstd::arithmetic::mul::*;
use vstd::arithmetic::power2::*;
use vstd::prelude::*;

use crate::bits::{lemma_reversed_bound, lemma_u64_xor, reflect_value, reversed};
use crate::params::CrcParams;
use crate::poly::poly_add;
use crate::register::{feed, feed_bits, lemma_feed_compose, lemma_feed_nothing};

verus! {

/// The eight message bits that a byte stands for, first bit leading.
pub open spec fn byte_poly(byte: u8, reflected: bool) -> nat {
    if reflected {
        reversed(byte as nat, 8)
    } else {
        byte as nat
    }
}

/// A message as a polynomial: its bits in the order of transmission, the first one leading.
pub open spec fn message_poly(bytes: Seq<u8>, reflected: bool) -> nat
    decreases bytes.len(),
{
    if bytes.len() == 0 {
        0
    } else {
        message_poly(bytes.drop_last(), reflected) * pow2(8) + byte_poly(bytes.last(), reflected)
    }
}

/// The CRC of `bytes`, from a register that starts with `start`.
///
/// `start`, like the CRC, is in the reported bit order.
pub open spec fn crc_from(start: u64, bytes: Seq<u8>, params: CrcParams) -> nat {
    poly_add(
        params.turned(
            feed(
                params.turned(start as nat),
                message_poly(bytes, params.refin),
                8 * bytes.len(),
                params.poly,
                params.width,
            ),
        ),
        params.xorout as nat,
    )
}

pub proof fn lemma_byte_poly_bound(byte: u8, reflected: bool)
    ensures
        byte_poly(byte, reflected) < pow2(8),
{
    lemma2_to64();
    lemma_reversed_bound(byte as nat, 8);
}

pub proof fn lemma_message_bound(bytes: Seq<u8>, reflected: bool)
    ensures
        message_poly(bytes, reflected) < pow2(8 * bytes.len()),
    decreases bytes.len(),
{
    lemma2_to64();
    if bytes.len() > 0 {
        let front = bytes.drop_last();
        lemma_message_bound(front, reflected);
        lemma_byte_poly_bound(bytes.last(), reflected);
        lemma_pow2_adds(8 * front.len(), 8);
        assert(8 * front.len() + 8 == 8 * bytes.len());
        lemma_mul_inequality(
            message_poly(front, reflected) as int + 1,
            pow2(8 * front.len()) as int,
            pow2(8) as int,
        );
        lemma_mul_is_distributive_add_other_way(
            pow2(8) as int,
            message_poly(front, reflected) as int,
            1,
        );
    }
}

/// The polynomial of a concatenation.
pub proof fn lemma_message_concat(a: Seq<u8>, b: Seq<u8>, reflected: bool)
    ensures
        message_poly(a + b, reflected) == message_poly(a, reflected) * pow2(8 * b.len())
            + message_poly(b, reflected),
    decreases b.len(),
{
    lemma2_to64();
    if b.len() == 0 {
        assert(a + b =~= a);
        assert(message_poly(a, reflected) * pow2(0) == message_poly(a, reflected));
    } else {
        let front = b.drop_last();
        assert((a + b).drop_last() =~= a + front);
        assert((a + b).last() == b.last());
        lemma_message_concat(a, front, reflected);
        lemma_pow2_adds(8 * front.len(), 8);
        assert(8 * front.len() + 8 == 8 * b.len());
        let m = message_poly(a, reflected);
        let k = pow2(8 * front.len());
        let f = message_poly(front, reflected);
        let e = pow2(8);
        assert((m * k + f) * e == m * (k * e) + f * e) by (nonlinear_arith);
    }
}

/// The CRC of `buf` for the given parameters, one bit at a time.
pub fn checksum_with_params(params: CrcParams, buf: &[u8]) -> (crc: u64)
    requires
        params.well_formed(),
    ensures
        crc == crc_from(params.init, buf@, params),
{
    let mut register = if params.refin {
        reflect_value(params.init, params.width)
    } else {
        params.init
    };
    let ghost start = register as nat;
    proof {
        lemma_feed_nothing(start, params.poly, params.width);
    }
    let mut i: usize = 0;
    while i < buf.len()
        invariant
            params.well_formed(),
            i <= buf.len(),
            register < pow2(params.width as nat),
            register == feed(
                start,
                message_poly(buf@.take(i as int), params.refin),
                8 * i as nat,
                params.poly,
                params.width,
            ),
        decreases buf.len() - i,
    {
        let byte = buf[i];
        let digits = if params.refin {
            reflect_value(byte as u64, 8)
        } else {
            byte as u64
        };
        proof {
            lemma_byte_poly_bound(byte, params.refin);
            let before = buf@.take(i as int);
            let after = buf@.take(i + 1);
            assert(after.drop_last() =~= before);
            lemma_feed_compose(
                start,
                message_poly(before, params.refin),
                8 * i as nat,
                digits as nat,
                8,
                params.poly,
                params.width,
            );
        }
        register = feed_bits(register, digits as u128, 8, params.poly, params.width);
        i = i + 1;
    }
    assert(buf@.take(buf@.len() as int) =~= buf@);
    let reported = if params.refin {
        reflect_value(register, params.width)
    } else {
        register
    };
    proof {
        lemma_u64_xor(reported, params.xorout);
    }
    reported ^ params.xorout
}

} // verus!
