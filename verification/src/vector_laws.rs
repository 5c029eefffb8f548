//! What the vector operations do, byte by byte and in terms of each other.
use vstd::arithmetic::power2::*;
use vstd::prelude::*;

use crate::arch::avx2_vpclmulqdq::{
    Reflector256, Simd256, X86_64Avx2VpclmulqdqOps, create_reflector256, lemma_full_reversal,
    reflect_bytes256, shuffle_bytes256, words_exchanged,
};
use crate::arch::vector::{Vector128, lemma_memory_byte, memory_byte};
use crate::bits::{lemma_pow2_64, lemma_u128_xor};
use crate::field::lemma_u128_halves;
use crate::poly::{
    lemma_add_associates, lemma_add_disjoint, lemma_add_div_mod, lemma_add_shift,
    lemma_mul_add_left, lemma_mul_add_right, lemma_mul_commutes, lemma_mul_pow2, lemma_mul_shift,
    poly_add, poly_mul,
};
use crate::traits::{ArchOps, shuffled};

verus! {

/// A byte shuffle: a mask byte of 128 or more clears the byte, and any other names a byte of `data`
/// by its low four bits.
pub proof fn lemma_shuffle_bytes<T: ArchOps>(
    ops: &T,
    data: Vector128,
    mask: Vector128,
    v: Vector128,
    i: int,
)
    requires
        0 <= i < 16,
        call_ensures(T::shuffle_bytes, (ops, data, mask), v),
    ensures
        memory_byte(mask, i) >= 128 ==> memory_byte(v, i) == 0,
        memory_byte(mask, i) < 128 ==> memory_byte(v, i) == memory_byte(
            data,
            memory_byte(mask, i) as int % 16,
        ),
{
    lemma_memory_byte(v, i);
    lemma_memory_byte(mask, i);
    lemma_memory_byte(data, memory_byte(mask, i) as int % 16);
}

/// A blend: the top bit of a mask byte decides between the two bytes.
pub proof fn lemma_blend_vectors<T: ArchOps>(
    ops: &T,
    a: Vector128,
    b: Vector128,
    mask: Vector128,
    v: Vector128,
    i: int,
)
    requires
        0 <= i < 16,
        call_ensures(T::blend_vectors, (ops, a, b, mask), v),
    ensures
        memory_byte(mask, i) >= 128 ==> memory_byte(v, i) == memory_byte(b, i),
        memory_byte(mask, i) < 128 ==> memory_byte(v, i) == memory_byte(a, i),
{
    lemma_memory_byte(v, i);
    lemma_memory_byte(mask, i);
    lemma_memory_byte(a, i);
    lemma_memory_byte(b, i);
}

/// A comparison gives the mask that blends by the top bits of a vector.
pub proof fn lemma_create_compare_mask<T: ArchOps>(
    ops: &T,
    vector: Vector128,
    v: Vector128,
    i: int,
)
    requires
        0 <= i < 16,
        call_ensures(T::create_compare_mask, (ops, vector), v),
    ensures
        memory_byte(vector, i) >= 128 ==> memory_byte(v, i) == 255,
        memory_byte(vector, i) < 128 ==> memory_byte(v, i) == 0,
{
    lemma_memory_byte(v, i);
    lemma_memory_byte(vector, i);
}

/// A repeated byte stands everywhere.
pub proof fn lemma_set_all_bytes<T: ArchOps>(ops: &T, value: u8, v: Vector128, i: int)
    requires
        0 <= i < 16,
        call_ensures(T::set_all_bytes, (ops, value), v),
    ensures
        memory_byte(v, i) == value,
{
    lemma_memory_byte(v, i);
}

/// Bytes are loaded in memory order.
pub proof fn lemma_load_bytes<T: ArchOps>(ops: &T, bytes: &[u8; 16], v: Vector128, i: int)
    requires
        0 <= i < 16,
        call_ensures(T::load_bytes, (ops, bytes), v),
    ensures
        memory_byte(v, i) == bytes@[i],
{
    lemma_memory_byte(v, i);
}

/// Words are loaded in memory order, and are read back as they were loaded.
pub proof fn lemma_load_aligned<T: ArchOps>(
    ops: &T,
    words: &[u64; 2],
    v: Vector128,
    read: [u64; 2],
    polys: [u64; 2],
)
    requires
        call_ensures(T::load_aligned, (ops, words), v),
        call_ensures(T::extract_u64s, (ops, v), read),
        call_ensures(T::extract_poly64s, (ops, v), polys),
    ensures
        read@ == words@,
        polys@ == words@,
{
    lemma_pow2_64();
    assert(read@ =~= words@);
    assert(polys@ =~= words@);
}

/// The words of a vector are its low and its high 64 bits.
pub proof fn lemma_extract_u64s<T: ArchOps>(ops: &T, v: Vector128, words: [u64; 2])
    requires
        call_ensures(T::extract_u64s, (ops, v), words),
    ensures
        words@[0] == v.0 as u64,
        words@[1] == (v.0 >> 64) as u64,
{
    lemma_u128_halves(v.0);
}

/// A pair of words is read back: the first one given is the high word, or the low word in the bit
/// order of reflected CRCs.
pub proof fn lemma_word_pairs<T: ArchOps>(
    ops: &T,
    high: u64,
    low: u64,
    reflected: bool,
    v: Vector128,
    plain: Vector128,
    v_words: [u64; 2],
    plain_words: [u64; 2],
)
    requires
        call_ensures(T::create_vector_from_u64_pair, (ops, high, low, reflected), v),
        call_ensures(T::create_vector_from_u64_pair_non_reflected, (ops, high, low), plain),
        call_ensures(T::extract_u64s, (ops, v), v_words),
        call_ensures(T::extract_u64s, (ops, plain), plain_words),
    ensures
        plain_words@[0] == low,
        plain_words@[1] == high,
        v_words@[0] == if reflected { high } else { low },
        v_words@[1] == if reflected { low } else { high },
{
    lemma_pow2_64();
}

/// A single word is read back from its half, and the other half is zero.
pub proof fn lemma_single_words<T: ArchOps>(
    ops: &T,
    value: u64,
    high: bool,
    v: Vector128,
    words: [u64; 2],
)
    requires
        call_ensures(T::create_vector_from_u64, (ops, value, high), v),
        call_ensures(T::extract_u64s, (ops, v), words),
    ensures
        words@[0] == if high { 0 } else { value },
        words@[1] == if high { value } else { 0 },
{
    lemma_pow2_64();
}

/// A 32-bit word stands in the first four bytes or in the last four.
pub proof fn lemma_single_u32<T: ArchOps>(ops: &T, value: u32, high: bool, v: Vector128)
    requires
        call_ensures(T::create_vector_from_u32, (ops, value, high), v),
    ensures
        v.0 == if high { (value as u128) << 96 } else { value as u128 },
{
    lemma2_to64();
    lemma_pow2_64();
    lemma_pow2_adds(32, 64);
    let x = value as u128;
    assert(x << 96 == x * 0x1_0000_0000_0000_0000_0000_0000) by (bit_vector)
        requires
            x < 0x1_0000_0000,
    ;
}

/// Bitwise operations act on every byte alone.
pub proof fn lemma_bytewise<T: ArchOps>(
    ops: &T,
    a: Vector128,
    b: Vector128,
    c: Vector128,
    and: Vector128,
    xor: Vector128,
    xor3: Vector128,
)
    requires
        call_ensures(T::and_vectors, (ops, a, b), and),
        call_ensures(T::xor_vectors, (ops, a, b), xor),
        call_ensures(T::xor3_vectors, (ops, a, b, c), xor3),
    ensures
        and.0 == a.0 & b.0,
        xor.0 == a.0 ^ b.0,
        xor3.0 == a.0 ^ b.0 ^ c.0,
{
    lemma_u128_xor(a.0, b.0);
    lemma_u128_xor(a.0 ^ b.0, c.0);
}

proof fn lemma_shl_byte(x: u128, k: u128, i: u128)
    by (bit_vector)
    requires
        k < 16,
        i < 16,
    ensures
        ((x << ((8 * k) as u128)) >> ((8 * i) as u128)) % 256 == if i >= k {
            (x >> ((8 * (i - k)) as u128)) % 256
        } else {
            0
        },
{
}

proof fn lemma_shr_byte(x: u128, k: u128, i: u128)
    by (bit_vector)
    requires
        k < 16,
        i < 16,
    ensures
        ((x >> ((8 * k) as u128)) >> ((8 * i) as u128)) % 256 == if i + k < 16 {
            (x >> ((8 * (i + k)) as u128)) % 256
        } else {
            0
        },
{
}

/// `v` holds the bytes of `source` moved up by `k` places, and zeros below them.
pub open spec fn moved_up(source: Vector128, v: Vector128, k: int) -> bool {
    forall|i: int|
        0 <= i < 16 ==> #[trigger] memory_byte(v, i) == if i >= k {
            memory_byte(source, i - k)
        } else {
            0
        }
}

/// `v` holds the bytes of `source` moved down by `k` places, and zeros above them.
pub open spec fn moved_down(source: Vector128, v: Vector128, k: int) -> bool {
    forall|i: int|
        0 <= i < 16 ==> #[trigger] memory_byte(v, i) == if i + k < 16 {
            memory_byte(source, i + k)
        } else {
            0
        }
}

proof fn lemma_moved_up(source: Vector128, v: Vector128, k: int)
    requires
        0 <= k < 16,
        v.0 == source.0 << ((8 * k) as u128),
    ensures
        moved_up(source, v, k),
{
    assert forall|i: int| 0 <= i < 16 implies #[trigger] memory_byte(v, i) == if i >= k {
        memory_byte(source, i - k)
    } else {
        0
    } by {
        lemma_shl_byte(source.0, k as u128, i as u128);
    }
}

proof fn lemma_moved_down(source: Vector128, v: Vector128, k: int)
    requires
        0 <= k < 16,
        v.0 == source.0 >> ((8 * k) as u128),
    ensures
        moved_down(source, v, k),
{
    assert forall|i: int| 0 <= i < 16 implies #[trigger] memory_byte(v, i) == if i + k < 16 {
        memory_byte(source, i + k)
    } else {
        0
    } by {
        lemma_shr_byte(source.0, k as u128, i as u128);
    }
}

/// Shifts to the left move bytes up; the ones named 4, 8 and 12 count bytes, and the one named 32
/// counts bits.
pub proof fn lemma_left_shifts<T: ArchOps>(
    ops: &T,
    vector: Vector128,
    by_4: Vector128,
    by_8: Vector128,
    by_12: Vector128,
    by_32: Vector128,
)
    requires
        call_ensures(T::shift_left_4, (ops, vector), by_4),
        call_ensures(T::shift_left_8, (ops, vector), by_8),
        call_ensures(T::shift_left_12, (ops, vector), by_12),
        call_ensures(T::shift_left_32, (ops, vector), by_32),
    ensures
        moved_up(vector, by_4, 4),
        moved_up(vector, by_8, 8),
        moved_up(vector, by_12, 12),
        moved_up(vector, by_32, 4),
{
    lemma_moved_up(vector, by_4, 4);
    lemma_moved_up(vector, by_8, 8);
    lemma_moved_up(vector, by_12, 12);
    lemma_moved_up(vector, by_32, 4);
}

/// Shifts to the right move bytes down; the one named 32 counts bits, and the others count bytes.
pub proof fn lemma_right_shifts<T: ArchOps>(
    ops: &T,
    vector: Vector128,
    by_4: Vector128,
    by_5: Vector128,
    by_6: Vector128,
    by_7: Vector128,
    by_8: Vector128,
    by_12: Vector128,
    by_32: Vector128,
)
    requires
        call_ensures(T::shift_right_4, (ops, vector), by_4),
        call_ensures(T::shift_right_5, (ops, vector), by_5),
        call_ensures(T::shift_right_6, (ops, vector), by_6),
        call_ensures(T::shift_right_7, (ops, vector), by_7),
        call_ensures(T::shift_right_8, (ops, vector), by_8),
        call_ensures(T::shift_right_12, (ops, vector), by_12),
        call_ensures(T::shift_right_32, (ops, vector), by_32),
    ensures
        moved_down(vector, by_4, 4),
        moved_down(vector, by_5, 5),
        moved_down(vector, by_6, 6),
        moved_down(vector, by_7, 7),
        moved_down(vector, by_8, 8),
        moved_down(vector, by_12, 12),
        moved_down(vector, by_32, 4),
{
    lemma_moved_down(vector, by_4, 4);
    lemma_moved_down(vector, by_5, 5);
    lemma_moved_down(vector, by_6, 6);
    lemma_moved_down(vector, by_7, 7);
    lemma_moved_down(vector, by_8, 8);
    lemma_moved_down(vector, by_12, 12);
    lemma_moved_down(vector, by_32, 4);
}

/// The four carry-less products of halves make up the product of the vectors.
pub proof fn lemma_products_of_halves<T: ArchOps>(
    ops: &T,
    a: Vector128,
    b: Vector128,
    low: Vector128,
    high_low: Vector128,
    low_high: Vector128,
    high: Vector128,
)
    requires
        call_ensures(T::carryless_mul_00, (ops, a, b), low),
        call_ensures(T::carryless_mul_01, (ops, a, b), high_low),
        call_ensures(T::carryless_mul_10, (ops, a, b), low_high),
        call_ensures(T::carryless_mul_11, (ops, a, b), high),
    ensures
        poly_mul(a.0 as nat, b.0 as nat) == poly_add(
            poly_add(
                high.0 as nat * pow2(128),
                poly_add(high_low.0 as nat, low_high.0 as nat) * pow2(64),
            ),
            low.0 as nat,
        ),
{
    let m = pow2(64);
    let (ah, al, bh, bl) = (a.high(), a.low(), b.high(), b.low());
    lemma_pow2_64();
    lemma_pow2_adds(64, 64);
    lemma_add_disjoint(ah, al, 64);
    lemma_add_disjoint(bh, bl, 64);
    lemma_mul_add_left(ah * m, al, b.0 as nat);
    lemma_mul_add_right(ah * m, bh * m, bl);
    lemma_mul_add_right(al, bh * m, bl);
    // shifts come out of the products
    lemma_mul_shift(ah, bh * m, 64);
    lemma_mul_commutes(ah, bh * m);
    lemma_mul_shift(bh, ah, 64);
    lemma_mul_commutes(bh, ah);
    lemma_mul_shift(ah, bl, 64);
    lemma_mul_commutes(al, bh * m);
    lemma_mul_shift(bh, al, 64);
    lemma_mul_commutes(bh, al);
    let hh = poly_mul(ah, bh);
    let hl = poly_mul(ah, bl);
    let lh = poly_mul(al, bh);
    let ll = poly_mul(al, bl);
    assert((hh * m) * m == hh * pow2(128)) by (nonlinear_arith)
        requires
            m * m == pow2(128),
    ;
    lemma_add_shift(hl, lh, 64);
    lemma_add_associates(hh * pow2(128), hl * m, lh * m);
    lemma_add_associates(poly_add(hh * pow2(128), hl * m), lh * m, ll);
}

/// Which halves a product takes: shifting an operand left by eight bytes brings its low half to
/// where the high half was.
pub proof fn lemma_product_halves<T: ArchOps>(
    ops: &T,
    a: Vector128,
    b: Vector128,
    up_a: Vector128,
    up_b: Vector128,
    low: Vector128,
    high_low: Vector128,
    low_high: Vector128,
)
    requires
        call_ensures(T::shift_left_8, (ops, a), up_a),
        call_ensures(T::shift_left_8, (ops, b), up_b),
        call_ensures(T::carryless_mul_00, (ops, a, b), low),
        call_ensures(T::carryless_mul_01, (ops, a, b), high_low),
        call_ensures(T::carryless_mul_10, (ops, a, b), low_high),
    ensures
        forall|v: Vector128|
            call_ensures(T::carryless_mul_11, (ops, up_a, up_b), v) ==> #[trigger] v.0 == low.0,
        forall|v: Vector128|
            call_ensures(T::carryless_mul_11, (ops, a, up_b), v) ==> #[trigger] v.0 == high_low.0,
        forall|v: Vector128|
            call_ensures(T::carryless_mul_11, (ops, up_a, b), v) ==> #[trigger] v.0 == low_high.0,
{
    lemma_up_half(a.0);
    lemma_up_half(b.0);
}

proof fn lemma_up_half(x: u128)
    ensures
        (x << 64) as nat / pow2(64) == x as nat % pow2(64),
{
    lemma_pow2_64();
    assert((x << 64) / 0x1_0000_0000_0000_0000 == x % 0x1_0000_0000_0000_0000) by (bit_vector);
}

/// Shifting a word within a vector multiplies it.
proof fn lemma_shl_word(x: u128, k: u128)
    requires
        x < 0x1_0000_0000_0000_0000,
        k < 64,
    ensures
        (x << k) as nat == x as nat * pow2(k as nat),
    decreases k,
{
    lemma2_to64();
    if k == 0 {
        assert(x << 0 == x) by (bit_vector);
    } else {
        let j = (k - 1) as u128;
        lemma_shl_word(x, j);
        lemma_pow2_unfold(k as nat);
        assert(x << k == 2 * (x << j)) by (bit_vector)
            requires
                x < 0x1_0000_0000_0000_0000,
                k < 64,
                k == j + 1,
        ;
        assert(x as nat * pow2(k as nat) == 2 * (x as nat * pow2(j as nat))) by (nonlinear_arith)
            requires
                pow2(k as nat) == 2 * pow2(j as nat),
        ;
    }
}

/// A carry-less product is a sum of shifts: it distributes over exclusive-or, and a single bit
/// shifts.
pub proof fn lemma_products_are_sums_of_shifts<T: ArchOps>(
    ops: &T,
    a: Vector128,
    b: Vector128,
    c: Vector128,
    k: u128,
    ab: Vector128,
    ac: Vector128,
    abc: Vector128,
    shift: Vector128,
)
    requires
        k < 64,
        call_ensures(T::carryless_mul_00, (ops, a, b), ab),
        call_ensures(T::carryless_mul_00, (ops, a, c), ac),
        call_ensures(T::carryless_mul_00, (ops, a, Vector128(b.0 ^ c.0)), abc),
        call_ensures(T::carryless_mul_00, (ops, a, Vector128(1u128 << k)), shift),
    ensures
        abc.0 == ab.0 ^ ac.0,
        shift.0 == (a.0 & 0xffff_ffff_ffff_ffff) << k,
{
    lemma_pow2_64();
    // the low half of a sum is the sum of the low halves
    lemma_u128_xor(b.0, c.0);
    lemma_add_div_mod(b.0 as nat, c.0 as nat, 64);
    lemma_mul_add_right(a.low(), b.low(), c.low());
    lemma_u128_xor(ab.0, ac.0);
    // a single bit
    let bit = 1u128 << k;
    let x = a.0;
    let low = x & 0xffff_ffff_ffff_ffff;
    assert(x & 0xffff_ffff_ffff_ffff == x % 0x1_0000_0000_0000_0000) by (bit_vector);
    assert(bit < 0x1_0000_0000_0000_0000) by (bit_vector)
        requires
            k < 64,
            bit == 1u128 << k,
    ;
    lemma_shl_word(1, k);
    lemma_mul_pow2(a.low(), k as nat);
    lemma_shl_word(low, k);
}

/// Byte `i` of a 256-bit register in memory.
pub open spec fn register_byte(x: Simd256, i: int) -> u8 {
    if i < 16 {
        memory_byte(x.low, i)
    } else {
        memory_byte(x.high, i - 16)
    }
}

/// Two vectors that are loaded one after the other lie in memory in that order.
pub proof fn lemma_load_register(first: Vector128, second: Vector128, x: Simd256, i: int)
    requires
        0 <= i < 16,
        call_ensures(Simd256::load, (first, second), x),
    ensures
        register_byte(x, i) == memory_byte(first, i),
        register_byte(x, 16 + i) == memory_byte(second, i),
{
}

/// Four words, the most significant one first.
pub proof fn lemma_register_words(x3: u64, x2: u64, x1: u64, x0: u64, x: Simd256)
    requires
        call_ensures(Simd256::new, (x3, x2, x1, x0), x),
    ensures
        x.low.0 as u64 == x0,
        (x.low.0 >> 64) as u64 == x1,
        x.high.0 as u64 == x2,
        (x.high.0 >> 64) as u64 == x3,
{
    lemma_pow2_64();
    lemma_u128_halves(x.low.0);
    lemma_u128_halves(x.high.0);
}

/// The reflector of a forward CRC reverses all 32 bytes of a register; that of a reflected CRC
/// leaves them as they are.
pub proof fn lemma_reflected_register(
    reflected: bool,
    reflector: Reflector256,
    data: Simd256,
    r: Simd256,
    i: int,
)
    requires
        0 <= i < 32,
        call_ensures(create_reflector256, (reflected,), reflector),
        call_ensures(reflect_bytes256, (&reflector, data), r),
    ensures
        register_byte(r, i) == register_byte(
            data,
            if reflected {
                i
            } else {
                31 - i
            },
        ),
{
    if let Reflector256::ForwardReflector { smask } = reflector {
        lemma_full_reversal(data.low, smask.low, r.high);
        lemma_full_reversal(data.high, smask.high, r.low);
        let k = if i < 16 { i } else { i - 16 };
        lemma_memory_byte(r.low, k);
        lemma_memory_byte(r.high, k);
        lemma_memory_byte(data.low, 15 - k);
        lemma_memory_byte(data.high, 15 - k);
    }
}

/// A shuffled vector with its words exchanged, byte by byte.
proof fn lemma_exchanged_shuffle(data: Vector128, mask: Vector128, r: Vector128, k: int, s: int)
    requires
        0 <= k < 16,
        s == if k < 8 { k + 8 } else { k - 8 },
        r.bytes() == words_exchanged(shuffled(data.bytes(), mask.bytes())),
    ensures
        memory_byte(mask, s) >= 128 ==> memory_byte(r, k) == 0,
        memory_byte(mask, s) < 128 ==> memory_byte(r, k) == memory_byte(
            data,
            memory_byte(mask, s) as int % 16,
        ),
{
    lemma_memory_byte(r, k);
    lemma_memory_byte(mask, s);
    lemma_memory_byte(data, memory_byte(mask, s) as int % 16);
    let bytes = shuffled(data.bytes(), mask.bytes());
    assert(words_exchanged(bytes)[k] == bytes[s]);
}

/// The shuffle of a register works within each half, and then turns the order of the four words
/// round.
pub proof fn lemma_shuffle_register(data: Simd256, mask: Simd256, r: Simd256, i: int)
    requires
        0 <= i < 32,
        call_ensures(shuffle_bytes256, (data, mask), r),
    ensures
        ({
            let source = 8 * (3 - i / 8) + i % 8;
            let m = register_byte(mask, source);
            &&& m >= 128 ==> register_byte(r, i) == 0
            &&& m < 128 ==> register_byte(r, i) == register_byte(
                data,
                16 * (source / 16) + m as int % 16,
            )
        }),
{
    let source = 8 * (3 - i / 8) + i % 8;
    if i < 16 {
        assert(source - 16 == if i < 8 { i + 8 } else { i - 8 });
        lemma_exchanged_shuffle(data.high, mask.high, r.low, i, source - 16);
    } else {
        assert(source == if i - 16 < 8 { i - 16 + 8 } else { i - 16 - 8 });
        lemma_exchanged_shuffle(data.low, mask.low, r.high, i - 16, source);
    }
}

/// Folding a register: in each half the products of the low words and of the high words, and the
/// new data, are added.
pub proof fn lemma_fold_register<T: ArchOps>(
    ops: &T,
    x: Simd256,
    coeff: Simd256,
    new_data: Simd256,
    r: Simd256,
    low_00: Vector128,
    low_11: Vector128,
    high_00: Vector128,
    high_11: Vector128,
)
    requires
        call_ensures(Simd256::fold_32, (&x, &coeff, &new_data), r),
        call_ensures(T::carryless_mul_00, (ops, x.low, coeff.low), low_00),
        call_ensures(T::carryless_mul_11, (ops, x.low, coeff.low), low_11),
        call_ensures(T::carryless_mul_00, (ops, x.high, coeff.high), high_00),
        call_ensures(T::carryless_mul_11, (ops, x.high, coeff.high), high_11),
    ensures
        r.low.0 == low_00.0 ^ low_11.0 ^ new_data.low.0,
        r.high.0 == high_00.0 ^ high_11.0 ^ new_data.high.0,
{
    lemma_u128_xor(low_00.0, low_11.0);
    lemma_u128_xor(low_00.0 ^ low_11.0, new_data.low.0);
    lemma_u128_xor(high_00.0, high_11.0);
    lemma_u128_xor(high_00.0 ^ high_11.0, new_data.high.0);
}

/// The coefficient for 128 bytes: entries 3 and 4 of the table in each half, entry 3 in the low
/// word for forward CRCs and in the high word for reflected ones.
pub proof fn lemma_block_coefficient(
    ops: &X86_64Avx2VpclmulqdqOps,
    keys: &[u64; 23],
    reflected: bool,
    coeff: Simd256,
)
    requires
        call_ensures(
            X86_64Avx2VpclmulqdqOps::create_avx2_128byte_coefficient,
            (ops, keys, reflected),
            coeff,
        ),
    ensures
        coeff.low == coeff.high,
        coeff.low.0 as u64 == if reflected { keys@[4] } else { keys@[3] },
        (coeff.low.0 >> 64) as u64 == if reflected { keys@[3] } else { keys@[4] },
{
    lemma_pow2_64();
    lemma_u128_halves(coeff.low.0);
}

} // verus!
