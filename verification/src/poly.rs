//! Polynomials over GF(2).
//!
//! A polynomial is written as the natural number whose binary digits are its coefficients: bit `i`
//! is the coefficient of `x^i`. A machine word is then the polynomial of its own bits, `x^n` is
//! `pow2(n)`, and shifting left by `n` is multiplication by `x^n`.
use vstd::arithmetic::div_mod::*;
use vstd::arithmetic::power2::*;
use vstd::prelude::*;

verus! {

/// The sum of two polynomials: coefficients are added modulo two.
#[verifier::opaque]
pub open spec fn poly_add(a: nat, b: nat) -> nat
    decreases a + b,
{
    if a == 0 && b == 0 {
        0
    } else {
        2 * poly_add(a / 2, b / 2) + (a + b) % 2
    }
}

/// The product of two polynomials.
#[verifier::opaque]
pub open spec fn poly_mul(a: nat, b: nat) -> nat
    decreases b,
{
    if b == 0 {
        0
    } else {
        poly_add(if b % 2 == 1 { a } else { 0 }, 2 * poly_mul(a, b / 2))
    }
}

/// The degree of a nonzero polynomial.
#[verifier::opaque]
pub open spec fn degree(p: nat) -> nat
    decreases p,
{
    if p <= 1 {
        0
    } else {
        1 + degree(p / 2)
    }
}

/// One step of long division: `t` has at most the degree of `p`, and loses its leading term when
/// the degrees agree.
pub open spec fn reduce_step(t: nat, p: nat) -> nat {
    if t >= pow2(degree(p)) {
        poly_add(t, p)
    } else {
        t
    }
}

/// The remainder of `a` on division by `p`.
#[verifier::opaque]
pub open spec fn poly_rem(a: nat, p: nat) -> nat
    decreases a,
{
    if a == 0 {
        0
    } else {
        reduce_step(2 * poly_rem(a / 2, p) + a % 2, p)
    }
}

/// The quotient of `a` on division by `p`.
#[verifier::opaque]
pub open spec fn poly_div(a: nat, p: nat) -> nat
    decreases a,
{
    if a == 0 {
        0
    } else {
        2 * poly_div(a / 2, p) + if 2 * poly_rem(a / 2, p) + a % 2 >= pow2(degree(p)) {
            1nat
        } else {
            0nat
        }
    }
}

/// Addition, one digit at a time.
pub proof fn lemma_add_halves(a: nat, b: nat)
    ensures
        poly_add(a, b) == 2 * poly_add(a / 2, b / 2) + (a % 2 + b % 2) % 2,
{
    reveal(poly_add);
}

pub proof fn lemma_add_zero(a: nat)
    ensures
        poly_add(a, 0) == a,
        poly_add(0, a) == a,
    decreases a,
{
    lemma_add_halves(a, 0);
    lemma_add_halves(0, a);
    if a > 0 {
        lemma_add_zero(a / 2);
    }
}

pub proof fn lemma_add_commutes(a: nat, b: nat)
    ensures
        poly_add(a, b) == poly_add(b, a),
    decreases a + b,
{
    if a + b > 0 {
        lemma_add_commutes(a / 2, b / 2);
        lemma_add_halves(a, b);
        lemma_add_halves(b, a);
    }
}

/// Addition, seen through the constant terms.
pub proof fn lemma_add_digit(a: nat, e: nat, b: nat, f: nat)
    requires
        e < 2,
        f < 2,
    ensures
        poly_add(2 * a + e, 2 * b + f) == 2 * poly_add(a, b) + (e + f) % 2,
{
    assert((2 * a + e) / 2 == a && (2 * a + e) % 2 == e);
    assert((2 * b + f) / 2 == b && (2 * b + f) % 2 == f);
    lemma_add_halves(2 * a + e, 2 * b + f);
}

pub proof fn lemma_add_associates(a: nat, b: nat, c: nat)
    ensures
        poly_add(poly_add(a, b), c) == poly_add(a, poly_add(b, c)),
    decreases a + b + c,
{
    if a + b + c == 0 {
        lemma_add_zero(0);
    } else {
        lemma_add_associates(a / 2, b / 2, c / 2);
        let ab = poly_add(a, b);
        let bc = poly_add(b, c);
        lemma_add_halves(a, b);
        lemma_add_halves(b, c);
        lemma_add_halves(ab, c);
        lemma_add_halves(a, bc);
        assert(ab / 2 == poly_add(a / 2, b / 2));
        assert(bc / 2 == poly_add(b / 2, c / 2));
    }
}

pub proof fn lemma_add_self(a: nat)
    ensures
        poly_add(a, a) == 0,
    decreases a,
{
    lemma_add_halves(a, a);
    if a > 0 {
        lemma_add_self(a / 2);
    }
}

/// A sum vanishes only between equal polynomials.
pub proof fn lemma_add_is_zero(a: nat, b: nat)
    requires
        poly_add(a, b) == 0,
    ensures
        a == b,
    decreases a + b,
{
    if a + b > 0 {
        lemma_add_halves(a, b);
        lemma_add_is_zero(a / 2, b / 2);
        assert(a % 2 == b % 2);
    }
}

/// `(a + b) + (c + d) == (a + c) + (b + d)`.
pub proof fn lemma_add_exchange(a: nat, b: nat, c: nat, d: nat)
    ensures
        poly_add(poly_add(a, b), poly_add(c, d)) == poly_add(poly_add(a, c), poly_add(b, d)),
{
    lemma_add_associates(a, b, poly_add(c, d));
    lemma_add_associates(b, c, d);
    lemma_add_commutes(b, c);
    lemma_add_associates(c, b, d);
    lemma_add_associates(a, c, poly_add(b, d));
}

/// `(a + b) + b == a`.
pub proof fn lemma_add_cancels(a: nat, b: nat)
    ensures
        poly_add(poly_add(a, b), b) == a,
        poly_add(b, poly_add(b, a)) == a,
        poly_add(b, poly_add(a, b)) == a,
{
    lemma_add_associates(a, b, b);
    lemma_add_self(b);
    lemma_add_zero(a);
    lemma_add_associates(b, b, a);
    lemma_add_commutes(a, b);
}

pub proof fn lemma_pow2_0()
    ensures
        pow2(0) == 1,
        pow2(1) == 2,
{
    lemma2_to64();
}

/// `a * x^k` is twice `a * x^(k - 1)`.
pub proof fn lemma_shift_unfolds(a: nat, k: nat)
    requires
        k > 0,
    ensures
        a * pow2(k) == 2 * (a * pow2((k - 1) as nat)),
{
    lemma_pow2_unfold(k);
    let h = pow2((k - 1) as nat);
    assert(a * (2 * h) == 2 * (a * h)) by (nonlinear_arith);
}

/// Addition acts separately on the terms from `x^k` up and on those below.
pub proof fn lemma_add_split(a1: nat, a0: nat, b1: nat, b0: nat, k: nat)
    requires
        a0 < pow2(k),
        b0 < pow2(k),
    ensures
        poly_add(a1 * pow2(k) + a0, b1 * pow2(k) + b0) == poly_add(a1, b1) * pow2(k) + poly_add(
            a0,
            b0,
        ),
        poly_add(a0, b0) < pow2(k),
    decreases k,
{
    if k == 0 {
        lemma_pow2_0();
        lemma_add_zero(0);
    } else {
        let j = (k - 1) as nat;
        lemma_pow2_unfold(k);
        lemma_shift_unfolds(a1, k);
        lemma_shift_unfolds(b1, k);
        lemma_shift_unfolds(poly_add(a1, b1), k);
        lemma_add_split(a1, a0 / 2, b1, b0 / 2, j);
        let a = a1 * pow2(k) + a0;
        let b = b1 * pow2(k) + b0;
        assert(a / 2 == a1 * pow2(j) + a0 / 2 && a % 2 == a0 % 2);
        assert(b / 2 == b1 * pow2(j) + b0 / 2 && b % 2 == b0 % 2);
        lemma_add_halves(a, b);
        lemma_add_halves(a0, b0);
    }
}

/// A sum of polynomials of degree below `k` has degree below `k`.
pub proof fn lemma_add_bound(a: nat, b: nat, k: nat)
    requires
        a < pow2(k),
        b < pow2(k),
    ensures
        poly_add(a, b) < pow2(k),
{
    lemma_add_split(0, a, 0, b, k);
}

/// Adding polynomials with no term in common is adding numbers.
pub proof fn lemma_add_disjoint(a: nat, b: nat, k: nat)
    requires
        b < pow2(k),
    ensures
        poly_add(a * pow2(k), b) == a * pow2(k) + b,
        poly_add(b, a * pow2(k)) == a * pow2(k) + b,
{
    lemma_add_split(a, 0, 0, b, k);
    lemma_add_zero(a);
    lemma_add_zero(b);
    lemma_add_commutes(a * pow2(k), b);
}

/// Shifting distributes over addition.
pub proof fn lemma_add_shift(a: nat, b: nat, k: nat)
    ensures
        poly_add(a * pow2(k), b * pow2(k)) == poly_add(a, b) * pow2(k),
{
    lemma_pow2_pos(k);
    lemma_add_split(a, 0, b, 0, k);
    lemma_add_zero(0);
}

/// Splitting a sum at `x^k` splits its operands.
pub proof fn lemma_add_div_mod(a: nat, b: nat, k: nat)
    ensures
        poly_add(a, b) / pow2(k) == poly_add(a / pow2(k), b / pow2(k)),
        poly_add(a, b) % pow2(k) == poly_add(a % pow2(k), b % pow2(k)),
{
    let m = pow2(k);
    lemma_split_at(a, k);
    lemma_split_at(b, k);
    lemma_add_split(a / m, a % m, b / m, b % m, k);
    lemma_join_at(poly_add(a / m, b / m), poly_add(a % m, b % m), k);
}

/// A number is put together from its digits from position `k` up and those below.
pub proof fn lemma_split_at(a: nat, k: nat)
    ensures
        a == (a / pow2(k)) * pow2(k) + a % pow2(k),
        a % pow2(k) < pow2(k),
{
    lemma_pow2_pos(k);
    lemma_fundamental_div_mod(a as int, pow2(k) as int);
}

/// A number put together at position `k` comes apart again.
pub proof fn lemma_join_at(high: nat, low: nat, k: nat)
    requires
        low < pow2(k),
    ensures
        (high * pow2(k) + low) / pow2(k) == high,
        (high * pow2(k) + low) % pow2(k) == low,
{
    lemma_fundamental_div_mod_converse(
        (high * pow2(k) + low) as int,
        pow2(k) as int,
        high as int,
        low as int,
    );
}

/// A leading term survives the addition of a polynomial of lower degree.
pub proof fn lemma_add_leading(a: nat, b: nat, k: nat)
    requires
        pow2(k) <= a < pow2(k + 1),
        b < pow2(k),
    ensures
        pow2(k) <= poly_add(a, b) < pow2(k + 1),
        pow2(k) <= poly_add(b, a) < pow2(k + 1),
{
    lemma_pow2_unfold(k + 1);
    let low = (a - pow2(k)) as nat;
    lemma_add_split(1, low, 0, b, k);
    assert(poly_add(1, 0) == 1) by {
        lemma_add_zero(1);
    }
    lemma_add_commutes(a, b);
}

/// Leading terms of equal degree cancel.
pub proof fn lemma_add_leading_cancels(a: nat, b: nat, k: nat)
    requires
        pow2(k) <= a < pow2(k + 1),
        pow2(k) <= b < pow2(k + 1),
    ensures
        poly_add(a, b) == poly_add((a - pow2(k)) as nat, (b - pow2(k)) as nat),
        poly_add(a, b) < pow2(k),
{
    lemma_pow2_unfold(k + 1);
    lemma_add_split(1, (a - pow2(k)) as nat, 1, (b - pow2(k)) as nat, k);
    lemma_add_self(1);
}

// ---- multiplication ----

/// Multiplication, one digit of the right operand at a time.
pub proof fn lemma_mul_halves(a: nat, b: nat)
    ensures
        poly_mul(a, b) == poly_add(if b % 2 == 1 { a } else { 0 }, 2 * poly_mul(a, b / 2)),
{
    reveal(poly_mul);
    if b == 0 {
        lemma_add_zero(0);
    }
}

pub proof fn lemma_mul_zero(a: nat)
    ensures
        poly_mul(a, 0) == 0,
        poly_mul(0, a) == 0,
    decreases a,
{
    lemma_mul_halves(a, 0);
    lemma_add_zero(2 * poly_mul(a, 0));
    if a > 0 {
        lemma_mul_halves(0, a);
        lemma_mul_zero(a / 2);
    }
}

pub proof fn lemma_mul_one(a: nat)
    ensures
        poly_mul(a, 1) == a,
        poly_mul(1, a) == a,
    decreases a,
{
    lemma_mul_halves(a, 1);
    lemma_mul_zero(a);
    lemma_mul_zero(1);
    lemma_add_zero(a);
    if a > 0 {
        lemma_mul_one(a / 2);
        lemma_mul_halves(1, a);
        lemma_add_digit(0, a % 2, a / 2, 0);
        lemma_add_zero(a / 2);
    }
}

/// Multiplication, seen through the constant term of the right operand.
pub proof fn lemma_mul_digit_right(a: nat, b: nat, f: nat)
    requires
        f < 2,
    ensures
        poly_mul(a, 2 * b + f) == poly_add(if f == 1 { a } else { 0 }, 2 * poly_mul(a, b)),
{
    lemma_mul_halves(a, 2 * b + f);
    assert((2 * b + f) / 2 == b && (2 * b + f) % 2 == f);
}

pub proof fn lemma_mul_add_left(a: nat, b: nat, c: nat)
    ensures
        poly_mul(poly_add(a, b), c) == poly_add(poly_mul(a, c), poly_mul(b, c)),
    decreases c,
{
    lemma_add_zero(0);
    if c == 0 {
        lemma_mul_zero(a);
        lemma_mul_zero(b);
        lemma_mul_zero(poly_add(a, b));
    } else {
        let h = c / 2;
        let (ea, eb) = if c % 2 == 1 { (a, b) } else { (0nat, 0nat) };
        lemma_mul_add_left(a, b, h);
        lemma_mul_halves(a, c);
        lemma_mul_halves(b, c);
        lemma_mul_halves(poly_add(a, b), c);
        lemma_add_digit(poly_mul(a, h), 0, poly_mul(b, h), 0);
        lemma_add_exchange(ea, 2 * poly_mul(a, h), eb, 2 * poly_mul(b, h));
    }
}

pub proof fn lemma_mul_double_left(a: nat, b: nat)
    ensures
        poly_mul(2 * a, b) == 2 * poly_mul(a, b),
    decreases b,
{
    if b == 0 {
        lemma_mul_zero(a);
        lemma_mul_zero(2 * a);
    } else {
        lemma_mul_double_left(a, b / 2);
        lemma_mul_halves(a, b);
        lemma_mul_halves(2 * a, b);
        let e = if b % 2 == 1 { a } else { 0 };
        lemma_add_digit(e, 0, 2 * poly_mul(a, b / 2), 0);
    }
}

pub proof fn lemma_mul_commutes(a: nat, b: nat)
    ensures
        poly_mul(a, b) == poly_mul(b, a),
    decreases a,
{
    if a == 0 {
        lemma_mul_zero(b);
    } else {
        let h = a / 2;
        let e = a % 2;
        lemma_add_digit(0, e, h, 0);
        lemma_add_zero(h);
        assert(poly_add(e, 2 * h) == a);
        lemma_mul_add_left(e, 2 * h, b);
        lemma_mul_double_left(h, b);
        lemma_mul_commutes(h, b);
        lemma_mul_one(b);
        lemma_mul_zero(b);
        lemma_mul_halves(b, a);
    }
}

pub proof fn lemma_mul_add_right(a: nat, b: nat, c: nat)
    ensures
        poly_mul(a, poly_add(b, c)) == poly_add(poly_mul(a, b), poly_mul(a, c)),
{
    lemma_mul_commutes(a, poly_add(b, c));
    lemma_mul_commutes(a, b);
    lemma_mul_commutes(a, c);
    lemma_mul_add_left(b, c, a);
}

pub proof fn lemma_mul_associates(a: nat, b: nat, c: nat)
    ensures
        poly_mul(poly_mul(a, b), c) == poly_mul(a, poly_mul(b, c)),
    decreases c,
{
    lemma_mul_zero(a);
    if c == 0 {
        lemma_mul_zero(b);
        lemma_mul_zero(poly_mul(a, b));
    } else {
        let h = c / 2;
        let eb = if c % 2 == 1 { b } else { 0 };
        lemma_mul_associates(a, b, h);
        lemma_mul_halves(poly_mul(a, b), c);
        lemma_mul_halves(b, c);
        lemma_mul_add_right(a, eb, 2 * poly_mul(b, h));
        lemma_mul_digit_right(a, poly_mul(b, h), 0);
        lemma_add_zero(2 * poly_mul(a, poly_mul(b, h)));
    }
}

/// Multiplying by `x^k` shifts.
pub proof fn lemma_mul_pow2(a: nat, k: nat)
    ensures
        poly_mul(a, pow2(k)) == a * pow2(k),
        poly_mul(pow2(k), a) == a * pow2(k),
    decreases k,
{
    lemma_mul_commutes(a, pow2(k));
    if k == 0 {
        lemma_pow2_0();
        lemma_mul_one(a);
    } else {
        let j = (k - 1) as nat;
        lemma_mul_pow2(a, j);
        lemma_pow2_unfold(k);
        lemma_mul_digit_right(a, pow2(j), 0);
        lemma_add_zero(2 * poly_mul(a, pow2(j)));
        lemma_shift_unfolds(a, k);
    }
}

/// A shifted operand shifts the product.
pub proof fn lemma_mul_shift(a: nat, b: nat, k: nat)
    ensures
        poly_mul(a * pow2(k), b) == poly_mul(a, b) * pow2(k),
        poly_mul(b, a * pow2(k)) == poly_mul(b, a) * pow2(k),
{
    lemma_mul_pow2(a, k);
    lemma_mul_pow2(poly_mul(b, a), k);
    lemma_mul_associates(b, a, pow2(k));
    lemma_mul_commutes(b, a * pow2(k));
    lemma_mul_commutes(a, b);
}

/// The degree of a product is the sum of the degrees.
pub proof fn lemma_mul_leading(a: nat, m: nat, b: nat, n: nat)
    requires
        pow2(m) <= a < pow2(m + 1),
        pow2(n) <= b < pow2(n + 1),
    ensures
        pow2(m + n) <= poly_mul(a, b) < pow2(m + n + 1),
    decreases n,
{
    lemma_pow2_0();
    if n == 0 {
        assert(b == 1);
        lemma_mul_one(a);
    } else {
        let j = (n - 1) as nat;
        lemma_pow2_unfold(n);
        lemma_pow2_unfold(n + 1);
        lemma_pow2_unfold(m + n);
        lemma_pow2_unfold(m + n + 1);
        lemma_mul_leading(a, m, b / 2, j);
        if n > 1 {
            lemma_pow2_strictly_increases(m + 1, m + n);
        }
        lemma_mul_halves(a, b);
        let e = if b % 2 == 1 { a } else { 0 };
        lemma_add_leading(2 * poly_mul(a, b / 2), e, m + n);
    }
}

/// A product of polynomials of degrees below `m` and `n`.
pub proof fn lemma_mul_bound(a: nat, m: nat, b: nat, n: nat)
    requires
        a < pow2(m),
        b < pow2(n),
    ensures
        poly_mul(a, b) < pow2(m + n),
        m + n > 0 ==> poly_mul(a, b) < pow2((m + n - 1) as nat),
{
    lemma_pow2_pos(m + n);
    if m + n > 0 {
        lemma_pow2_pos((m + n - 1) as nat);
    }
    lemma_mul_zero(a);
    lemma_mul_zero(b);
    if a > 0 && b > 0 {
        lemma_degree(a);
        lemma_degree(b);
        let i = degree(a);
        let j = degree(b);
        lemma_mul_leading(a, i, b, j);
        lemma_degree_below(a, m);
        lemma_degree_below(b, n);
        if i + j + 1 < m + n - 1 {
            lemma_pow2_strictly_increases(i + j + 1, (m + n - 1) as nat);
        }
        lemma_pow2_strictly_increases((m + n - 1) as nat, m + n);
    }
}

// ---- degree and division ----

pub proof fn lemma_degree(p: nat)
    requires
        p > 0,
    ensures
        pow2(degree(p)) <= p < pow2(degree(p) + 1),
    decreases p,
{
    reveal(degree);
    lemma_pow2_0();
    if p > 1 {
        lemma_degree(p / 2);
        lemma_pow2_unfold(degree(p));
        lemma_pow2_unfold(degree(p) + 1);
    }
}

pub proof fn lemma_degree_below(p: nat, k: nat)
    requires
        0 < p < pow2(k),
    ensures
        degree(p) < k,
{
    lemma_degree(p);
    if degree(p) > k {
        lemma_pow2_strictly_increases(k, degree(p));
    }
}

pub proof fn lemma_degree_is(p: nat, w: nat)
    requires
        pow2(w) <= p < pow2(w + 1),
    ensures
        degree(p) == w,
        p > 0,
{
    lemma_pow2_pos(w);
    lemma_degree(p);
    lemma_degree_below(p, w + 1);
    if degree(p) < w {
        if degree(p) + 1 < w {
            lemma_pow2_strictly_increases(degree(p) + 1, w);
        }
    }
}

/// The remainder has a lower degree than the divisor.
pub proof fn lemma_rem_bound(a: nat, p: nat)
    requires
        p > 0,
    ensures
        poly_rem(a, p) < pow2(degree(p)),
    decreases a,
{
    let w = degree(p);
    lemma_rem_halves(a, p);
    if a > 0 {
        lemma_rem_bound(a / 2, p);
        lemma_degree(p);
        lemma_pow2_unfold(w + 1);
        let t = 2 * poly_rem(a / 2, p) + a % 2;
        if t >= pow2(w) {
            lemma_add_leading_cancels(t, p, w);
        }
    } else {
        reveal(poly_rem);
    }
}

/// Division, one digit of the dividend at a time.
pub proof fn lemma_rem_halves(a: nat, p: nat)
    requires
        p > 0,
    ensures
        poly_rem(a, p) == reduce_step(2 * poly_rem(a / 2, p) + a % 2, p),
        poly_div(a, p) == 2 * poly_div(a / 2, p) + if 2 * poly_rem(a / 2, p) + a % 2 >= pow2(
            degree(p),
        ) {
            1nat
        } else {
            0nat
        },
{
    reveal(poly_rem);
    reveal(poly_div);
    lemma_pow2_pos(degree(p));
}

/// Dividend, divisor, quotient and remainder: `a == q * p + r`.
pub proof fn lemma_div_rem(a: nat, p: nat)
    requires
        p > 0,
    ensures
        a == poly_add(poly_mul(poly_div(a, p), p), poly_rem(a, p)),
    decreases a,
{
    lemma_add_zero(0);
    lemma_mul_zero(p);
    lemma_rem_halves(a, p);
    if a == 0 {
        reveal(poly_rem);
        reveal(poly_div);
    } else {
        let h = a / 2;
        let e = a % 2;
        let q = poly_div(h, p);
        let r = poly_rem(h, p);
        lemma_div_rem(h, p);
        let t = 2 * r + e;
        let g: nat = if t >= pow2(degree(p)) { 1 } else { 0 };
        // 2 * (q * p) + t == a
        let qp = poly_mul(q, p);
        lemma_add_digit(qp, 0, r, e);
        assert(poly_add(2 * qp, t) == a);
        // (2 * q + g) * p == g * p + 2 * (q * p)
        lemma_mul_commutes(2 * q + g, p);
        lemma_mul_digit_right(p, q, g);
        lemma_mul_commutes(p, q);
        let gp = if g == 1 { p } else { 0 };
        assert(poly_mul(poly_div(a, p), p) == poly_add(gp, 2 * qp));
        lemma_add_zero(t);
        assert(poly_rem(a, p) == poly_add(t, gp));
        lemma_add_commutes(gp, 2 * qp);
        lemma_add_commutes(t, gp);
        lemma_add_associates(2 * qp, gp, poly_add(gp, t));
        lemma_add_cancels(t, gp);
    }
}

/// Quotient and remainder are the only pair that division asks for.
pub proof fn lemma_div_rem_unique(a: nat, p: nat, q: nat, r: nat)
    requires
        p > 0,
        r < pow2(degree(p)),
        a == poly_add(poly_mul(q, p), r),
    ensures
        poly_div(a, p) == q,
        poly_rem(a, p) == r,
{
    let d = poly_div(a, p);
    let s = poly_rem(a, p);
    let w = degree(p);
    lemma_div_rem(a, p);
    lemma_rem_bound(a, p);
    lemma_add_bound(r, s, w);
    lemma_add_self(a);
    let qp = poly_mul(q, p);
    let dp = poly_mul(d, p);
    lemma_add_exchange(qp, r, dp, s);
    lemma_add_is_zero(poly_add(qp, dp), poly_add(r, s));
    lemma_mul_add_left(q, d, p);
    let c = poly_add(q, d);
    if c > 0 {
        lemma_degree(c);
        lemma_degree(p);
        lemma_mul_leading(c, degree(c), p, w);
        if degree(c) > 0 {
            lemma_pow2_strictly_increases(w, degree(c) + w);
        }
    }
    lemma_add_is_zero(q, d);
    lemma_mul_zero(p);
    lemma_add_is_zero(r, s);
}

/// A polynomial of lower degree than the divisor is its own remainder.
pub proof fn lemma_rem_small(a: nat, p: nat)
    requires
        p > 0,
        a < pow2(degree(p)),
    ensures
        poly_rem(a, p) == a,
        poly_div(a, p) == 0,
{
    lemma_mul_zero(p);
    lemma_add_zero(a);
    lemma_div_rem_unique(a, p, 0, a);
}

/// Taking remainders is additive.
pub proof fn lemma_rem_add(a: nat, b: nat, p: nat)
    requires
        p > 0,
    ensures
        poly_rem(poly_add(a, b), p) == poly_add(poly_rem(a, p), poly_rem(b, p)),
{
    lemma_div_rem(a, p);
    lemma_div_rem(b, p);
    lemma_rem_bound(a, p);
    lemma_rem_bound(b, p);
    let (qa, ra) = (poly_div(a, p), poly_rem(a, p));
    let (qb, rb) = (poly_div(b, p), poly_rem(b, p));
    lemma_add_bound(ra, rb, degree(p));
    lemma_add_exchange(poly_mul(qa, p), ra, poly_mul(qb, p), rb);
    lemma_mul_add_left(qa, qb, p);
    lemma_div_rem_unique(poly_add(a, b), p, poly_add(qa, qb), poly_add(ra, rb));
}

/// Multiples of the divisor leave nothing.
pub proof fn lemma_rem_multiple(q: nat, p: nat)
    requires
        p > 0,
    ensures
        poly_rem(poly_mul(q, p), p) == 0,
{
    lemma_add_zero(poly_mul(q, p));
    lemma_pow2_pos(degree(p));
    lemma_div_rem_unique(poly_mul(q, p), p, q, 0);
}

/// An operand of a product may be reduced first.
pub proof fn lemma_rem_mul(a: nat, b: nat, p: nat)
    requires
        p > 0,
    ensures
        poly_rem(poly_mul(poly_rem(a, p), b), p) == poly_rem(poly_mul(a, b), p),
        poly_rem(poly_mul(b, poly_rem(a, p)), p) == poly_rem(poly_mul(b, a), p),
{
    let q = poly_div(a, p);
    let r = poly_rem(a, p);
    let qp = poly_mul(q, p);
    lemma_div_rem(a, p);
    lemma_mul_add_left(qp, r, b);
    lemma_mul_commutes(qp, b);
    lemma_mul_associates(b, q, p);
    lemma_rem_multiple(poly_mul(b, q), p);
    lemma_rem_add(poly_mul(qp, b), poly_mul(r, b), p);
    lemma_add_zero(poly_rem(poly_mul(r, b), p));
    lemma_mul_commutes(r, b);
    lemma_mul_commutes(a, b);
}

/// Operands that agree modulo `p` give products that agree modulo `p`.
pub proof fn lemma_rem_mul_congruent(a: nat, b: nat, c: nat, p: nat)
    requires
        p > 0,
        poly_rem(a, p) == poly_rem(b, p),
    ensures
        poly_rem(poly_mul(a, c), p) == poly_rem(poly_mul(b, c), p),
        poly_rem(poly_mul(c, a), p) == poly_rem(poly_mul(c, b), p),
{
    lemma_rem_mul(a, c, p);
    lemma_rem_mul(b, c, p);
}

/// Doubling: the remainder of `x * a` is one step from the remainder of `a`.
pub proof fn lemma_rem_digit(a: nat, e: nat, p: nat)
    requires
        p > 0,
        e < 2,
    ensures
        poly_rem(2 * a + e, p) == reduce_step(2 * poly_rem(a, p) + e, p),
        poly_div(2 * a + e, p) == 2 * poly_div(a, p) + if 2 * poly_rem(a, p) + e >= pow2(
            degree(p),
        ) {
            1nat
        } else {
            0nat
        },
{
    lemma_rem_halves(2 * a + e, p);
    assert((2 * a + e) / 2 == a && (2 * a + e) % 2 == e);
}

} // verus!
