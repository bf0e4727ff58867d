//! What the host's arithmetic rounds to.
//!
//! [`faithful`] says of a unit that each result is next to the exact one: no finite
//! value lies between the two, and they differ by less than one part in eight
//! million. Binary32 arithmetic is so in every rounding mode. What the library
//! calculates can then be stated in numbers.
use crate::fpu::{answers32, Fpu32, Op32};
use crate::literal::{HALF, ONE, QUARTER, TWO, ZERO};
use crate::number::{law_units, lit, Real32};
use vstd::arithmetic::power2::{lemma2_to64, lemma_pow2_adds, lemma_pow2_pos, pow2};
use vstd::prelude::*;

verus! {

/// The number that a finite value stands for.
#[verifier::opaque]
pub open spec fn val(a: Real32) -> real {
    a.units() as real / pow2(149) as real
}

/// A number without its sign.
#[verifier::opaque]
pub open spec fn mag(x: real) -> real {
    if x < 0 as real {
        -x
    } else {
        x
    }
}

/// 2^-60: next to nothing.
pub open spec fn tiny() -> real {
    1 as real / 1152921504606846976 as real
}

/// 2^100: no result up to this is infinite.
pub open spec fn huge() -> real {
    1267650600228229401496703205376 as real
}

/// No finite value lies strictly between `v` and `r`.
#[verifier::opaque]
pub open spec fn next_to(v: real, r: Real32) -> bool {
    forall|x: Real32| #[trigger]
        x.is_finite() ==> (val(x) <= v ==> x.le(r)) && (v <= val(x) ==> r.le(x))
}

/// `r` is `v`, rounded.
pub open spec fn rounds(v: real, r: Real32) -> bool {
    &&& !r.is_nan()
    &&& next_to(v, r)
    &&& mag(v) <= huge() ==> r.is_finite() && mag(val(r) - v) <= mag(v) / 8388608 as real + tiny()
}

/// `r` is the square root of `v`, rounded.
pub open spec fn rounds_root(v: real, r: Real32) -> bool {
    &&& lit(0).le(r)
    &&& v <= huge() ==> r.is_finite() && mag(val(r) * val(r) - v) <= v / 2097152 as real + tiny()
}

/// Every result on the unit is the exact one, rounded.
#[verifier::opaque]
pub open spec fn faithful<F: Fn(Op32) -> Real32>(u: &Fpu32<F>) -> bool {
    &&& forall|a: Real32, b: Real32|
        #![trigger u.value(Op32::Add(a, b))]
        a.is_finite() && b.is_finite() ==> rounds(val(a) + val(b), u.add(a, b))
    &&& forall|a: Real32, b: Real32|
        #![trigger u.value(Op32::Sub(a, b))]
        a.is_finite() && b.is_finite() ==> rounds(val(a) - val(b), u.sub(a, b))
    &&& forall|a: Real32, b: Real32|
        #![trigger u.value(Op32::Mul(a, b))]
        a.is_finite() && b.is_finite() ==> rounds(val(a) * val(b), u.mul(a, b))
    &&& forall|a: Real32, b: Real32|
        #![trigger u.value(Op32::Div(a, b))]
        a.is_finite() && b.is_finite() && val(b) != 0 as real ==> rounds(
            val(a) / val(b),
            u.div(a, b),
        )
    &&& forall|a: Real32|
        #![trigger u.value(Op32::Sqrt(a))]
        a.is_finite() && val(a) >= 0 as real ==> rounds_root(val(a), u.sqrt(a))
    &&& forall|n: u64|
        #![trigger u.value(Op32::FromUint(n))]
        rounds(n as real, u.from_uint(n))
    &&& forall|n: i64|
        #![trigger u.value(Op32::FromInt(n))]
        rounds(n as real, u.from_int(n))
}

pub proof fn law_sum<F: Fn(Op32) -> Real32>(u: &Fpu32<F>, a: Real32, b: Real32)
    requires
        faithful(u),
        a.is_finite(),
        b.is_finite(),
    ensures
        rounds(val(a) + val(b), u.add(a, b)),
{
    reveal(faithful);
}

pub proof fn law_difference<F: Fn(Op32) -> Real32>(u: &Fpu32<F>, a: Real32, b: Real32)
    requires
        faithful(u),
        a.is_finite(),
        b.is_finite(),
    ensures
        rounds(val(a) - val(b), u.sub(a, b)),
{
    reveal(faithful);
}

pub proof fn law_product<F: Fn(Op32) -> Real32>(u: &Fpu32<F>, a: Real32, b: Real32)
    requires
        faithful(u),
        a.is_finite(),
        b.is_finite(),
    ensures
        rounds(val(a) * val(b), u.mul(a, b)),
{
    reveal(faithful);
}

pub proof fn law_quotient<F: Fn(Op32) -> Real32>(u: &Fpu32<F>, a: Real32, b: Real32)
    requires
        faithful(u),
        a.is_finite(),
        b.is_finite(),
        val(b) != 0 as real,
    ensures
        rounds(val(a) / val(b), u.div(a, b)),
{
    reveal(faithful);
}

pub proof fn law_root<F: Fn(Op32) -> Real32>(u: &Fpu32<F>, a: Real32)
    requires
        faithful(u),
        a.is_finite(),
        val(a) >= 0 as real,
    ensures
        rounds_root(val(a), u.sqrt(a)),
{
    reveal(faithful);
}

pub proof fn law_whole<F: Fn(Op32) -> Real32>(u: &Fpu32<F>, n: u64)
    requires
        faithful(u),
    ensures
        rounds(n as real, u.from_uint(n)),
{
    reveal(faithful);
}

/// Finite values are ordered as the numbers that they stand for.
pub proof fn law_order(a: Real32, b: Real32)
    requires
        a.is_finite(),
        b.is_finite(),
    ensures
        a.le(b) <==> val(a) <= val(b),
        a.lt(b) <==> val(a) < val(b),
        a.same(b) <==> val(a) == val(b),
{
    reveal(val);
    law_units(a, b);
    law_units(b, a);
    lemma_pow2_pos(149);
    let p = pow2(149) as real;
    let x = a.units() as real;
    let y = b.units() as real;
    assert(x / p <= y / p <==> x <= y) by (nonlinear_arith)
        requires
            p > 0 as real,
    ;
    assert(y / p <= x / p <==> y <= x) by (nonlinear_arith)
        requires
            p > 0 as real,
    ;
}

/// What is at least a finite value rounds to at least that value.
pub proof fn law_at_least(v: real, r: Real32, x: Real32)
    requires
        rounds(v, r),
        x.is_finite(),
        val(x) <= v,
    ensures
        x.le(r),
{
    reveal(next_to);
}

/// What is at most a finite value rounds to at most that value.
pub proof fn law_at_most(v: real, r: Real32, x: Real32)
    requires
        rounds(v, r),
        x.is_finite(),
        v <= val(x),
    ensures
        r.le(x),
{
    reveal(next_to);
}

/// What can be held exactly is.
pub proof fn law_exact(v: real, r: Real32, x: Real32)
    requires
        rounds(v, r),
        x.is_finite(),
        v == val(x),
    ensures
        r.same(x),
        r.is_finite(),
        val(r) == v,
{
    law_at_least(v, r, x);
    law_at_most(v, r, x);
    law_order(r, x);
}

/// The number that a value below 2^24 stands for is its significand, so many times
/// halved.
pub proof fn law_val(a: Real32, k: nat)
    requires
        a.is_finite(),
        a.exponent() == -(k as int),
    ensures
        val(a) * pow2(k) as real == (if a.negative() {
            -(a.significand() as real)
        } else {
            a.significand() as real
        }),
{
    reveal(val);
    let m = a.significand();
    let p = pow2((149 - k) as nat) as int;
    let q = pow2(k) as int;
    lemma_pow2_pos((149 - k) as nat);
    lemma_pow2_pos(k);
    lemma_pow2_adds((149 - k) as nat, k);
    let n = a.units();
    let s = if a.negative() {
        -m
    } else {
        m
    };
    assert(n == s * p) by (nonlinear_arith)
        requires
            n == (if s == -m && a.negative() {
                -(m * p)
            } else {
                m * p
            }),
            s == (if a.negative() {
                -m
            } else {
                m
            }),
    ;
    let (x, y, z) = (s as real, p as real, q as real);
    assert((s * p) as real == x * y) by (nonlinear_arith)
        requires
            x == s as real,
            y == p as real,
    ;
    assert((p * q) as real == y * z) by (nonlinear_arith)
        requires
            z == q as real,
            y == p as real,
    ;
    assert(x * y / (y * z) * z == x) by (nonlinear_arith)
        requires
            y > 0 as real,
            z > 0 as real,
    ;
}

/// The number of a value without its sign.
pub proof fn law_mag(a: Real32)
    requires
        a.is_finite(),
    ensures
        a.abs().is_finite(),
        val(a.abs()) == mag(val(a)),
{
    reveal(val);
    reveal(mag);
    lemma_pow2_pos(149);
    let p = pow2(149) as real;
    let n = a.units() as real;
    let zero = lit(0);
    law_units(a, zero);
    law_units(zero, a);
    law_units(a.abs(), zero);
    assert(a.abs().units() == (if a.negative() {
        -a.units()
    } else {
        a.units()
    }));
    assert((-n) / p == -(n / p)) by (nonlinear_arith)
        requires
            p > 0 as real,
    ;
    assert(n >= 0 as real ==> n / p >= 0 as real) by (nonlinear_arith)
        requires
            p > 0 as real,
    ;
    assert(n <= 0 as real ==> n / p <= 0 as real) by (nonlinear_arith)
        requires
            p > 0 as real,
    ;
}

/// A literal with `k` binary places, the number `m` times 2^-`k`.
pub proof fn law_literal(bits: u32, k: nat, p: int)
    requires
        lit(bits).is_finite(),
        bits < 0x8000_0000,
        lit(bits).exponent() == -(k as int),
        pow2(k) == p,
    ensures
        val(lit(bits)) == lit(bits).significand() as real / p as real,
{
    law_val(lit(bits), k);
    lemma_pow2_pos(k);
    let (v, x, y) = (val(lit(bits)), p as real, lit(bits).significand() as real);
    assert(v == y / x) by (nonlinear_arith)
        requires
            x > 0 as real,
            v * x == y,
    ;
}

/// The literals that several calculations use.
pub proof fn law_literals()
    ensures
        val(lit(ZERO)) == 0 as real,
        val(lit(QUARTER)) == 1 as real / 4 as real,
        val(lit(HALF)) == 1 as real / 2 as real,
        val(lit(ONE)) == 1 as real,
        val(lit(TWO)) == 2 as real,
{
    lemma2_to64();
    lemma_pow2_adds(5, 20);
    law_literal(QUARTER, 25, 0x200_0000);
    law_literal(HALF, 24, 0x100_0000);
    law_literal(ONE, 23, 0x80_0000);
    law_literal(TWO, 22, 0x40_0000);
    law_val(lit(ZERO), 149);
    lemma_pow2_pos(149);
    let (v, p) = (val(lit(ZERO)), pow2(149) as real);
    assert(v == 0 as real) by (nonlinear_arith)
        requires
            p > 0 as real,
            v * p == 0 as real,
    ;
}

/// The magnitude of a sum is at most the sum of the magnitudes.
pub proof fn law_mag_sum(x: real, y: real)
    ensures
        mag(x + y) <= mag(x) + mag(y),
        mag(x - y) <= mag(x) + mag(y),
        mag(x) <= mag(x - y) + mag(y),
        mag(x) >= 0 as real,
        mag(y) >= 0 as real,
        mag(-x) == mag(x),
        -mag(x) <= x <= mag(x),
        mag(x) == x || mag(x) == -x,
        x >= 0 as real ==> mag(x) == x,
{
    reveal(mag);
}

/// A number between two opposites is at most as large.
pub proof fn law_mag_within(x: real, e: real)
    ensures
        mag(x) <= e <==> -e <= x <= e,
{
    reveal(mag);
}

/// The magnitude of a product.
pub proof fn law_mag_product(x: real, y: real)
    ensures
        mag(x * y) == mag(x) * mag(y),
        mag(x) * mag(y) >= 0 as real,
{
    reveal(mag);
    let (a, b) = (mag(x), mag(y));
    assert(x * y == (if (x < 0 as real) == (y < 0 as real) {
        a * b
    } else {
        -(a * b)
    })) by (nonlinear_arith)
        requires
            a == x || a == -x,
            b == y || b == -y,
            (a == x) || (x < 0 as real),
            (b == y) || (y < 0 as real),
            a >= 0 as real,
            b >= 0 as real,
    ;
    assert(a * b >= 0 as real) by (nonlinear_arith)
        requires
            a >= 0 as real,
            b >= 0 as real,
    ;
}

/// A product grows with its factors.
pub proof fn law_larger_product(x: real, y: real, a: real, b: real)
    requires
        mag(x) <= a,
        mag(y) <= b,
    ensures
        mag(x * y) <= a * b,
{
    law_mag_product(x, y);
    law_mag_sum(x, y);
    let (m, n) = (mag(x), mag(y));
    assert(m * n <= a * b) by (nonlinear_arith)
        requires
            0 as real <= m <= a,
            0 as real <= n <= b,
    ;
}

/// A quotient times its divisor is the dividend.
pub proof fn law_divided(x: real, y: real)
    requires
        y != 0 as real,
    ensures
        x / y * y == x,
{
    assert(x / y * y == x) by (nonlinear_arith)
        requires
            y != 0 as real,
    ;
}

/// The value stands for this whole number.
pub open spec fn is_whole(a: Real32, n: int) -> bool {
    a.is_finite() && val(a) == n as real
}

/// The opposite value stands for the opposite number.
pub proof fn law_val_opposite(a: Real32)
    requires
        a.is_finite(),
    ensures
        a.opposite().is_finite(),
        val(a.opposite()) == -val(a),
{
    reveal(val);
    lemma_pow2_pos(149);
    let p = pow2(149) as real;
    let n = a.units() as real;
    assert(a.opposite().units() == -a.units());
    assert((-n) / p == -(n / p)) by (nonlinear_arith)
        requires
            p > 0 as real,
    ;
}

/// The value with 24 significant bits that is `m`, so many times halved.
proof fn lemma_whole_exists(n: int, m: int, k: nat) -> (x: Real32)
    requires
        0 < m < 0x100_0000,
        m == n * pow2(k),
        k <= 23,
    ensures
        is_whole(x, n),
    decreases 0x100_0000 - m,
{
    lemma2_to64();
    let p = pow2(k) as int;
    lemma_pow2_pos(k);
    if m >= 0x80_0000 {
        let x = Real32 { bits: (m - 0x80_0000 + (150 - k) * 0x80_0000) as u32 };
        assert(x.magnitude() == m - 0x80_0000 + (150 - k) * 0x80_0000);
        assert(x.magnitude() / 0x80_0000 == 150 - k);
        assert(x.significand() == m);
        law_val(x, k);
        let (v, y, z) = (val(x), p as real, n as real);
        assert(m as real == z * y) by (nonlinear_arith)
            requires
                m == n * p,
                z == n as real,
                y == p as real,
        ;
        assert(v == z) by (nonlinear_arith)
            requires
                y > 0 as real,
                v * y == z * y,
        ;
        x
    } else {
        lemma_pow2_adds(k, 1);
        assert(n * (p * 2) == 2 * (n * p)) by (nonlinear_arith);
        assert(k < 23) by {
            if k == 23 {
                assert(pow2(23) == 0x80_0000);
                assert(false) by (nonlinear_arith)
                    requires
                        m == n * p,
                        0 < m < 0x80_0000,
                        p == 0x80_0000,
                ;
            }
        }
        lemma_whole_exists(n, 2 * m, k + 1)
    }
}

/// Whole numbers up to 2^24 are held exactly.
pub proof fn law_whole_result(n: int, r: Real32)
    requires
        rounds(n as real, r),
        -0x100_0000 < n < 0x100_0000,
    ensures
        is_whole(r, n),
{
    lemma2_to64();
    if n == 0 {
        law_literals();
        law_exact(n as real, r, lit(ZERO));
    } else if n > 0 {
        let x = lemma_whole_exists(n, n, 0);
        law_exact(n as real, r, x);
    } else {
        let x = lemma_whole_exists(-n, -n, 0);
        law_val_opposite(x);
        law_exact(n as real, r, x.opposite());
    }
}

/// Sums, differences and products of whole numbers are exact, as long as they are
/// below 2^24.
pub proof fn law_whole_arithmetic<F: Fn(Op32) -> Real32>(
    u: &Fpu32<F>,
    a: Real32,
    b: Real32,
    i: int,
    j: int,
)
    requires
        faithful(u),
        is_whole(a, i),
        is_whole(b, j),
    ensures
        -0x100_0000 < i + j < 0x100_0000 ==> is_whole(u.add(a, b), i + j),
        -0x100_0000 < i - j < 0x100_0000 ==> is_whole(u.sub(a, b), i - j),
        -0x100_0000 < i * j < 0x100_0000 ==> is_whole(u.mul(a, b), i * j),
{
    let (x, y) = (i as real, j as real);
    assert((i * j) as real == x * y) by (nonlinear_arith)
        requires
            x == i as real,
            y == j as real,
    ;
    law_sum(u, a, b);
    law_difference(u, a, b);
    law_product(u, a, b);
    if -0x100_0000 < i + j < 0x100_0000 {
        law_whole_result(i + j, u.add(a, b));
    }
    if -0x100_0000 < i - j < 0x100_0000 {
        law_whole_result(i - j, u.sub(a, b));
    }
    if -0x100_0000 < i * j < 0x100_0000 {
        law_whole_result(i * j, u.mul(a, b));
    }
}

pub proof fn law_whole_signed<F: Fn(Op32) -> Real32>(u: &Fpu32<F>, n: i64)
    requires
        faithful(u),
        -0x100_0000 < n < 0x100_0000,
    ensures
        is_whole(u.from_int(n), n as int),
{
    reveal(faithful);
    law_whole_result(n as int, u.from_int(n));
}

/// The value stands for `x`, up to `e`.
pub open spec fn near(a: Real32, x: real, e: real) -> bool {
    a.is_finite() && mag(val(a) - x) <= e
}

/// A finite value stands for its number.
pub proof fn law_near_itself(a: Real32)
    requires
        a.is_finite(),
    ensures
        near(a, val(a), 0 as real),
{
    law_mag_within(0 as real, 0 as real);
}

/// Sums and differences of numbers below 32000 lose at most the 256th part of one.
pub proof fn law_near_sum<F: Fn(Op32) -> Real32>(
    u: &Fpu32<F>,
    a: Real32,
    b: Real32,
    x: real,
    y: real,
    e: real,
    f: real,
)
    requires
        faithful(u),
        near(a, x, e),
        near(b, y, f),
        e <= 1 as real,
        f <= 1 as real,
        mag(x) + mag(y) <= 32000 as real,
    ensures
        near(u.add(a, b), x + y, e + f + 1 as real / 256 as real),
        near(u.sub(a, b), x - y, e + f + 1 as real / 256 as real),
{
    let (p, q) = (val(a), val(b));
    law_mag_sum(p, x);
    law_mag_sum(q, y);
    law_mag_sum(p, q);
    law_mag_sum(p - x, q - y);
    law_sum(u, a, b);
    law_difference(u, a, b);
    let (s, d) = (val(u.add(a, b)), val(u.sub(a, b)));
    law_mag_sum(s - (p + q), (p - x) + (q - y));
    law_mag_sum(d - (p - q), (p - x) - (q - y));
    assert(s - (x + y) == (s - (p + q)) + ((p - x) + (q - y)));
    assert(d - (x - y) == (d - (p - q)) + ((p - x) - (q - y)));
}

/// A multiple of up to four of a number below 8000 loses at most the 256th part of one
/// more than so many times what was lost.
pub proof fn law_near_multiple<F: Fn(Op32) -> Real32>(
    u: &Fpu32<F>,
    c: Real32,
    a: Real32,
    k: real,
    x: real,
    e: real,
)
    requires
        faithful(u),
        c.is_finite(),
        val(c) == k,
        0 as real <= k <= 4 as real,
        near(a, x, e),
        e <= 1 as real / 4 as real,
        k * mag(x) <= 32000 as real,
    ensures
        near(u.mul(c, a), k * x, k * e + 1 as real / 256 as real),
        near(u.mul(a, c), k * x, k * e + 1 as real / 256 as real),
{
    let p = val(a);
    let kp = k * p;
    let kx = k * x;
    let g = p - x;
    assert(kp == p * k) by (nonlinear_arith)
        requires
            kp == k * p,
    ;
    assert(kp == kx + k * g) by (nonlinear_arith)
        requires
            kp == k * p,
            kx == k * x,
            g == p - x,
    ;
    law_mag_product(k, x);
    law_mag_product(k, g);
    law_mag_sum(k, k);
    law_mag_sum(kx, k * g);
    law_mag_sum(g, g);
    let mg = mag(g);
    assert(k * mg <= k * e && k * mg <= 1 as real) by (nonlinear_arith)
        requires
            0 as real <= k <= 4 as real,
            0 as real <= mg <= e,
            e <= 1 as real / 4 as real,
    ;
    law_product(u, c, a);
    law_product(u, a, c);
    let (r, s) = (val(u.mul(c, a)), val(u.mul(a, c)));
    law_mag_sum(r - kp, k * g);
    law_mag_sum(s - kp, k * g);
    assert(r - kx == (r - kp) + k * g);
    assert(s - kx == (s - kp) + k * g);
}

/// A third of a number below 24000 loses at most the 256th part of one more.
pub proof fn law_near_third<F: Fn(Op32) -> Real32>(
    u: &Fpu32<F>,
    c: Real32,
    a: Real32,
    x: real,
    e: real,
)
    requires
        faithful(u),
        is_whole(c, 3),
        near(a, x, e),
        e <= 1 as real,
        mag(x) <= 24000 as real,
    ensures
        near(u.div(a, c), x / 3 as real, e + 1 as real / 256 as real),
{
    let p = val(a);
    law_mag_sum(p, x);
    law_quotient(u, a, c);
    assert(p / val(c) == p / 3 as real);
    let t = p / 3 as real;
    law_mag_sum(p, p);
    law_mag_sum(p - x, p - x);
    law_mag_within(p, mag(p));
    law_mag_within(t, mag(p));
    let g = (p - x) / 3 as real;
    law_mag_within(p - x, e);
    law_mag_within(g, e);
    let r = val(u.div(a, c));
    law_mag_sum(r - t, g);
    assert(r - x / 3 as real == (r - t) + g);
}

/// What a host function that rounds gives: each of its results is the exact one,
/// rounded.
#[verifier::opaque]
pub open spec fn host_rounds<F: Fn(Op32) -> Real32>(f: F) -> bool {
    &&& forall|a: Real32, b: Real32, r: Real32| #[trigger]
        call_ensures(f, (Op32::Add(a, b),), r) && a.is_finite() && b.is_finite() ==> rounds(
            val(a) + val(b),
            r,
        )
    &&& forall|a: Real32, b: Real32, r: Real32| #[trigger]
        call_ensures(f, (Op32::Sub(a, b),), r) && a.is_finite() && b.is_finite() ==> rounds(
            val(a) - val(b),
            r,
        )
    &&& forall|a: Real32, b: Real32, r: Real32| #[trigger]
        call_ensures(f, (Op32::Mul(a, b),), r) && a.is_finite() && b.is_finite() ==> rounds(
            val(a) * val(b),
            r,
        )
    &&& forall|a: Real32, b: Real32, r: Real32| #[trigger]
        call_ensures(f, (Op32::Div(a, b),), r) && a.is_finite() && b.is_finite() && val(b)
            != 0 as real ==> rounds(val(a) / val(b), r)
    &&& forall|a: Real32, r: Real32| #[trigger]
        call_ensures(f, (Op32::Sqrt(a),), r) && a.is_finite() && val(a) >= 0 as real ==> rounds_root(
            val(a),
            r,
        )
    &&& forall|n: u64, r: Real32| #[trigger]
        call_ensures(f, (Op32::FromUint(n),), r) ==> rounds(n as real, r)
    &&& forall|n: i64, r: Real32| #[trigger]
        call_ensures(f, (Op32::FromInt(n),), r) ==> rounds(n as real, r)
}

/// A unit on a host function that rounds is faithful, as long as the function has a
/// result for each operation.
pub proof fn law_faithful<F: Fn(Op32) -> Real32>(u: &Fpu32<F>)
    requires
        host_rounds(u.host()),
        forall|op: Op32| #[trigger] answers32(u.host(), op),
    ensures
        faithful(u),
{
    let f = u.host();
    assert forall|op: Op32| call_ensures(f, (op,), #[trigger] u.value(op)) by {
        assert(answers32(f, op));
        u.law_value(op);
    }
    reveal(host_rounds);
    reveal(faithful);
}

} // verus!
