//! What binary64 arithmetic rounds to, and what the statistics are in numbers.
use crate::fpu::{Fpu32, Fpu64, Op32, Op64};
use crate::literal::{WIDE_KIBI, WIDE_MILLION, WIDE_THOUSAND, ZERO};
use crate::number::{lit, wide_lit, Real32, Real64};
use crate::rounding::{
    huge, law_divided, law_literals, law_mag_sum, law_mag_within, law_order, mag, rounds, tiny, val,
};
use crate::stats::{ascending, mebibytes_of, percentile_index, summary_of, PERCENTILE};
use crate::timing::elapsed_of;
use vstd::arithmetic::div_mod::{lemma_fundamental_div_mod, lemma_mod_bound};
use vstd::arithmetic::power2::{lemma2_to64, lemma_pow2_adds, lemma_pow2_pos, pow2};
use vstd::prelude::*;

verus! {

/// Neither infinite nor not a number.
pub open spec fn is_finite64(a: Real64) -> bool {
    a.magnitude() < 0x7ff0_0000_0000_0000
}

/// The number that a finite binary64 value stands for.
#[verifier::opaque]
pub open spec fn wide_val(a: Real64) -> real {
    let n = a.significand() * pow2((a.exponent() + 1074) as nat);
    (if a.negative() {
        -n
    } else {
        n
    }) as real / pow2(1074) as real
}

/// `r` is `v`, rounded. No negative value is the result of a positive number.
pub open spec fn rounds64(v: real, r: Real64) -> bool {
    &&& v > 0 as real ==> !r.negative()
    &&& mag(v) <= huge() ==> is_finite64(r) && mag(wide_val(r) - v) <= mag(v)
        / 1125899906842624 as real + tiny()
}

/// Every result on the two units that the statistics use is the exact one, rounded; a
/// widened value stays what it is.
#[verifier::opaque]
pub open spec fn faithful64<F: Fn(Op32) -> Real32, G: Fn(Op64) -> Real64>(
    u: &Fpu32<F>,
    w: &Fpu64<G>,
) -> bool {
    &&& forall|a: Real64, b: Real64|
        #![trigger w.value(Op64::Mul(a, b))]
        is_finite64(a) && is_finite64(b) ==> rounds64(wide_val(a) * wide_val(b), w.mul(a, b))
    &&& forall|a: Real64, b: Real64|
        #![trigger w.value(Op64::Div(a, b))]
        is_finite64(a) && is_finite64(b) && wide_val(b) != 0 as real ==> rounds64(
            wide_val(a) / wide_val(b),
            w.div(a, b),
        )
    &&& forall|n: u64|
        #![trigger w.value(Op64::FromUint(n))]
        rounds64(n as real, w.from_uint(n))
    &&& forall|a: Real32|
        #![trigger w.value(Op64::Widen(a))]
        a.is_finite() ==> is_finite64(w.widen(a)) && wide_val(w.widen(a)) == val(a)
    &&& forall|a: Real64|
        #![trigger u.value(Op32::Narrow(a))]
        is_finite64(a) ==> rounds(wide_val(a), u.narrow(a))
}

/// The number of a value below 2^53 is its significand, so many times halved.
proof fn lemma_wide_val(a: Real64, k: nat)
    requires
        is_finite64(a),
        !a.negative(),
        a.exponent() == -(k as int),
    ensures
        wide_val(a) * pow2(k) as real == a.significand() as real,
{
    reveal(wide_val);
    let m = a.significand();
    let p = pow2((1074 - k) as nat) as int;
    let q = pow2(k) as int;
    lemma_pow2_pos((1074 - k) as nat);
    lemma_pow2_pos(k);
    lemma_pow2_adds((1074 - k) as nat, k);
    let (x, y, z) = (m as real, p as real, q as real);
    assert((m * p) as real == x * y) by (nonlinear_arith)
        requires
            x == m as real,
            y == p as real,
    ;
    assert((p * q) as real == y * z) by (nonlinear_arith)
        requires
            z == q as real,
            y == p as real,
    ;
    assert(x * y / (y * z) * z == x) by (nonlinear_arith)
        requires
            y > 0 as real,
            z > 0 as real,
    ;
}

proof fn lemma_wide_literal(bits: u64, k: nat, p: int)
    requires
        is_finite64(wide_lit(bits)),
        bits < 0x8000_0000_0000_0000,
        wide_lit(bits).exponent() == -(k as int),
        pow2(k) == p,
    ensures
        wide_val(wide_lit(bits)) == wide_lit(bits).significand() as real / p as real,
{
    lemma_wide_val(wide_lit(bits), k);
    lemma_pow2_pos(k);
    let (v, x, y) = (
        wide_val(wide_lit(bits)),
        p as real,
        wide_lit(bits).significand() as real,
    );
    assert(v == y / x) by (nonlinear_arith)
        requires
            x > 0 as real,
            v * x == y,
    ;
}

proof fn lemma_wide_literals()
    ensures
        is_finite64(wide_lit(WIDE_THOUSAND)),
        wide_val(wide_lit(WIDE_THOUSAND)) == 1000 as real,
        is_finite64(wide_lit(WIDE_MILLION)),
        wide_val(wide_lit(WIDE_MILLION)) == 1000000 as real,
        is_finite64(wide_lit(PERCENTILE)),
        mag(wide_val(wide_lit(PERCENTILE)) - 99 as real / 100 as real) <= 1 as real
            / 1000000000000 as real,
{
    lemma2_to64();
    lemma_pow2_adds(32, 11);
    lemma_pow2_adds(32, 1);
    lemma_pow2_adds(32, 21);
    lemma_wide_literal(WIDE_THOUSAND, 43, 0x800_0000_0000);
    lemma_wide_literal(WIDE_MILLION, 33, 0x2_0000_0000);
    lemma_wide_literal(PERCENTILE, 53, 0x20_0000_0000_0000);
    law_mag_within(
        wide_val(wide_lit(PERCENTILE)) - 99 as real / 100 as real,
        1 as real / 1000000000000 as real,
    );
}

/// The integer part of a value is the greatest integer that is not above it.
pub proof fn law_wide_floor(a: Real64)
    requires
        is_finite64(a),
        !a.negative(),
        a.exponent() <= 0,
        wide_val(a) <= 100000000 as real,
    ensures
        a.floor_usize() as real <= wide_val(a),
        wide_val(a) < a.floor_usize() as real + 1 as real,
{
    lemma2_to64();
    let k = (-a.exponent()) as nat;
    lemma_wide_val(a, k);
    lemma_pow2_pos(k);
    let (m, p) = (a.significand(), pow2(k) as int);
    let n = m / p;
    lemma_fundamental_div_mod(m, p);
    lemma_mod_bound(m, p);
    assert(n * p <= m < (n + 1) * p && n >= 0) by (nonlinear_arith)
        requires
            m == p * n + m % p,
            0 <= m % p < p,
            m >= 0,
    ;
    let (v, x, y) = (wide_val(a), p as real, n as real);
    lemma_real(n, p);
    lemma_real(n + 1, p);
    assert(y <= v && v < y + 1 as real) by (nonlinear_arith)
        requires
            x > 0 as real,
            y * x <= v * x,
            v * x < (y + 1 as real) * x,
    ;
    assert(n <= 100000000);
    if k == 0 {
        assert(m / 1 == m);
        assert(m * 1 == m);
    }
}

proof fn lemma_real(i: int, j: int)
    ensures
        (i * j) as real == i as real * j as real,
{
    let (x, y) = (i as real, j as real);
    assert((i * j) as real == x * y) by (nonlinear_arith)
        requires
            x == i as real,
            y == j as real,
    ;
}

/// A positive exponent makes a large number.
proof fn lemma_exponent(a: Real64)
    requires
        is_finite64(a),
        !a.negative(),
        wide_val(a) <= 100000000 as real,
    ensures
        a.exponent() <= 0,
{
    if a.exponent() > 0 {
        reveal(wide_val);
        let e = a.exponent() as nat;
        lemma_pow2_adds(e, 1074);
        lemma_pow2_pos(e);
        lemma_pow2_pos(1074);
        let (m, p, q) = (a.significand(), pow2(e) as int, pow2(1074) as int);
        let n = m * pow2((a.exponent() + 1074) as nat);
        assert(n == (m * p) * q) by (nonlinear_arith)
            requires
                n == m * (p * q),
        ;
        assert(m * p >= m) by (nonlinear_arith)
            requires
                m >= 0,
                p >= 1,
        ;
        lemma_real(m * p, q);
        let (x, y) = ((m * p) as real, q as real);
        assert(x * y / y == x) by (nonlinear_arith)
            requires
                y > 0 as real,
        ;
    }
}

/// The 99th percentile stands behind 99 hundredths of the sorted times, and no more:
/// 100 times its place is at most 99 times their number, and the next place is beyond
/// that.
pub proof fn law_percentile<F: Fn(Op32) -> Real32, G: Fn(Op64) -> Real64>(
    u: &Fpu32<F>,
    w: &Fpu64<G>,
    n: int,
)
    requires
        faithful64(u, w),
        0 < n < 10000000,
    ensures
        0 <= percentile_index(w, n) < n,
        100 * percentile_index(w, n) <= 99 * n <= 100 * (percentile_index(w, n) + 1),
{
    reveal(faithful64);
    lemma_wide_literals();
    let x = n as real;
    let a = w.from_uint(n as u64);
    assert(rounds64((n as u64) as real, w.value(Op64::FromUint(n as u64))));
    law_mag_sum(x, x);
    let e = 1 as real / 10000000 as real;
    law_mag_within(wide_val(a) - x, e);
    let k = wide_val(wide_lit(PERCENTILE));
    let g = k - 99 as real / 100 as real;
    law_mag_within(g, 1 as real / 1000000000000 as real);
    let p = wide_val(a) * k;
    let d = wide_val(a) - x;
    assert(-(1 as real / 10000 as real) <= p - x * 99 as real / 100 as real <= 1 as real
        / 10000 as real) by (nonlinear_arith)
        requires
            p == wide_val(a) * k,
            d == wide_val(a) - x,
            g == k - 99 as real / 100 as real,
            -(1 as real / 10000000 as real) <= d <= 1 as real / 10000000 as real,
            -(1 as real / 1000000000000 as real) <= g <= 1 as real / 1000000000000 as real,
            (1 as real) <= x <= 10000000 as real,
    ;
    let r = w.mul(a, wide_lit(PERCENTILE));
    assert(rounds64(p, w.value(Op64::Mul(a, wide_lit(PERCENTILE)))));
    law_mag_sum(p, p);
    law_mag_within(wide_val(r) - p, 1 as real / 10000 as real);
    lemma_exponent(r);
    law_wide_floor(r);
    let i = r.floor_usize();
    assert(100 as real * i as real <= 99 as real * x + 1 as real / 10 as real);
    assert(99 as real * x <= 100 as real * (i + 1) as real + 1 as real / 10 as real);
}

/// A rounded quotient times its divisor is the dividend, up to rounding.
proof fn lemma_quotient_back(n: real, d: real, r: real)
    requires
        d > 0 as real,
        n >= 0 as real,
        mag(r - n / d) <= mag(n / d) / 1125899906842624 as real + tiny(),
        d <= 1000000000000 as real,
    ensures
        mag(r * d - n) <= n / 1125899906842624 as real + 1 as real / 1000000 as real,
{
    let q = n / d;
    law_divided(n, d);
    assert(q >= 0 as real) by (nonlinear_arith)
        requires
            q * d == n,
            d > 0 as real,
            n >= 0 as real,
    ;
    law_mag_sum(q, q);
    let b = q / 1125899906842624 as real + tiny();
    law_mag_within(r - q, b);
    let e = (r - q) * d;
    assert(r * d == n + e) by (nonlinear_arith)
        requires
            q * d == n,
            e == (r - q) * d,
    ;
    assert(b * d == n / 1125899906842624 as real + d / 1152921504606846976 as real)
        by (nonlinear_arith)
        requires
            q * d == n,
            b == q / 1125899906842624 as real + 1 as real / 1152921504606846976 as real,
    ;
    assert(-(b * d) <= e <= b * d) by (nonlinear_arith)
        requires
            e == (r - q) * d,
            -b <= r - q <= b,
            d > 0 as real,
    ;
    law_mag_within(r * d - n, n / 1125899906842624 as real + 1 as real / 1000000 as real);
}

/// The rates of a summary: frames per second times seconds are the frames, and the low
/// rate times the milliseconds of the 99th percentile are one second.
pub proof fn law_rates<F: Fn(Op32) -> Real32, G: Fn(Op64) -> Real64>(
    u: &Fpu32<F>,
    w: &Fpu64<G>,
    cpu: Seq<Real32>,
    gpu: Seq<Real32>,
    dt: Real64,
)
    requires
        faithful64(u, w),
        0 < cpu.len() < 10000000,
        is_finite64(dt),
        1 as real / 1000 as real <= wide_val(dt) <= 1000000 as real,
    ensures
        ({
            let r = summary_of(u, w, cpu, gpu, dt);
            let slow = ascending(cpu)[percentile_index(w, cpu.len() as int)];
            let n = cpu.len() as real;
            &&& is_finite64(r.fps)
            &&& mag(wide_val(r.fps) * wide_val(dt) - n) <= n / 1000000 as real + 1 as real
                / 100000 as real
            &&& slow.is_finite() && 1 as real / 1000 as real <= val(slow) <= 1000000 as real ==> {
                &&& is_finite64(r.fps_1pct_low)
                &&& mag(wide_val(r.fps_1pct_low) * val(slow) - 1000 as real) <= 1 as real
                    / 1000 as real
            }
        }),
{
    reveal(faithful64);
    lemma_wide_literals();
    law_literals();
    let n = cpu.len() as real;
    let a = w.from_uint(cpu.len() as u64);
    assert(rounds64((cpu.len() as u64) as real, w.value(Op64::FromUint(cpu.len() as u64))));
    law_mag_sum(n, n);
    law_mag_within(wide_val(a) - n, 1 as real / 10000000 as real);
    let (x, d) = (wide_val(a), wide_val(dt));
    let q = x / d;
    law_divided(x, d);
    assert((0 as real) < q <= 20000000000 as real) by (nonlinear_arith)
        requires
            q * d == x,
            d * 1000 as real >= 1 as real,
            (0 as real) < x <= 20000000 as real,
    ;
    law_mag_sum(q, q);
    assert(rounds64(x / d, w.value(Op64::Div(a, dt))));
    let fps = wide_val(w.div(a, dt));
    lemma_quotient_back(x, d, fps);
    law_mag_within(fps * d - x, 1 as real / 200000 as real);
    law_mag_within(fps * d - n, n / 1000000 as real + 1 as real / 100000 as real);
    let slow = ascending(cpu)[percentile_index(w, cpu.len() as int)];
    if slow.is_finite() && 1 as real / 1000 as real <= val(slow) <= 1000000 as real {
        law_order(lit(ZERO), slow);
        let s = w.widen(slow);
        assert(is_finite64(w.value(Op64::Widen(slow))));
        let t = wide_val(s);
        let k = wide_lit(WIDE_THOUSAND);
        let z = 1000 as real / t;
        law_divided(1000 as real, t);
        assert((0 as real) < z <= 1000000 as real) by (nonlinear_arith)
            requires
                z * t == 1000 as real,
                t * 1000 as real >= 1 as real,
        ;
        law_mag_sum(z, z);
        assert(rounds64(wide_val(k) / t, w.value(Op64::Div(k, s))));
        let low = wide_val(w.div(k, s));
        lemma_quotient_back(1000 as real, t, low);
        law_mag_within(low * t - 1000 as real, 1 as real / 1000 as real);
    }
}

/// The milliseconds between two timestamps: a million of them are the ticks times the
/// nanoseconds that each takes, up to a part in a million.
pub proof fn law_elapsed<F: Fn(Op32) -> Real32, G: Fn(Op64) -> Real64>(
    u: &Fpu32<F>,
    w: &Fpu64<G>,
    begin: u64,
    end: u64,
    period: Real32,
)
    requires
        faithful64(u, w),
        period.is_finite(),
        0 as real <= val(period) <= 1000000 as real,
        end - begin <= 1000000000000,
    ensures
        elapsed_of(u, w, begin, end, period) is Some <==> begin <= end,
        begin <= end ==> {
            let ms = elapsed_of(u, w, begin, end, period)->0;
            let ns = (end - begin) as real * val(period);
            &&& ms.is_finite()
            &&& mag(val(ms) * 1000000 as real - ns) <= ns / 1000000 as real + 1 as real
        },
{
    if begin <= end {
        reveal(faithful64);
        lemma_wide_literals();
        let n = (end - begin) as u64;
        let x = n as real;
        let a = w.from_uint(n);
        assert(rounds64(x, w.value(Op64::FromUint(n))));
        law_mag_sum(x, x);
        let b = w.widen(period);
        assert(is_finite64(w.value(Op64::Widen(period))));
        let t = val(period);
        let e = wide_val(a) - x;
        law_mag_within(e, x / 1125899906842624 as real + tiny());
        let p = wide_val(a) * t;
        let ns = x * t;
        let f = e * t;
        assert(p == ns + f) by (nonlinear_arith)
            requires
                p == wide_val(a) * t,
                ns == x * t,
                e == wide_val(a) - x,
                f == e * t,
        ;
        let c = x / 1125899906842624 as real + tiny();
        assert(-(c * t) <= f <= c * t) by (nonlinear_arith)
            requires
                f == e * t,
                -c <= e <= c,
                t >= 0 as real,
        ;
        assert(c * t == ns / 1125899906842624 as real + t / 1152921504606846976 as real)
            by (nonlinear_arith)
            requires
                c == x / 1125899906842624 as real + 1 as real / 1152921504606846976 as real,
                ns == x * t,
        ;
        assert(0 as real <= ns <= 1000000000000000000 as real) by (nonlinear_arith)
            requires
                ns == x * t,
                0 as real <= x <= 1000000000000 as real,
                0 as real <= t <= 1000000 as real,
        ;
        let m = w.mul(a, b);
        assert(rounds64(wide_val(a) * wide_val(b), w.value(Op64::Mul(a, b))));
        law_mag_within(p, ns + ns + 1 as real);
        let mm = wide_val(m);
        law_mag_within(mm - p, (ns + ns + 1 as real) / 1125899906842624 as real + tiny());
        let k = wide_lit(WIDE_MILLION);
        let q = w.div(m, k);
        assert(rounds64(mm / wide_val(k), w.value(Op64::Div(m, k))));
        let z = mm / 1000000 as real;
        law_mag_within(z, (ns + ns + 2 as real) / 1000000 as real);
        let qq = wide_val(q);
        law_mag_within(qq - z, (ns + ns + 2 as real) / 1125899906842624000000 as real + tiny());
        let r = u.narrow(q);
        assert(rounds(qq, u.value(Op32::Narrow(q))));
        law_mag_within(qq, (ns + ns + 3 as real) / 1000000 as real);
        law_mag_within(val(r) - qq, (ns + ns + 3 as real) / 8388608000000 as real + tiny());
        law_mag_within(val(r) * 1000000 as real - ns, ns / 1000000 as real + 1 as real);
    }
}

/// So many mebibytes are 1048576 bytes each, up to a part in a million.
pub proof fn law_mebibytes<F: Fn(Op32) -> Real32, G: Fn(Op64) -> Real64>(
    u: &Fpu32<F>,
    w: &Fpu64<G>,
    bytes: u64,
)
    requires
        faithful64(u, w),
    ensures
        ({
            let r = mebibytes_of(w, bytes);
            let n = bytes as real;
            &&& is_finite64(r)
            &&& mag(wide_val(r) * 1048576 as real - n) <= n / 1000000 as real + 1 as real
                / 1000000 as real
        }),
{
    reveal(faithful64);
    lemma2_to64();
    lemma_pow2_adds(32, 10);
    lemma_wide_literal(WIDE_KIBI, 42, 0x400_0000_0000);
    let k = wide_lit(WIDE_KIBI);
    let n = bytes as real;
    let a = w.from_uint(bytes);
    assert(rounds64(n, w.value(Op64::FromUint(bytes))));
    law_mag_sum(n, n);
    law_mag_within(wide_val(a) - n, n / 1125899906842624 as real + tiny());
    let b = w.div(a, k);
    assert(rounds64(wide_val(a) / wide_val(k), w.value(Op64::Div(a, k))));
    let x = wide_val(a) / 1024 as real;
    law_mag_within(x, (n + n + 1 as real) / 1024 as real);
    law_mag_within(wide_val(b) - x, (n + n + 1 as real) / 1125899906842624 as real + tiny());
    let c = w.div(b, k);
    assert(rounds64(wide_val(b) / wide_val(k), w.value(Op64::Div(b, k))));
    let y = wide_val(b) / 1024 as real;
    let m = (n + n + 2 as real) / 1048576 as real;
    law_mag_within(y, m);
    law_mag_within(wide_val(c) - y, m / 1125899906842624 as real + tiny());
    law_mag_within(
        wide_val(c) * 1048576 as real - n,
        n / 1000000 as real + 1 as real / 1000000 as real,
    );
}

} // verus!
