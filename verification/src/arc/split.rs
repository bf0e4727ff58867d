//! Where a curve is split, in numbers.
use crate::arc::line::{millionth, placed, placed_point};
use crate::arc::segment::{
    arc_pieces, between, extremum, quad_pieces, turns_back, LAST_SPLIT, MIN_SPEED_CHANGE,
};
use crate::fpu::{Fpu32, Op32};
use crate::literal::{ONE, ONE_TWENTIETH, ZERO};
use crate::number::{lit, Real32};
use crate::rounding::{
    faithful, law_at_least, law_at_most, law_difference, law_divided, law_larger_product,
    law_literal, law_literals, law_mag, law_mag_product, law_mag_sum, law_mag_within, law_order,
    law_product, law_quotient, law_sum, law_val, mag, tiny, val,
};
use vstd::arithmetic::power2::{lemma2_to64, lemma_pow2_adds, pow2};
use vstd::prelude::*;

verus! {

/// The point of the quadratic curve `a`, `b`, `c` at parameter `t`, along one axis.
pub open spec fn bezier(a: real, b: real, c: real, t: real) -> real {
    (1 as real - t) * ((1 as real - t) * a) + 2 as real * (t * ((1 as real - t) * b)) + t * (t * c)
}

/// How large the coordinates of a curve are along an axis, and one.
pub open spec fn size_of(p0: [Real32; 2], p1: [Real32; 2], p2: [Real32; 2], axis: int) -> real {
    1 as real + mag(val(p0[axis])) + mag(val(p1[axis])) + mag(val(p2[axis]))
}

/// A rounded point between two others.
proof fn lemma_rounded_between(a: real, b: real, t: real, d: real, p: real, r: real)
    requires
        0 as real <= t <= 1 as real,
        mag(d - (b - a)) <= mag(b - a) / 8388608 as real + tiny(),
        mag(p - d * t) <= mag(d * t) / 8388608 as real + tiny(),
        mag(r - (a + p)) <= mag(a + p) / 8388608 as real + tiny(),
    ensures
        mag(r - (a + t * (b - a))) <= millionth(1 as real / 4 as real + mag(a) + mag(b)),
{
    let c = b - a;
    let (e, f, g) = (d - c, p - d * t, r - (a + p));
    law_mag_sum(b, a);
    law_mag_sum(a, b);
    law_mag_sum(d, c);
    law_mag_sum(a, p);
    law_mag_sum(p, d * t);
    lemma_part(t, d);
    lemma_part(t, e);
    assert(t * d == d * t) by (nonlinear_arith);
    law_mag_sum(g, f);
    law_mag_sum(g + f, t * e);
    assert(t * (d - c) == d * t - t * c) by (nonlinear_arith);
    assert(r - (a + t * c) == g + f + t * e);
    lemma_between_bound(mag(a), mag(b), mag(c), mag(d), mag(p), mag(d * t), mag(a + p), mag(e), mag(f), mag(g));
}

/// The sum of the rounding errors of a point between two others.
proof fn lemma_between_bound(
    ma: real,
    mb: real,
    mc: real,
    md: real,
    mp: real,
    dt: real,
    map: real,
    me: real,
    mf: real,
    mg: real,
)
    requires
        ma >= 0 as real,
        mb >= 0 as real,
        mc <= mb + ma,
        me <= mc / 8388608 as real + tiny(),
        md <= me + mc,
        dt <= md,
        mf <= dt / 8388608 as real + tiny(),
        mp <= mf + dt,
        map <= ma + mp,
        mg <= map / 8388608 as real + tiny(),
    ensures
        mg + mf + me <= millionth(1 as real / 4 as real + ma + mb),
{
}

/// A calculated point lies between its two others at the parameter, up to rounding.
proof fn lemma_between<F: Fn(Op32) -> Real32>(
    u: &Fpu32<F>,
    a: [Real32; 2],
    b: [Real32; 2],
    t: Real32,
    axis: int,
)
    requires
        faithful(u),
        a[axis].is_finite(),
        b[axis].is_finite(),
        mag(val(a[axis])) <= 4294967296 as real,
        mag(val(b[axis])) <= 4294967296 as real,
        t.is_finite(),
        0 as real <= val(t) <= 1 as real,
        0 <= axis < 2,
    ensures
        ({
            let r = between(u, a, b, t)[axis];
            let (x, y) = (val(a[axis]), val(b[axis]));
            &&& r.is_finite()
            &&& mag(val(r) - (x + val(t) * (y - x))) <= millionth(
                1 as real / 4 as real + mag(x) + mag(y),
            )
        }),
{
    let (p, q) = (a[axis], b[axis]);
    let (x, y) = (val(p), val(q));
    law_difference(u, q, p);
    law_mag_sum(y, x);
    let d = u.sub(q, p);
    law_mag_sum(val(d), y - x);
    law_mag_sum(val(t), val(t));
    law_larger_product(val(d), val(t), 17179869184 as real, 1 as real);
    law_product(u, d, t);
    let e = u.mul(d, t);
    law_mag_sum(val(e), val(d) * val(t));
    law_mag_sum(x, val(e));
    law_sum(u, p, e);
    lemma_rounded_between(x, y, val(t), val(d), val(e), val(u.add(p, e)));
}

/// The point of a curve is found by going the same part of the way three times.
pub proof fn law_casteljau(a: real, b: real, c: real, t: real)
    ensures
        ({
            let first = a + t * (b - a);
            let second = b + t * (c - b);
            &&& bezier(a, b, c, t) == first + t * (second - first)
            &&& second - first == (b - a) - t * ((b - a) - (c - b))
        }),
{
    assert((1 as real - t) * ((1 as real - t) * a) + 2 as real * (t * ((1 as real - t) * b)) + t * (
    t * c) == (a + t * (b - a)) + t * ((b + t * (c - b)) - (a + t * (b - a))))
        by (nonlinear_arith);
    assert((b + t * (c - b)) - (a + t * (b - a)) == (b - a) - t * ((b - a) - (c - b)))
        by (nonlinear_arith);
}

/// The points of a split, along one axis: `q0` and `q1` lie on the legs of the
/// control polygon at parameter `t`, and `m` between them lies on the curve.
proof fn lemma_split_axis(x0: real, x1: real, x2: real, t: real, q0: real, q1: real, m: real)
    requires
        0 as real <= t <= 1 as real,
        mag(q0 - (x0 + t * (x1 - x0))) <= millionth(1 as real / 4 as real + mag(x0) + mag(x1)),
        mag(q1 - (x1 + t * (x2 - x1))) <= millionth(1 as real / 4 as real + mag(x1) + mag(x2)),
        mag(m - (q0 + t * (q1 - q0))) <= millionth(1 as real / 4 as real + mag(q0) + mag(q1)),
    ensures
        ({
            let size = 1 as real + mag(x0) + mag(x1) + mag(x2);
            let rest = (x1 - x0) - t * ((x1 - x0) - (x2 - x1));
            &&& mag(m - bezier(x0, x1, x2, t)) <= 5 as real * millionth(size)
            &&& mag(q0 - m) <= mag(rest) + 5 as real * millionth(size)
            &&& mag(q1 - m) <= mag(rest) + 5 as real * millionth(size)
        }),
{
    let (l0, l1) = (x0 + t * (x1 - x0), x1 + t * (x2 - x1));
    let (e0, e1, e2) = (q0 - l0, q1 - l1, m - (q0 + t * (q1 - q0)));
    let rest = l1 - l0;
    let w = 1 as real - t;
    law_casteljau(x0, x1, x2, t);
    let curve = bezier(x0, x1, x2, t);
    assert(q0 + t * (q1 - q0) - (l0 + t * (l1 - l0)) == (1 as real - t) * (q0 - l0) + t * (q1 - l1))
        by (nonlinear_arith);
    assert(q0 - (q0 + t * (q1 - q0)) == -(t * (l1 - l0)) - t * (q1 - l1) + t * (q0 - l0))
        by (nonlinear_arith);
    assert(q1 - (q0 + t * (q1 - q0)) == (1 as real - t) * (l1 - l0) + (1 as real - t) * (q1 - l1) - (
    1 as real - t) * (q0 - l0)) by (nonlinear_arith);
    assert(x0 + t * (x1 - x0) == (1 as real - t) * x0 + t * x1) by (nonlinear_arith);
    assert(x1 + t * (x2 - x1) == (1 as real - t) * x1 + t * x2) by (nonlinear_arith);
    lemma_part(w, e0);
    lemma_part(t, e1);
    lemma_part(t, e0);
    lemma_part(w, e1);
    lemma_part(t, rest);
    lemma_part(w, rest);
    lemma_part(w, x0);
    lemma_part(t, x1);
    lemma_part(w, x1);
    lemma_part(t, x2);
    law_mag_sum(w * x0, t * x1);
    law_mag_sum(w * x1, t * x2);
    law_mag_sum(q0, l0);
    law_mag_sum(q1, l1);
    lemma_three(e2, w * e0, t * e1);
    lemma_three(-e2, -(t * e1), t * e0);
    lemma_three(-e2, w * e1, -(w * e0));
    law_mag_sum(-e2 - t * e1 + t * e0, t * rest);
    law_mag_sum(-e2 + w * e1 - w * e0, w * rest);
    law_mag_sum(e2, e2);
    law_mag_sum(t * e1, e2);
    law_mag_sum(w * e0, e2);
    law_mag_sum(x0, x1);
    law_mag_sum(x2, x2);
    lemma_split_bound(mag(x0), mag(x1), mag(x2), mag(e0), mag(e1), mag(e2), mag(q0), mag(q1));
    assert(m - curve == e2 + w * e0 + t * e1);
    assert(q0 - m == -e2 - t * e1 + t * e0 - t * rest);
    assert(q1 - m == -e2 + w * e1 - w * e0 + w * rest);
}

/// The magnitude of a sum of three.
proof fn lemma_three(x: real, y: real, z: real)
    ensures
        mag(x + y + z) <= mag(x) + mag(y) + mag(z),
{
    law_mag_sum(x, y);
    law_mag_sum(x + y, z);
}

/// The sum of the rounding errors of a split.
proof fn lemma_split_bound(
    a: real,
    b: real,
    c: real,
    f0: real,
    f1: real,
    f2: real,
    n0: real,
    n1: real,
)
    requires
        a >= 0 as real,
        b >= 0 as real,
        c >= 0 as real,
        f0 <= millionth(1 as real / 4 as real + a + b),
        f1 <= millionth(1 as real / 4 as real + b + c),
        f2 <= millionth(1 as real / 4 as real + n0 + n1),
        n0 <= f0 + a + b,
        n1 <= f1 + b + c,
    ensures
        f2 + f0 + f1 <= 5 as real * millionth(1 as real + a + b + c),
{
}

/// A part of a number is at most as large as the number.
proof fn lemma_part(t: real, x: real)
    requires
        0 as real <= t <= 1 as real,
    ensures
        mag(t * x) <= mag(x),
{
    law_mag_product(t, x);
    law_mag_sum(t, x);
    let m = mag(x);
    assert(t * m <= m) by (nonlinear_arith)
        requires
            0 as real <= t <= 1 as real,
            m >= 0 as real,
    ;
}

/// A product spreads over a difference, and its factors can be swapped.
proof fn lemma_spread(a: real, b: real, c: real)
    ensures
        a * (b - c) == a * b - a * c,
        (b - c) * a == b * a - c * a,
        b * a == a * b,
        c * a == a * c,
{
    assert(a * (b - c) == a * b - a * c) by (nonlinear_arith);
    assert((b - c) * a == b * a - c * a) by (nonlinear_arith);
    assert(b * a == a * b) by (nonlinear_arith);
    assert(c * a == a * c) by (nonlinear_arith);
}

/// Three factors can be taken in any order.
proof fn lemma_swap(a: real, b: real, c: real)
    ensures
        a * (b * c) == b * (a * c),
{
    assert(a * (b * c) == b * (a * c)) by (nonlinear_arith);
}

/// The parameter at which the height stops rising or falling, rounded.
proof fn lemma_parameter(yy0: real, yy1: real, d0: real, d1: real, n: real, q: real, t: real)
    requires
        mag(yy0) <= 2147483648 as real,
        mag(yy1) <= 2147483648 as real,
        mag(d0 - yy0) <= mag(yy0) / 8388608 as real + tiny(),
        mag(d1 - yy1) <= mag(yy1) / 8388608 as real + tiny(),
        mag(n - (d0 - d1)) <= mag(d0 - d1) / 8388608 as real + tiny(),
        q * n == d0,
        mag(t - q) <= mag(q) / 8388608 as real + tiny(),
        0 as real <= t <= 1 as real,
    ensures
        mag(yy0 - t * (yy0 - yy1)) <= millionth(1 as real + mag(yy0) + mag(yy1)),
{
    let (e0, e1, en, eq) = (d0 - yy0, d1 - yy1, n - (d0 - d1), t - q);
    lemma_spread(n, t, q);
    lemma_spread(t, n, d0 - d1);
    lemma_spread(t, d0 - d1, e0 - e1);
    assert(yy0 - yy1 == (d0 - d1) - (e0 - e1));
    assert(yy0 - t * (yy0 - yy1) == t * en + t * (e0 - e1) - eq * n - e0);
    lemma_part(t, en);
    lemma_part(t, e0 - e1);
    law_mag_product(eq, n);
    law_mag_product(q, n);
    law_mag_sum(t * en, t * (e0 - e1));
    law_mag_sum(t * en + t * (e0 - e1), eq * n);
    law_mag_sum(t * en + t * (e0 - e1) - eq * n, e0);
    law_mag_sum(e0, e1);
    law_mag_sum(d0, yy0);
    law_mag_sum(d1, yy1);
    law_mag_sum(d0, d1);
    law_mag_sum(n, d0 - d1);
    law_mag_sum(yy0, yy1);
    let (m0, mn, mq, fq) = (mag(d0), mag(n), mag(q), mag(eq));
    let bound = mq / 8388608 as real + tiny();
    assert(fq * mn <= bound * mn) by (nonlinear_arith)
        requires
            mn >= 0 as real,
            fq <= bound,
    ;
    assert(bound * mn == (mq * mn) / 8388608 as real + mn / 1152921504606846976 as real)
        by (nonlinear_arith)
        requires
            bound == mq / 8388608 as real + 1 as real / 1152921504606846976 as real,
    ;
    lemma_parameter_bound(
        mag(yy0),
        mag(yy1),
        mag(e0),
        mag(e1),
        mag(en),
        m0,
        mag(d1),
        mag(d0 - d1),
        mn,
        fq * mn,
    );
}

/// The sum of the rounding errors of the parameter.
proof fn lemma_parameter_bound(
    a: real,
    b: real,
    f0: real,
    f1: real,
    fd: real,
    m0: real,
    m1: real,
    md: real,
    mn: real,
    p: real,
)
    requires
        0 as real <= a <= 2147483648 as real,
        0 as real <= b <= 2147483648 as real,
        f0 <= a / 8388608 as real + tiny(),
        f1 <= b / 8388608 as real + tiny(),
        fd <= md / 8388608 as real + tiny(),
        md <= m0 + m1,
        m0 <= f0 + a,
        m1 <= f1 + b,
        mn <= fd + md,
        p <= m0 / 8388608 as real + mn / 1152921504606846976 as real,
    ensures
        p + fd + (f0 + f1) + f0 <= millionth(1 as real + a + b),
{
}

/// Where the slope of the height is next to nothing, the curve is highest or lowest.
proof fn lemma_extremum(y0: real, y1: real, y2: real, t: real, s: real)
    requires
        0 as real <= t <= 1 as real,
        0 as real <= s <= 1 as real,
    ensures
        ({
            let rest = (y1 - y0) - t * ((y1 - y0) - (y2 - y1));
            let bend = (y1 - y0) - (y2 - y1);
            &&& bend >= 0 as real ==> bezier(y0, y1, y2, s) <= bezier(y0, y1, y2, t) + 2 as real
                * mag(rest)
            &&& bend <= 0 as real ==> bezier(y0, y1, y2, s) >= bezier(y0, y1, y2, t) - 2 as real
                * mag(rest)
        }),
{
    let bend = (y1 - y0) - (y2 - y1);
    let a = y1 - y0;
    let rest = a - t * bend;
    let d = s - t;
    law_casteljau(y0, y1, y2, s);
    law_casteljau(y0, y1, y2, t);
    // The difference of the two heights is 2 d rest - d d bend.
    lemma_spread(a, s, t);
    lemma_spread(s, a, s * bend);
    lemma_spread(t, a, t * bend);
    lemma_spread(d, a, t * bend);
    lemma_spread(bend, s, t);
    lemma_spread(d, s * bend, t * bend);
    lemma_spread(s * bend, s, t);
    lemma_spread(t * bend, s, t);
    lemma_swap(s, t, bend);
    lemma_swap(d, d, bend);
    let e = d * (d * bend);
    assert(bezier(y0, y1, y2, s) - bezier(y0, y1, y2, t) == 2 as real * (d * rest) - e);
    law_mag_within(d, 1 as real);
    law_mag_sum(rest, rest);
    law_larger_product(d, rest, 1 as real, mag(rest));
    law_mag_sum(d * rest, d);
    assert(d * d >= 0 as real) by (nonlinear_arith);
    assert(e == (d * d) * bend) by (nonlinear_arith)
        requires
            e == d * (d * bend),
    ;
    let g = d * d;
    assert(bend >= 0 as real ==> g * bend >= 0 as real) by (nonlinear_arith)
        requires
            g >= 0 as real,
    ;
    assert(bend <= 0 as real ==> g * bend <= 0 as real) by (nonlinear_arith)
        requires
            g >= 0 as real,
    ;
}

/// `q0` and `q1` lie on the legs of the control polygon at parameter `t`, and `m` on
/// the curve, along this axis and up to a few millionths.
pub open spec fn splits_axis(
    p0: [Real32; 2],
    p1: [Real32; 2],
    p2: [Real32; 2],
    t: real,
    q0: [Real32; 2],
    m: [Real32; 2],
    q1: [Real32; 2],
    axis: int,
) -> bool {
    let (x0, x1, x2) = (val(p0[axis]), val(p1[axis]), val(p2[axis]));
    let near = 5 as real * millionth(size_of(p0, p1, p2, axis));
    &&& q0[axis].is_finite() && m[axis].is_finite() && q1[axis].is_finite()
    &&& mag(val(q0[axis]) - (x0 + t * (x1 - x0))) <= near
    &&& mag(val(q1[axis]) - (x1 + t * (x2 - x1))) <= near
    &&& mag(val(m[axis]) - bezier(x0, x1, x2, t)) <= near
}

/// The curve is split at its summit or in its valley, up to ten millionths: its two
/// halves meet there, no point of the curve lies beyond that height, and both inner
/// control points are level with it, so that either half only rises or only falls.
pub open spec fn splits_at_extremum(
    p0: [Real32; 2],
    p1: [Real32; 2],
    p2: [Real32; 2],
    t: real,
    q0: [Real32; 2],
    m: [Real32; 2],
    q1: [Real32; 2],
) -> bool {
    let (y0, y1, y2) = (val(p0[1]), val(p1[1]), val(p2[1]));
    let near = 10 as real * millionth(size_of(p0, p1, p2, 1));
    &&& 0 as real <= t <= 1 as real
    &&& splits_axis(p0, p1, p2, t, q0, m, q1, 0)
    &&& splits_axis(p0, p1, p2, t, q0, m, q1, 1)
    &&& mag(val(q0[1]) - val(m[1])) <= near
    &&& mag(val(q1[1]) - val(m[1])) <= near
    &&& y0 < y1 ==> y2 < y1 && y0 <= val(m[1]) + near && y2 <= val(m[1]) + near && forall|s: real|
        0 as real <= s <= 1 as real ==> #[trigger] bezier(y0, y1, y2, s) <= val(m[1]) + near
    &&& y1 <= y0 ==> y1 < y0 && y1 < y2 && y0 >= val(m[1]) - near && y2 >= val(m[1]) - near
        && forall|s: real|
        0 as real <= s <= 1 as real ==> #[trigger] bezier(y0, y1, y2, s) >= val(m[1]) - near
}

/// The parameter of a split, and the signs of the rises before and behind it.
proof fn lemma_split_parameter<F: Fn(Op32) -> Real32>(
    u: &Fpu32<F>,
    p0: [Real32; 2],
    p1: [Real32; 2],
    p2: [Real32; 2],
)
    requires
        faithful(u),
        placed(p0[1]),
        placed(p1[1]),
        placed(p2[1]),
        turns_back(u, p0, p1, p2),
    ensures
        ({
            let t = extremum(u, p0, p1, p2);
            let (yy0, yy1) = (val(p1[1]) - val(p0[1]), val(p2[1]) - val(p1[1]));
            &&& t.is_finite()
            &&& 0 as real <= val(t) <= 1 as real
            &&& mag(yy0 - val(t) * (yy0 - yy1)) <= millionth(1 as real + mag(yy0) + mag(yy1))
            &&& (yy0 > 0 as real && yy1 < 0 as real) || (yy0 < 0 as real && yy1 > 0 as real)
        }),
{
    let (yy0, yy1) = (val(p1[1]) - val(p0[1]), val(p2[1]) - val(p1[1]));
    let d0 = u.sub(p1[1], p0[1]);
    let d1 = u.sub(p2[1], p1[1]);
    let n = u.sub(d0, d1);
    let t = extremum(u, p0, p1, p2);
    let zero = lit(ZERO);
    law_literals();
    lemma2_to64();
    lemma_pow2_adds(8, 32);
    law_literal(MIN_SPEED_CHANGE, 40, 0x100_0000_0000);
    law_literal(ONE_TWENTIETH, 28, 0x1000_0000);
    law_literal(LAST_SPLIT, 24, 0x100_0000);
    law_mag_sum(val(p1[1]), val(p0[1]));
    law_mag_sum(val(p2[1]), val(p1[1]));
    law_difference(u, p1[1], p0[1]);
    law_difference(u, p2[1], p1[1]);
    law_mag_sum(val(d0), yy0);
    law_mag_sum(val(d1), yy1);
    law_mag_sum(val(d0), val(d1));
    law_difference(u, d0, d1);
    law_mag(n);
    law_order(lit(MIN_SPEED_CHANGE), n.abs());
    law_mag_sum(val(n), val(n));
    law_order(lit(ONE_TWENTIETH), t);
    law_order(t, lit(LAST_SPLIT));
    let r = u.div(d0, n);
    assert(t == r);
    let q = val(d0) / val(n);
    law_divided(val(d0), val(n));
    law_mag_product(q, val(n));
    law_mag_sum(q, q);
    let (mq, mn, m0) = (mag(q), mag(val(n)), mag(val(d0)));
    assert(mq <= 200000 as real * m0) by (nonlinear_arith)
        requires
            mq >= 0 as real,
            m0 == mq * mn,
            mn * 200000 as real >= 1 as real,
    ;
    law_quotient(u, d0, n);
    lemma_parameter(yy0, yy1, val(d0), val(d1), val(n), q, val(t));
    // The product of the two rounded rises is below zero, so they differ in sign.
    law_product(u, d0, d1);
    let p = val(d0) * val(d1);
    if p >= 0 as real {
        law_at_least(p, u.mul(d0, d1), zero);
    }
    let (a, b) = (val(d0), val(d1));
    assert((a > 0 as real && b < 0 as real) || (a < 0 as real && b > 0 as real))
        by (nonlinear_arith)
        requires
            a * b < 0 as real,
    ;
    law_order(zero, d0);
    law_order(d0, zero);
    law_order(zero, d1);
    law_order(d1, zero);
    if yy0 <= 0 as real {
        law_at_most(yy0, d0, zero);
    }
    if yy0 >= 0 as real {
        law_at_least(yy0, d0, zero);
    }
    if yy1 <= 0 as real {
        law_at_most(yy1, d1, zero);
    }
    if yy1 >= 0 as real {
        law_at_least(yy1, d1, zero);
    }
}

/// The points of a split along one axis.
proof fn lemma_split_points<F: Fn(Op32) -> Real32>(
    u: &Fpu32<F>,
    p0: [Real32; 2],
    p1: [Real32; 2],
    p2: [Real32; 2],
    t: Real32,
    axis: int,
)
    requires
        faithful(u),
        placed(p0[axis]),
        placed(p1[axis]),
        placed(p2[axis]),
        t.is_finite(),
        0 as real <= val(t) <= 1 as real,
        0 <= axis < 2,
    ensures
        ({
            let q0 = between(u, p0, p1, t);
            let q1 = between(u, p1, p2, t);
            let m = between(u, q0, q1, t);
            let (x0, x1, x2) = (val(p0[axis]), val(p1[axis]), val(p2[axis]));
            let rest = (x1 - x0) - val(t) * ((x1 - x0) - (x2 - x1));
            let near = 5 as real * millionth(size_of(p0, p1, p2, axis));
            &&& splits_axis(p0, p1, p2, val(t), q0, m, q1, axis)
            &&& mag(val(q0[axis]) - val(m[axis])) <= mag(rest) + near
            &&& mag(val(q1[axis]) - val(m[axis])) <= mag(rest) + near
        }),
{
    let q0 = between(u, p0, p1, t);
    let q1 = between(u, p1, p2, t);
    let m = between(u, q0, q1, t);
    let w = val(t);
    let (x0, x1, x2) = (val(p0[axis]), val(p1[axis]), val(p2[axis]));
    lemma_between(u, p0, p1, t, axis);
    lemma_between(u, p1, p2, t, axis);
    law_mag_sum(x1, x0);
    law_mag_sum(x2, x1);
    lemma_part(w, x1 - x0);
    lemma_part(w, x2 - x1);
    law_mag_sum(x0, w * (x1 - x0));
    law_mag_sum(x1, w * (x2 - x1));
    law_mag_sum(val(q0[axis]), x0 + w * (x1 - x0));
    law_mag_sum(val(q1[axis]), x1 + w * (x2 - x1));
    lemma_between(u, q0, q1, t, axis);
    lemma_split_axis(x0, x1, x2, w, val(q0[axis]), val(q1[axis]), val(m[axis]));
}

/// A curve that turns back is drawn in two halves, and they meet at its extremum.
pub proof fn law_split_at_extremum<F: Fn(Op32) -> Real32>(
    u: &Fpu32<F>,
    p0: [Real32; 2],
    p1: [Real32; 2],
    p2: [Real32; 2],
)
    requires
        faithful(u),
        placed_point(p0),
        placed_point(p1),
        placed_point(p2),
        turns_back(u, p0, p1, p2),
    ensures
        exists|t: real, q0: [Real32; 2], m: [Real32; 2], q1: [Real32; 2]|
            #![trigger splits_at_extremum(p0, p1, p2, t, q0, m, q1)]
            splits_at_extremum(p0, p1, p2, t, q0, m, q1) && quad_pieces(u, p0, p1, p2)
                == arc_pieces(u, p0, q0, m) + arc_pieces(u, m, q1, p2),
{
    let t = extremum(u, p0, p1, p2);
    let q0 = between(u, p0, p1, t);
    let q1 = between(u, p1, p2, t);
    let m = between(u, q0, q1, t);
    let w = val(t);
    let (y0, y1, y2) = (val(p0[1]), val(p1[1]), val(p2[1]));
    lemma_split_parameter(u, p0, p1, p2);
    lemma_split_points(u, p0, p1, p2, t, 0);
    lemma_split_points(u, p0, p1, p2, t, 1);
    law_mag_sum(y1, y0);
    law_mag_sum(y2, y1);
    let size = size_of(p0, p1, p2, 1);
    let near = 10 as real * millionth(size);
    let rest = (y1 - y0) - w * ((y1 - y0) - (y2 - y1));
    assert(mag(rest) <= 2 as real * millionth(size));
    let curve = bezier(y0, y1, y2, w);
    law_mag_sum(val(m[1]) - curve, curve);
    if y0 < y1 {
        assert forall|s: real| 0 as real <= s <= 1 as real implies #[trigger] bezier(y0, y1, y2, s)
            <= val(m[1]) + near by {
            lemma_extremum(y0, y1, y2, w, s);
        }
    } else {
        assert forall|s: real| 0 as real <= s <= 1 as real implies #[trigger] bezier(y0, y1, y2, s)
            >= val(m[1]) - near by {
            lemma_extremum(y0, y1, y2, w, s);
        }
    }
    lemma_bezier_ends(y0, y1, y2);
    assert(splits_at_extremum(p0, p1, p2, w, q0, m, q1));
}

/// A curve begins at its first and ends at its last control point.
proof fn lemma_bezier_ends(a: real, b: real, c: real)
    ensures
        bezier(a, b, c, 0 as real) == a,
        bezier(a, b, c, 1 as real) == c,
{
    law_casteljau(a, b, c, 0 as real);
    law_casteljau(a, b, c, 1 as real);
    let first = a + 1 as real * (b - a);
    assert(0 as real * (b - a) == 0 as real) by (nonlinear_arith);
    let z = (b + 0 as real * (c - b)) - (a + 0 as real * (b - a));
    assert(0 as real * z == 0 as real) by (nonlinear_arith);
    assert(1 as real * (b - a) == b - a) by (nonlinear_arith);
    assert(1 as real * (c - b) == c - b) by (nonlinear_arith);
    let y = (b + 1 as real * (c - b)) - (a + 1 as real * (b - a));
    assert(1 as real * y == y) by (nonlinear_arith);
}

/// The rises of a curve before and behind its control point, rounded, and their
/// difference.
proof fn lemma_rises<F: Fn(Op32) -> Real32>(
    u: &Fpu32<F>,
    p0: [Real32; 2],
    p1: [Real32; 2],
    p2: [Real32; 2],
)
    requires
        faithful(u),
        placed(p0[1]),
        placed(p1[1]),
        placed(p2[1]),
    ensures
        ({
            let (yy0, yy1) = (val(p1[1]) - val(p0[1]), val(p2[1]) - val(p1[1]));
            let d0 = u.sub(p1[1], p0[1]);
            let d1 = u.sub(p2[1], p1[1]);
            let n = u.sub(d0, d1);
            let (a, b, c) = (mag(yy0), mag(yy1), mag(val(d0) - val(d1)));
            &&& d0.is_finite() && d1.is_finite() && n.is_finite()
            &&& a - a / 1000000 as real - tiny() <= mag(val(d0)) <= a + a / 1000000 as real + tiny()
            &&& b - b / 1000000 as real - tiny() <= mag(val(d1)) <= b + b / 1000000 as real + tiny()
            &&& c - c / 1000000 as real - tiny() <= mag(val(n)) <= c + c / 1000000 as real + tiny()
            &&& yy0 >= 0 as real ==> val(d0) >= 0 as real
            &&& yy0 <= 0 as real ==> val(d0) <= 0 as real
            &&& yy1 >= 0 as real ==> val(d1) >= 0 as real
            &&& yy1 <= 0 as real ==> val(d1) <= 0 as real
            &&& val(d0) - val(d1) >= 0 as real ==> val(n) >= 0 as real
            &&& val(d0) - val(d1) <= 0 as real ==> val(n) <= 0 as real
            &&& a <= 2147483648 as real && b <= 2147483648 as real
        }),
{
    let (yy0, yy1) = (val(p1[1]) - val(p0[1]), val(p2[1]) - val(p1[1]));
    let d0 = u.sub(p1[1], p0[1]);
    let d1 = u.sub(p2[1], p1[1]);
    law_mag_sum(val(p1[1]), val(p0[1]));
    law_mag_sum(val(p2[1]), val(p1[1]));
    lemma_signed_difference(u, p1[1], p0[1]);
    lemma_signed_difference(u, p2[1], p1[1]);
    law_mag_sum(val(d0), val(d1));
    lemma_signed_difference(u, d0, d1);
}

/// A rounded difference has the sign of the difference, and nearly its magnitude.
proof fn lemma_signed_difference<F: Fn(Op32) -> Real32>(u: &Fpu32<F>, a: Real32, b: Real32)
    requires
        faithful(u),
        a.is_finite(),
        b.is_finite(),
        mag(val(a) - val(b)) <= 17179869184 as real,
    ensures
        ({
            let x = val(a) - val(b);
            let d = u.sub(a, b);
            let m = mag(x);
            &&& d.is_finite()
            &&& m - m / 1000000 as real - tiny() <= mag(val(d)) <= m + m / 1000000 as real + tiny()
            &&& x >= 0 as real ==> val(d) >= 0 as real
            &&& x <= 0 as real ==> val(d) <= 0 as real
        }),
{
    let x = val(a) - val(b);
    let d = u.sub(a, b);
    let zero = lit(ZERO);
    law_literals();
    law_difference(u, a, b);
    law_order(zero, d);
    law_order(d, zero);
    if x >= 0 as real {
        law_at_least(x, d, zero);
    }
    if x <= 0 as real {
        law_at_most(x, d, zero);
    }
    law_mag_sum(val(d), x);
    law_mag_sum(x, val(d));
    law_mag_sum(val(d) - x, x);
    assert(-(val(d) - x) == x - val(d));
}

/// The signs of two numbers tell that of their product.
proof fn lemma_product_sign(a: real, b: real)
    ensures
        (a >= 0 as real && b >= 0 as real) || (a <= 0 as real && b <= 0 as real) ==> a * b
            >= 0 as real,
        a * 2 as real >= 1 as real && b * 2 as real <= -(1 as real) ==> a * b * 4 as real <= -(
        1 as real),
        b * 2 as real >= 1 as real && a * 2 as real <= -(1 as real) ==> a * b * 4 as real <= -(
        1 as real),
{
    assert((a >= 0 as real && b >= 0 as real) || (a <= 0 as real && b <= 0 as real) ==> a * b
        >= 0 as real) by (nonlinear_arith);
    assert(a * 2 as real >= 1 as real && b * 2 as real <= -(1 as real) ==> a * b * 4 as real <= -(
    1 as real)) by (nonlinear_arith);
    assert(b * 2 as real >= 1 as real && a * 2 as real <= -(1 as real) ==> a * b * 4 as real <= -(
    1 as real)) by (nonlinear_arith);
}

/// Which curves are drawn in two halves. One that only rises or only falls is not.
/// One that rises and falls by one unit or more each is, where its extremum lies
/// between 6 and 94 hundredths of its parameter, and is not where it lies before 4 or
/// behind 96. What is not split is drawn as one piece.
pub proof fn law_which_curves_are_split<F: Fn(Op32) -> Real32>(
    u: &Fpu32<F>,
    p0: [Real32; 2],
    p1: [Real32; 2],
    p2: [Real32; 2],
)
    requires
        faithful(u),
        placed_point(p0),
        placed_point(p1),
        placed_point(p2),
    ensures
        ({
            let (y0, y1, y2) = (val(p0[1]), val(p1[1]), val(p2[1]));
            let (a, b) = (mag(y1 - y0), mag(y2 - y1));
            let one_way = (y0 <= y1 <= y2) || (y0 >= y1 >= y2);
            &&& one_way ==> !turns_back(u, p0, p1, p2)
            &&& !one_way && a >= 1 as real && b >= 1 as real ==> {
                &&& 6 as real * (a + b) <= 100 as real * a <= 94 as real * (a + b) ==> turns_back(
                    u,
                    p0,
                    p1,
                    p2,
                )
                &&& 100 as real * a <= 4 as real * (a + b) || 100 as real * a >= 96 as real * (a
                    + b) ==> !turns_back(u, p0, p1, p2)
            }
            &&& !turns_back(u, p0, p1, p2) ==> quad_pieces(u, p0, p1, p2) == arc_pieces(
                u,
                p0,
                p1,
                p2,
            )
        }),
{
    let (y0, y1, y2) = (val(p0[1]), val(p1[1]), val(p2[1]));
    let (yy0, yy1) = (y1 - y0, y2 - y1);
    let (a, b) = (mag(yy0), mag(yy1));
    let d0 = u.sub(p1[1], p0[1]);
    let d1 = u.sub(p2[1], p1[1]);
    let n = u.sub(d0, d1);
    let zero = lit(ZERO);
    law_literals();
    lemma2_to64();
    lemma_pow2_adds(8, 32);
    law_literal(MIN_SPEED_CHANGE, 40, 0x100_0000_0000);
    law_literal(ONE_TWENTIETH, 28, 0x1000_0000);
    law_literal(LAST_SPLIT, 24, 0x100_0000);
    lemma_rises(u, p0, p1, p2);
    law_mag_sum(yy0, yy1);
    law_mag_sum(val(d0), val(d1));
    law_mag_sum(val(d1), val(d0));
    law_mag_sum(val(d0) - val(d1), val(d1));
    law_mag_sum(val(n), val(n));
    law_product(u, d0, d1);
    let p = u.mul(d0, d1);
    let w = val(d0) * val(d1);
    lemma_product_sign(val(d0), val(d1));
    if w >= 0 as real {
        law_at_least(w, p, zero);
    }
    let one_way = (y0 <= y1 <= y2) || (y0 >= y1 >= y2);
    if !one_way && a >= 1 as real && b >= 1 as real {
        lemma_minus_quarter();
        law_at_most(w, p, lit(MINUS_QUARTER));
        law_mag(n);
        law_order(lit(MIN_SPEED_CHANGE), n.abs());
        let q = val(d0) / val(n);
        law_divided(val(d0), val(n));
        let (x, z) = (val(d0), val(n));
        assert(q >= 0 as real && q * mag(z) == mag(x)) by {
            law_mag_product(q, z);
            assert(q >= 0 as real) by (nonlinear_arith)
                requires
                    q * z == x,
                    (z > 0 as real && x >= 0 as real) || (z < 0 as real && x <= 0 as real),
            ;
            law_mag_sum(q, q);
        }
        let (mx, mz) = (mag(x), mag(z));
        lemma_ratio(q, mx, mz);
        law_mag_sum(q, q);
        law_quotient(u, d0, n);
        let r = u.div(d0, n);
        law_mag_within(val(r) - q, q / 8388608 as real + tiny());
        law_order(r, zero);
        law_order(lit(ONE), r);
        law_order(lit(ONE_TWENTIETH), r);
        law_order(r, lit(LAST_SPLIT));
        law_order(lit(ONE_TWENTIETH), lit(ONE));
    }
}

/// -0.25
pub const MINUS_QUARTER: u32 = 0xbe80_0000;

proof fn lemma_minus_quarter()
    ensures
        val(lit(MINUS_QUARTER)) == -(1 as real / 4 as real),
{
    lemma2_to64();
    law_val(lit(MINUS_QUARTER), 25);
    let (v, x) = (val(lit(MINUS_QUARTER)), pow2(25) as real);
    assert(v == -(1 as real / 4 as real)) by (nonlinear_arith)
        requires
            x == 33554432 as real,
            v * x == -(8388608 as real),
    ;
}

/// A quotient lies between two limits where its dividend does.
proof fn lemma_ratio(q: real, x: real, z: real)
    requires
        q * z == x,
        z > 0 as real,
        q >= 0 as real,
    ensures
        1000 as real * x >= 55 as real * z ==> 1000 as real * q >= 55 as real,
        1000 as real * x <= 945 as real * z ==> 1000 as real * q <= 945 as real,
        1000 as real * x <= 45 as real * z ==> 1000 as real * q <= 45 as real,
        1000 as real * x >= 955 as real * z ==> 1000 as real * q >= 955 as real,
        x <= 2 as real * z ==> q <= 2 as real,
{
    assert(1000 as real * x >= 55 as real * z ==> 1000 as real * q >= 55 as real)
        by (nonlinear_arith)
        requires
            q * z == x,
            z > 0 as real,
    ;
    assert(1000 as real * x <= 945 as real * z ==> 1000 as real * q <= 945 as real)
        by (nonlinear_arith)
        requires
            q * z == x,
            z > 0 as real,
    ;
    assert(1000 as real * x <= 45 as real * z ==> 1000 as real * q <= 45 as real)
        by (nonlinear_arith)
        requires
            q * z == x,
            z > 0 as real,
    ;
    assert(1000 as real * x >= 955 as real * z ==> 1000 as real * q >= 955 as real)
        by (nonlinear_arith)
        requires
            q * z == x,
            z > 0 as real,
    ;
    assert(x <= 2 as real * z ==> q <= 2 as real) by (nonlinear_arith)
        requires
            q * z == x,
            z > 0 as real,
    ;
}

} // verus!
