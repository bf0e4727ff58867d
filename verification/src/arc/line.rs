//! What the piece of a line stands for, in numbers.
use crate::arc::segment::{line_pieces, KIND_FLAT, KIND_LINE, MIN_EXTENT};
use crate::fpu::{Fpu32, Op32};
use crate::literal::{HALF, MINUS_ONE, ONE, ZERO};
use crate::number::{lit, Real32};
use crate::rounding::{
    faithful, law_at_least, law_at_most, law_difference, law_divided, law_larger_product,
    law_literal, law_literals, law_mag, law_mag_product, law_mag_sum, law_mag_within, law_order,
    law_product, law_quotient, law_root, law_sum, mag, rounds, tiny, val,
};
use vstd::arithmetic::power2::lemma2_to64;
use vstd::prelude::*;

verus! {

/// A number that a coordinate can have: at most 2^30, and no infinity.
pub open spec fn placed(x: Real32) -> bool {
    x.is_finite() && mag(val(x)) <= 1073741824 as real
}

/// Both coordinates of a point are such numbers.
pub open spec fn placed_point(p: [Real32; 2]) -> bool {
    placed(p[0]) && placed(p[1])
}

/// A millionth, more or less: 2^-20 of `x`.
pub open spec fn millionth(x: real) -> real {
    x / 1048576 as real
}

/// The line from `p0` to `p1` is drawn as one slanted piece.
pub open spec fn draws_slanted<F: Fn(Op32) -> Real32>(
    u: &Fpu32<F>,
    p0: [Real32; 2],
    p1: [Real32; 2],
) -> bool {
    line_pieces(u, p0, p1).len() == 1 && line_pieces(u, p0, p1)[0].kind == KIND_LINE
}

/// How far a rounded slope `s` leads over the rise `yy`, where the quotient `q` of
/// rounded differences was rounded to it.
proof fn lemma_slope(xx: real, yy: real, dx: real, dy: real, q: real, s: real)
    requires
        mag(xx) <= 2147483648 as real,
        mag(yy) <= 2147483648 as real,
        mag(dx - xx) <= mag(xx) / 8388608 as real + tiny(),
        mag(dy - yy) <= mag(yy) / 8388608 as real + tiny(),
        mag(dy) >= 1 as real,
        q * dy == dx,
        mag(s - q) <= mag(q) / 8388608 as real + tiny(),
    ensures
        mag(q) <= mag(dx),
        mag(s) <= 4294967296 as real,
        mag(s * yy - xx) <= mag(xx) / 2097152 as real + mag(s * yy) / 8388608 as real
            + 1 as real / 8388608 as real,
{
    let t = tiny();
    let (e, f, g) = (s - q, dy - yy, dx - xx);
    law_mag_product(q, dy);
    law_mag_product(e, dy);
    law_mag_product(s, f);
    law_mag_product(s, yy);
    law_mag_sum(dx, xx);
    law_mag_sum(dy, yy);
    law_mag_sum(s, q);
    law_mag_sum(g, e * dy);
    law_mag_sum(g + e * dy, s * f);
    let (mx, my) = (mag(xx), mag(yy));
    let (mdx, mdy) = (mag(dx), mag(dy));
    let (mq, ms) = (mag(q), mag(s));
    let (me, mf, mg) = (mag(e), mag(f), mag(g));
    assert(mq <= mdx) by (nonlinear_arith)
        requires
            mq >= 0 as real,
            mdy >= 1 as real,
            mdx == mq * mdy,
    ;
    assert(mdx <= 2147484000 as real && mdy <= 2147484000 as real && ms <= 2147485000 as real) by (
    nonlinear_arith)
        requires
            t == 1 as real / 1152921504606846976 as real,
            mx <= 2147483648 as real,
            my <= 2147483648 as real,
            mdx <= mg + mx,
            mdy <= mf + my,
            mg <= mx / 8388608 as real + t,
            mf <= my / 8388608 as real + t,
            ms <= me + mq,
            me <= mq / 8388608 as real + t,
            mq <= mdx,
    ;
    assert(s * yy - xx == g + e * dy - s * f) by (nonlinear_arith)
        requires
            e == s - q,
            f == dy - yy,
            g == dx - xx,
            q * dy == dx,
    ;
    let p1 = me * mdy;
    let p2 = ms * mf;
    let p3 = ms * my;
    assert(p1 <= mdx / 8388608 as real + t * mdy) by (nonlinear_arith)
        requires
            p1 == me * mdy,
            mdx == mq * mdy,
            me <= mq / 8388608 as real + t,
            mdy >= 1 as real,
    ;
    assert(p2 <= p3 / 8388608 as real + t * ms) by (nonlinear_arith)
        requires
            p2 == ms * mf,
            p3 == ms * my,
            mf <= my / 8388608 as real + t,
            ms >= 0 as real,
    ;
    assert(mg + p1 + p2 <= mx / 2097152 as real + p3 / 8388608 as real + 1 as real
        / 8388608 as real) by (nonlinear_arith)
        requires
            t == 1 as real / 1152921504606846976 as real,
            mx >= 0 as real,
            mg <= mx / 8388608 as real + t,
            mdx <= mg + mx,
            p1 <= mdx / 8388608 as real + t * mdy,
            p2 <= p3 / 8388608 as real + t * ms,
            mdy <= 2147484000 as real,
            ms <= 2147485000 as real,
    ;
}

/// A value and a rounded product, taken from it, leave what the rounded slope
/// leads to.
proof fn lemma_intercept(x0: real, x1: real, w0: real, w1: real, xx: real, p: real, c: real)
    requires
        mag(p - w0) <= mag(w0) / 8388608 as real + tiny(),
        mag(c - (x0 - p)) <= mag(x0 - p) / 8388608 as real + tiny(),
        xx == x1 - x0,
        mag(w1 - w0 - xx) <= mag(xx) / 2097152 as real + mag(w1 - w0) / 8388608 as real + 1 as real
            / 8388608 as real,
    ensures
        ({
            let added = 1 as real + mag(x0) + mag(x1) + mag(w0) + mag(w1);
            &&& mag(w0 + c - x0) <= millionth(added)
            &&& mag(w1 + c - x1) <= millionth(added)
        }),
{
    let t = tiny();
    let (e, f, g) = (p - w0, c - (x0 - p), w1 - w0 - xx);
    law_mag_sum(p, w0);
    law_mag_sum(x0, p);
    law_mag_sum(x1, x0);
    law_mag_sum(w1, w0);
    law_mag_sum(f, e);
    law_mag_sum(f - e, g);
    assert(w0 + c - x0 == f - e);
    assert(w1 + c - x1 == f - e + g);
    let (a0, a1, b0, b1) = (mag(x0), mag(x1), mag(w0), mag(w1));
    let (me, mf, mg, mp) = (mag(e), mag(f), mag(g), mag(p));
    let (mr, mx, mw) = (mag(x0 - p), mag(xx), mag(w1 - w0));
    assert(mf + me + mg <= (1 as real + a0 + a1 + b0 + b1) / 1048576 as real) by (nonlinear_arith)
        requires
            t == 1 as real / 1152921504606846976 as real,
            me <= b0 / 8388608 as real + t,
            mf <= mr / 8388608 as real + t,
            mr <= a0 + mp,
            mp <= me + b0,
            mg <= mx / 2097152 as real + mw / 8388608 as real + 1 as real / 8388608 as real,
            mx <= a1 + a0,
            mw <= b1 + b0,
            a0 >= 0 as real,
            a1 >= 0 as real,
            b0 >= 0 as real,
            b1 >= 0 as real,
    ;
    law_mag_sum(g, g);
}

/// A slanted piece runs through both ends of its line: at the height of each end,
/// slope and intercept lead to that end, up to a millionth of what is added. Its
/// slope is not negative where the line goes up to the right, and not positive
/// where it goes up to the left.
pub proof fn law_line_runs_through_its_ends<F: Fn(Op32) -> Real32>(
    u: &Fpu32<F>,
    p0: [Real32; 2],
    p1: [Real32; 2],
)
    requires
        faithful(u),
        placed_point(p0),
        placed_point(p1),
        draws_slanted(u, p0, p1),
    ensures
        ({
            let piece = line_pieces(u, p0, p1)[0];
            let (x0, y0) = (val(p0[0]), val(p0[1]));
            let (x1, y1) = (val(p1[0]), val(p1[1]));
            let slope = val(piece.param0[0]);
            let intercept = val(piece.param0[1]);
            let added = 1 as real + mag(x0) + mag(x1) + mag(slope * y0) + mag(slope * y1);
            &&& piece.param0[0].is_finite() && piece.param0[1].is_finite()
            &&& mag(slope) <= 4294967296 as real
            &&& mag(slope * y0 + intercept - x0) <= millionth(added)
            &&& mag(slope * y1 + intercept - x1) <= millionth(added)
            &&& (x0 <= x1 && y0 < y1) || (x1 <= x0 && y1 < y0) ==> slope >= 0 as real
            &&& (x1 <= x0 && y0 < y1) || (x0 <= x1 && y1 < y0) ==> slope <= 0 as real
        }),
{
    let (x0, y0) = (val(p0[0]), val(p0[1]));
    let (x1, y1) = (val(p1[0]), val(p1[1]));
    let dx = u.sub(p1[0], p0[0]);
    let dy = u.sub(p1[1], p0[1]);
    let (xx, yy) = (x1 - x0, y1 - y0);
    lemma_differences(u, p0, p1);
    lemma_sign(u, p0, p1);
    let slope = u.div(dx, dy);
    let s = val(slope);
    law_larger_product(s, y0, 4294967296 as real, 1073741824 as real);
    law_product(u, slope, p0[1]);
    let p = u.mul(slope, p0[1]);
    let w0 = s * y0;
    let w1 = s * y1;
    law_mag_sum(val(p), w0);
    law_mag_sum(x0, val(p));
    law_difference(u, p0[0], p);
    assert(s * yy == w1 - w0) by (nonlinear_arith)
        requires
            yy == y1 - y0,
            w0 == s * y0,
            w1 == s * y1,
    ;
    lemma_intercept(x0, x1, w0, w1, xx, val(p), val(u.sub(p0[0], p)));
}

/// The differences and the slope of a line that is drawn slanted.
proof fn lemma_differences<F: Fn(Op32) -> Real32>(u: &Fpu32<F>, p0: [Real32; 2], p1: [Real32; 2])
    requires
        faithful(u),
        placed_point(p0),
        placed_point(p1),
        draws_slanted(u, p0, p1),
    ensures
        ({
            let dx = u.sub(p1[0], p0[0]);
            let dy = u.sub(p1[1], p0[1]);
            let slope = u.div(dx, dy);
            let (xx, yy) = (val(p1[0]) - val(p0[0]), val(p1[1]) - val(p0[1]));
            &&& dx.is_finite() && dy.is_finite() && slope.is_finite()
            &&& mag(val(dy)) >= 1 as real
            &&& rounds(val(dx) / val(dy), slope)
            &&& mag(val(slope)) <= 4294967296 as real
            &&& mag(val(slope) * yy - xx) <= mag(xx) / 2097152 as real + mag(val(slope) * yy)
                / 8388608 as real + 1 as real / 8388608 as real
        }),
{
    let dx = u.sub(p1[0], p0[0]);
    let dy = u.sub(p1[1], p0[1]);
    let (xx, yy) = (val(p1[0]) - val(p0[0]), val(p1[1]) - val(p0[1]));
    law_literals();
    law_difference(u, p1[0], p0[0]);
    law_difference(u, p1[1], p0[1]);
    law_mag_sum(val(p1[0]), val(p0[0]));
    law_mag_sum(val(p1[1]), val(p0[1]));
    law_mag(dy);
    law_order(dy.abs(), lit(ONE));
    let q = val(dx) / val(dy);
    law_mag_sum(val(dy), val(dy));
    law_divided(val(dx), val(dy));
    law_mag_product(q, val(dy));
    law_mag_sum(val(dx), xx);
    law_mag_sum(q, q);
    let (mq, my) = (mag(q), mag(val(dy)));
    assert(mq <= mq * my) by (nonlinear_arith)
        requires
            mq >= 0 as real,
            my >= 1 as real,
    ;
    law_quotient(u, dx, dy);
    lemma_slope(xx, yy, val(dx), val(dy), q, val(u.div(dx, dy)));
}

/// Differences and quotients have the signs that they should have.
proof fn lemma_sign<F: Fn(Op32) -> Real32>(u: &Fpu32<F>, p0: [Real32; 2], p1: [Real32; 2])
    requires
        faithful(u),
        placed_point(p0),
        placed_point(p1),
        draws_slanted(u, p0, p1),
    ensures
        ({
            let slope = u.div(u.sub(p1[0], p0[0]), u.sub(p1[1], p0[1]));
            let (x0, y0) = (val(p0[0]), val(p0[1]));
            let (x1, y1) = (val(p1[0]), val(p1[1]));
            &&& (x0 <= x1 && y0 < y1) || (x1 <= x0 && y1 < y0) ==> val(slope) >= 0 as real
            &&& (x1 <= x0 && y0 < y1) || (x0 <= x1 && y1 < y0) ==> val(slope) <= 0 as real
        }),
{
    let (x0, y0) = (val(p0[0]), val(p0[1]));
    let (x1, y1) = (val(p1[0]), val(p1[1]));
    let dx = u.sub(p1[0], p0[0]);
    let dy = u.sub(p1[1], p0[1]);
    let zero = lit(ZERO);
    lemma_differences(u, p0, p1);
    law_literals();
    law_difference(u, p1[0], p0[0]);
    law_difference(u, p1[1], p0[1]);
    law_order(zero, dx);
    law_order(dx, zero);
    law_order(zero, dy);
    law_order(dy, zero);
    if x0 <= x1 {
        law_at_least(x1 - x0, dx, zero);
    }
    if x1 <= x0 {
        law_at_most(x1 - x0, dx, zero);
    }
    if y0 <= y1 {
        law_at_least(y1 - y0, dy, zero);
    }
    if y1 <= y0 {
        law_at_most(y1 - y0, dy, zero);
    }
    let (a, b) = (val(dx), val(dy));
    law_mag_sum(b, b);
    let q = a / b;
    law_divided(a, b);
    let slope = u.div(dx, dy);
    law_order(zero, slope);
    law_order(slope, zero);
    if (a >= 0 as real && b > 0 as real) || (a <= 0 as real && b < 0 as real) {
        assert(q >= 0 as real) by (nonlinear_arith)
            requires
                q * b == a,
                (a >= 0 as real && b > 0 as real) || (a <= 0 as real && b < 0 as real),
        ;
        law_at_least(q, slope, zero);
    }
    if (a <= 0 as real && b > 0 as real) || (a >= 0 as real && b < 0 as real) {
        assert(q <= 0 as real) by (nonlinear_arith)
            requires
                q * b == a,
                (a <= 0 as real && b > 0 as real) || (a >= 0 as real && b < 0 as real),
        ;
        law_at_most(q, slope, zero);
    }
}

/// The reciprocal of a rounded root of one and a rounded square.
proof fn lemma_cosine(s: real, v1: real, v2: real, root: real, k: real, n: real)
    requires
        mag(s) <= 4294967296 as real,
        v1 >= 0 as real,
        mag(v1 - s * s) <= mag(s * s) / 8388608 as real + tiny(),
        mag(v2 - (1 as real + v1)) <= mag(1 as real + v1) / 8388608 as real + tiny(),
        root >= 0 as real,
        mag(root * root - v2) <= v2 / 2097152 as real + tiny(),
        k * root == 1 as real,
        mag(n - k) <= mag(k) / 8388608 as real + tiny(),
    ensures
        mag(n * n * (1 as real + s * s) - 1 as real) <= 1 as real / 262144 as real,
{
    let t = tiny();
    let s2 = s * s;
    let d = 1 as real + s2;
    let r = root * root;
    assert(s2 >= 0 as real) by (nonlinear_arith)
        requires
            s2 == s * s,
    ;
    law_mag_product(s, s);
    law_mag_sum(s, s);
    law_mag_sum(s2, s2);
    law_mag_sum(1 as real + v1, v1);
    law_mag_sum(v1 - s2, v1);
    law_mag_sum(v2 - (1 as real + v1), v1);
    law_mag_sum(r - v2, v1);
    let ms = mag(s);
    assert(0 as real <= s2 <= 18446744073709551616 as real) by (nonlinear_arith)
        requires
            s2 == ms * ms,
            0 as real <= ms <= 4294967296 as real,
    ;
    let (e1, e2, e3) = (v1 - s2, v2 - (1 as real + v1), r - v2);
    assert(-(d / 1048576 as real) <= r - d <= d / 1048576 as real) by (nonlinear_arith)
        requires
            t == 1 as real / 1152921504606846976 as real,
            d == 1 as real + s2,
            s2 >= 0 as real,
            v1 >= 0 as real,
            -(s2 / 8388608 as real + t) <= v1 - s2 <= s2 / 8388608 as real + t,
            -((1 as real + v1) / 8388608 as real + t) <= v2 - (1 as real + v1) <= (1 as real + v1)
                / 8388608 as real + t,
            -(v2 / 2097152 as real + t) <= r - v2 <= v2 / 2097152 as real + t,
    ;
    assert(root <= 8589934592 as real) by (nonlinear_arith)
        requires
            root * root <= 36893488147419103232 as real,
    ;
    assert(root > 0 as real && k > 0 as real) by (nonlinear_arith)
        requires
            root >= 0 as real,
            k * root == 1 as real,
    ;
    law_mag_sum(k, k);
    law_mag_sum(n - k, k);
    let z = n * root;
    assert(-(1 as real / 4194304 as real) <= z - 1 as real <= 1 as real / 4194304 as real) by (
    nonlinear_arith)
        requires
            t == 1 as real / 1152921504606846976 as real,
            z == n * root,
            k * root == 1 as real,
            (0 as real) < root <= 8589934592 as real,
            -(k / 8388608 as real + t) <= n - k <= k / 8388608 as real + t,
    ;
    let b = z * z;
    assert(-(1 as real / 1048576 as real) <= b - 1 as real <= 1 as real / 1048576 as real) by (
    nonlinear_arith)
        requires
            b == z * z,
            -(1 as real / 4194304 as real) <= z - 1 as real <= 1 as real / 4194304 as real,
    ;
    let n2 = n * n;
    let a = n2 * d;
    assert(b == n2 * r) by (nonlinear_arith)
        requires
            b == z * z,
            z == n * root,
            n2 == n * n,
            r == root * root,
    ;
    assert(-(a / 1048576 as real) <= a - b <= a / 1048576 as real) by (nonlinear_arith)
        requires
            b == n2 * r,
            a == n2 * d,
            n2 == n * n,
            -(d / 1048576 as real) <= r - d <= d / 1048576 as real,
    ;
    law_mag_within(a - 1 as real, 1 as real / 262144 as real);
}

/// All else that a slanted piece holds: its two heights and its `x_max` are those of
/// its ends, it goes up exactly where its line does, and its first shading value is
/// the cosine of its lean, one by the root of one and the slope squared.
pub proof fn law_slanted_piece<F: Fn(Op32) -> Real32>(
    u: &Fpu32<F>,
    p0: [Real32; 2],
    p1: [Real32; 2],
)
    requires
        faithful(u),
        placed_point(p0),
        placed_point(p1),
        draws_slanted(u, p0, p1),
    ensures
        ({
            let piece = line_pieces(u, p0, p1)[0];
            let slope = val(piece.param0[0]);
            let cosine = val(piece.param1[0]);
            let up = val(p0[1]) < val(p1[1]);
            &&& piece.direction == (if up {
                lit(ONE)
            } else {
                lit(MINUS_ONE)
            })
            &&& piece.param0[2] == (if up {
                p0[1]
            } else {
                p1[1]
            })
            &&& piece.param0[3] == (if up {
                p1[1]
            } else {
                p0[1]
            })
            &&& piece.x_max == p0[0] || piece.x_max == p1[0]
            &&& val(p0[0]) <= val(piece.x_max) && val(p1[0]) <= val(piece.x_max)
            &&& piece.param1[0].is_finite()
            &&& mag(cosine * cosine * (1 as real + slope * slope) - 1 as real) <= 1 as real
                / 262144 as real
        }),
{
    let piece = line_pieces(u, p0, p1)[0];
    let dx = u.sub(p1[0], p0[0]);
    let dy = u.sub(p1[1], p0[1]);
    let (xx, yy) = (val(p1[0]) - val(p0[0]), val(p1[1]) - val(p0[1]));
    let zero = lit(ZERO);
    let one = lit(ONE);
    law_literals();
    lemma_differences(u, p0, p1);
    law_difference(u, p1[1], p0[1]);
    law_mag_sum(val(dy), val(dy));
    law_order(zero, dy);
    law_order(dy, zero);
    law_order(p0[1], p1[1]);
    law_order(p1[1], p0[1]);
    law_order(p0[0], p1[0]);
    law_order(p1[0], p0[0]);
    if yy >= 0 as real {
        law_at_least(yy, dy, zero);
    }
    if yy <= 0 as real {
        law_at_most(yy, dy, zero);
    }
    let slope = u.div(dx, dy);
    let s = val(slope);
    law_larger_product(s, s, 4294967296 as real, 4294967296 as real);
    law_product(u, slope, slope);
    let v1 = u.mul(slope, slope);
    assert(s * s >= 0 as real) by (nonlinear_arith);
    law_at_least(s * s, v1, zero);
    law_order(zero, v1);
    law_mag_sum(val(v1), s * s);
    law_mag_sum(1 as real, val(v1));
    law_mag_sum(1 as real + val(v1), val(v1));
    law_sum(u, one, v1);
    let v2 = u.add(one, v1);
    law_at_least(1 as real + val(v1), v2, one);
    law_order(one, v2);
    law_mag_sum(val(v2), 1 as real + val(v1));
    law_root(u, v2);
    let root = u.sqrt(v2);
    law_order(zero, root);
    let w = val(root);
    lemma_root_is_large(w, val(v2));
    law_quotient(u, one, root);
    let k = 1 as real / w;
    law_divided(1 as real, w);
    assert(mag(k) <= 2 as real) by {
        assert((0 as real) < k <= 2 as real) by (nonlinear_arith)
            requires
                k * w == 1 as real,
                w * 2 as real >= 1 as real,
        ;
        law_mag_sum(k, k);
    }
    lemma_cosine(s, val(v1), val(v2), w, k, val(u.div(one, root)));
}

/// The rounded root of at least one is not near zero.
proof fn lemma_root_is_large(w: real, v: real)
    requires
        w >= 0 as real,
        1 as real <= v,
        mag(w * w - v) <= v / 2097152 as real + tiny(),
    ensures
        w * 2 as real >= 1 as real,
{
    law_mag_sum(w * w - v, v);
    assert(w * 2 as real >= 1 as real) by (nonlinear_arith)
        requires
            w >= 0 as real,
            w * w * 4 as real >= 1 as real,
    ;
}

/// The line from `p0` to `p1` is drawn as a flat piece.
pub open spec fn draws_flat<F: Fn(Op32) -> Real32>(
    u: &Fpu32<F>,
    p0: [Real32; 2],
    p1: [Real32; 2],
) -> bool {
    line_pieces(u, p0, p1).len() == 1 && line_pieces(u, p0, p1)[0].kind == KIND_FLAT
}

/// A flat piece lies halfway between the heights of its ends, up to a millionth of
/// them, and reaches from one end to the other.
pub proof fn law_flat_piece<F: Fn(Op32) -> Real32>(u: &Fpu32<F>, p0: [Real32; 2], p1: [Real32; 2])
    requires
        faithful(u),
        placed_point(p0),
        placed_point(p1),
        draws_flat(u, p0, p1),
    ensures
        ({
            let piece = line_pieces(u, p0, p1)[0];
            let (y0, y1) = (val(p0[1]), val(p1[1]));
            let right = val(p0[0]) < val(p1[0]);
            &&& piece.param0[1].is_finite()
            &&& mag(2 as real * val(piece.param0[1]) - (y0 + y1)) <= millionth(
                1 as real + mag(y0) + mag(y1),
            )
            &&& piece.x_max == piece.param0[3]
            &&& piece.param0[2].same(
                if right {
                    p0[0]
                } else {
                    p1[0]
                },
            )
            &&& piece.param0[3].same(
                if right {
                    p1[0]
                } else {
                    p0[0]
                },
            )
        }),
{
    let (y0, y1) = (val(p0[1]), val(p1[1]));
    law_literals();
    law_order(p0[0], p1[0]);
    law_order(p1[0], p0[0]);
    law_sum(u, p0[1], p1[1]);
    law_mag_sum(y0, y1);
    let sum = u.add(p0[1], p1[1]);
    let a = val(sum);
    law_mag_sum(a, y0 + y1);
    law_product(u, sum, lit(HALF));
    assert(a * (1 as real / 2 as real) == a / 2 as real) by (nonlinear_arith);
    law_mag_product(a, 1 as real / 2 as real);
    law_mag_sum(1 as real / 2 as real, a);
    let h = val(u.mul(sum, lit(HALF)));
    let (e, f) = (a - (y0 + y1), h - a / 2 as real);
    law_mag_sum(f, f);
    law_mag_sum(f + f, e);
    assert(2 as real * h - (y0 + y1) == f + f + e);
}

/// Which lines are drawn how: what is less than a fifth both ways is dropped, what
/// rises by less than one is flat, all else is slanted. On the limits themselves,
/// give or take a hundredth, rounding decides.
pub proof fn law_line_kinds<F: Fn(Op32) -> Real32>(u: &Fpu32<F>, p0: [Real32; 2], p1: [Real32; 2])
    requires
        faithful(u),
        placed_point(p0),
        placed_point(p1),
    ensures
        ({
            let wide = mag(val(p1[0]) - val(p0[0])) * 100 as real;
            let high = mag(val(p1[1]) - val(p0[1])) * 100 as real;
            &&& wide <= 19 as real && high <= 19 as real ==> line_pieces(u, p0, p1).len() == 0
            &&& (wide >= 21 as real || high >= 21 as real) && high <= 99 as real ==> draws_flat(
                u,
                p0,
                p1,
            )
            &&& high >= 101 as real ==> draws_slanted(u, p0, p1)
        }),
{
    let dx = u.sub(p1[0], p0[0]);
    let dy = u.sub(p1[1], p0[1]);
    let (xx, yy) = (val(p1[0]) - val(p0[0]), val(p1[1]) - val(p0[1]));
    law_literals();
    lemma2_to64();
    law_literal(MIN_EXTENT, 26, 0x400_0000);
    law_difference(u, p1[0], p0[0]);
    law_difference(u, p1[1], p0[1]);
    law_mag_sum(val(p1[0]), val(p0[0]));
    law_mag_sum(val(p1[1]), val(p0[1]));
    law_mag_sum(val(dx), xx);
    law_mag_sum(xx, val(dx));
    law_mag_sum(val(dy), yy);
    law_mag_sum(yy, val(dy));
    law_mag_sum(xx - val(dx), yy - val(dy));
    law_mag_sum(yy - val(dy), yy - val(dy));
    law_mag(dx);
    law_mag(dy);
    law_order(dx.abs(), lit(MIN_EXTENT));
    law_order(dy.abs(), lit(MIN_EXTENT));
    law_order(dy.abs(), lit(ONE));
    assert(mag(xx - val(dx)) == mag(val(dx) - xx)) by {
        law_mag_sum(xx - val(dx), xx);
        assert(-(xx - val(dx)) == val(dx) - xx);
    }
    assert(mag(yy - val(dy)) == mag(val(dy) - yy)) by {
        law_mag_sum(yy - val(dy), yy);
        assert(-(yy - val(dy)) == val(dy) - yy);
    }
}

} // verus!
