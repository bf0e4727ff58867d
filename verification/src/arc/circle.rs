//! The circle of an arc, in numbers.
use crate::arc::reversal::draws_arc;
use crate::arc::segment::{
    arc_piece, arc_pieces, circle_center, curve_middle, law_line_pieces, norm_squared, turn,
    MIN_TURN,
};
use crate::fpu::{Fpu32, Op32};
use crate::literal::{HALF, QUARTER, TWO, ZERO};
use crate::number::{lit, Real32};
use crate::rounding::{
    faithful, huge, is_whole, law_at_least, law_difference, law_literals, law_mag_product,
    law_mag_sum, law_mag_within, law_order, law_product, law_quotient, law_sum,
    law_whole_arithmetic, law_whole_result, mag, rounds, tiny, val,
};
use vstd::prelude::*;

verus! {

/// The square of the distance between two points.
pub open spec fn between_squared(ax: real, ay: real, bx: real, by: real) -> real {
    (ax - bx) * (ax - bx) + (ay - by) * (ay - by)
}

/// The point stands for these whole numbers.
pub open spec fn is_whole_point(p: [Real32; 2], x: int, y: int) -> bool {
    is_whole(p[0], x) && is_whole(p[1], y)
}

proof fn lemma_bounded_product(i: int, j: int, a: int, b: int)
    requires
        -a <= i <= a,
        -b <= j <= b,
    ensures
        -(a * b) <= i * j <= a * b,
{
    assert(-(a * b) <= i * j <= a * b) by (nonlinear_arith)
        requires
            -a <= i <= a,
            -b <= j <= b,
    ;
}

/// The sum of three products of whole numbers is exact.
proof fn lemma_cycle<F: Fn(Op32) -> Real32>(
    u: &Fpu32<F>,
    k: [Real32; 3],
    d: [Real32; 3],
    k0: int,
    k1: int,
    k2: int,
    d0: int,
    d1: int,
    d2: int,
)
    requires
        faithful(u),
        is_whole(k[0], k0) && is_whole(k[1], k1) && is_whole(k[2], k2),
        is_whole(d[0], d0) && is_whole(d[1], d1) && is_whole(d[2], d2),
        -8192 <= k0 <= 8192 && -8192 <= k1 <= 8192 && -8192 <= k2 <= 8192,
        -128 <= d0 <= 128 && -128 <= d1 <= 128 && -128 <= d2 <= 128,
    ensures
        is_whole(
            u.add(u.add(u.mul(k[0], d[0]), u.mul(k[1], d[1])), u.mul(k[2], d[2])),
            k0 * d0 + k1 * d1 + k2 * d2,
        ),
        -0x30_0000 <= k0 * d0 + k1 * d1 + k2 * d2 <= 0x30_0000,
{
    lemma_bounded_product(k0, d0, 8192, 128);
    lemma_bounded_product(k1, d1, 8192, 128);
    lemma_bounded_product(k2, d2, 8192, 128);
    law_whole_arithmetic(u, k[0], d[0], k0, d0);
    law_whole_arithmetic(u, k[1], d[1], k1, d1);
    law_whole_arithmetic(u, k[2], d[2], k2, d2);
    let (a, b, c) = (u.mul(k[0], d[0]), u.mul(k[1], d[1]), u.mul(k[2], d[2]));
    law_whole_arithmetic(u, a, b, k0 * d0, k1 * d1);
    law_whole_arithmetic(u, u.add(a, b), c, k0 * d0 + k1 * d1, k2 * d2);
}

/// The square of a whole point's distance from the origin is exact.
proof fn lemma_norm<F: Fn(Op32) -> Real32>(u: &Fpu32<F>, p: [Real32; 2], x: int, y: int)
    requires
        faithful(u),
        is_whole_point(p, x, y),
        -64 <= x <= 64,
        -64 <= y <= 64,
    ensures
        is_whole(norm_squared(u, p), x * x + y * y),
        -8192 <= x * x + y * y <= 8192,
{
    lemma_bounded_product(x, x, 64, 64);
    lemma_bounded_product(y, y, 64, 64);
    law_whole_arithmetic(u, p[0], p[0], x, x);
    law_whole_arithmetic(u, p[1], p[1], y, y);
    law_whole_arithmetic(u, u.mul(p[0], p[0]), u.mul(p[1], p[1]), x * x, y * y);
}

/// One coordinate of the middle of a whole curve is exact.
proof fn lemma_whole_middle<F: Fn(Op32) -> Real32>(
    u: &Fpu32<F>,
    p0: [Real32; 2],
    p1: [Real32; 2],
    p2: [Real32; 2],
    i0: int,
    i1: int,
    i2: int,
    axis: int,
)
    requires
        faithful(u),
        0 <= axis < 2,
        is_whole(p0[axis], 4 * i0),
        is_whole(p1[axis], 2 * i1),
        is_whole(p2[axis], 4 * i2),
        -16 <= i0 <= 16,
        -32 <= i1 <= 32,
        -16 <= i2 <= 16,
    ensures
        is_whole(curve_middle(u, p0, p1, p2)[axis], i0 + i1 + i2),
{
    law_literals();
    let (x0, x1, x2) = (val(p0[axis]), val(p1[axis]), val(p2[axis]));
    law_product(u, lit(QUARTER), p0[axis]);
    law_product(u, lit(HALF), p1[axis]);
    law_product(u, lit(QUARTER), p2[axis]);
    assert(1 as real / 4 as real * x0 == i0 as real) by (nonlinear_arith)
        requires
            x0 == (4 * i0) as real,
    ;
    assert(1 as real / 2 as real * x1 == i1 as real) by (nonlinear_arith)
        requires
            x1 == (2 * i1) as real,
    ;
    assert(1 as real / 4 as real * x2 == i2 as real) by (nonlinear_arith)
        requires
            x2 == (4 * i2) as real,
    ;
    let a = u.mul(lit(QUARTER), p0[axis]);
    let b = u.mul(lit(HALF), p1[axis]);
    let c = u.mul(lit(QUARTER), p2[axis]);
    law_whole_result(i0, a);
    law_whole_result(i1, b);
    law_whole_result(i2, c);
    law_whole_arithmetic(u, a, b, i0, i1);
    law_whole_arithmetic(u, u.add(a, b), c, i0 + i1, i2);
}

/// The quotients that make up the center of the circle through three whole points.
proof fn lemma_whole_center<F: Fn(Op32) -> Real32>(
    u: &Fpu32<F>,
    a: [Real32; 2],
    b: [Real32; 2],
    c: [Real32; 2],
    ax: int,
    ay: int,
    bx: int,
    by: int,
    cx: int,
    cy: int,
)
    requires
        faithful(u),
        is_whole_point(a, ax, ay),
        is_whole_point(b, bx, by),
        is_whole_point(c, cx, cy),
        -64 <= ax <= 64 && -64 <= ay <= 64,
        -64 <= bx <= 64 && -64 <= by <= 64,
        -64 <= cx <= 64 && -64 <= cy <= 64,
    ensures
        ({
            let (sa, sb, sc) = (ax * ax + ay * ay, bx * bx + by * by, cx * cx + cy * cy);
            let t = 2 * (ax * (by - cy) + bx * (cy - ay) + cx * (ay - by));
            let nx = sa * (by - cy) + sb * (cy - ay) + sc * (ay - by);
            let ny = sa * (cx - bx) + sb * (ax - cx) + sc * (bx - ax);
            let o = circle_center(u, a, b, c);
            &&& is_whole(turn(u, a, b, c), t)
            &&& t != 0 ==> rounds(nx as real / t as real, o[0])
            &&& t != 0 ==> rounds(ny as real / t as real, o[1])
        }),
{
    let (sa, sb, sc) = (ax * ax + ay * ay, bx * bx + by * by, cx * cx + cy * cy);
    lemma_norm(u, a, ax, ay);
    lemma_norm(u, b, bx, by);
    lemma_norm(u, c, cx, cy);
    let s = [norm_squared(u, a), norm_squared(u, b), norm_squared(u, c)];
    law_whole_arithmetic(u, b[1], c[1], by, cy);
    law_whole_arithmetic(u, c[1], a[1], cy, ay);
    law_whole_arithmetic(u, a[1], b[1], ay, by);
    law_whole_arithmetic(u, c[0], b[0], cx, bx);
    law_whole_arithmetic(u, a[0], c[0], ax, cx);
    law_whole_arithmetic(u, b[0], a[0], bx, ax);
    let dy = [u.sub(b[1], c[1]), u.sub(c[1], a[1]), u.sub(a[1], b[1])];
    let dx = [u.sub(c[0], b[0]), u.sub(a[0], c[0]), u.sub(b[0], a[0])];
    let x = [a[0], b[0], c[0]];
    lemma_cycle(u, x, dy, ax, bx, cx, by - cy, cy - ay, ay - by);
    lemma_cycle(u, s, dy, sa, sb, sc, by - cy, cy - ay, ay - by);
    lemma_cycle(u, s, dx, sa, sb, sc, cx - bx, ax - cx, bx - ax);
    let half = ax * (by - cy) + bx * (cy - ay) + cx * (ay - by);
    law_literals();
    let sum = u.add(
        u.add(u.mul(a[0], u.sub(b[1], c[1])), u.mul(b[0], u.sub(c[1], a[1]))),
        u.mul(c[0], u.sub(a[1], b[1])),
    );
    law_whole_arithmetic(u, lit(TWO), sum, 2, half);
    let t = turn(u, a, b, c);
    let nx = u.add(
        u.add(u.mul(s[0], u.sub(b[1], c[1])), u.mul(s[1], u.sub(c[1], a[1]))),
        u.mul(s[2], u.sub(a[1], b[1])),
    );
    let ny = u.add(
        u.add(u.mul(s[0], u.sub(c[0], b[0])), u.mul(s[1], u.sub(a[0], c[0]))),
        u.mul(s[2], u.sub(b[0], a[0])),
    );
    if half != 0 {
        law_quotient(u, nx, t);
        law_quotient(u, ny, t);
    }
}

/// A point as far from `b` as from `a` lies on the line between the two.
proof fn lemma_bisector(ax: real, ay: real, bx: real, by: real, ox: real, oy: real)
    requires
        between_squared(bx, by, ox, oy) == between_squared(ax, ay, ox, oy),
    ensures
        2 as real * ((bx - ax) * ox + (by - ay) * oy) == bx * bx + by * by - (ax * ax + ay * ay),
{
    lemma_square(bx, ox);
    lemma_square(by, oy);
    lemma_square(ax, ox);
    lemma_square(ay, oy);
    assert((bx - ax) * ox == bx * ox - ax * ox) by (nonlinear_arith);
    assert((by - ay) * oy == by * oy - ay * oy) by (nonlinear_arith);
}

proof fn lemma_square(x: real, y: real)
    ensures
        (x - y) * (x - y) == x * x - 2 as real * (x * y) + y * y,
{
    assert((x - y) * (x - y) == x * x - 2 as real * (x * y) + y * y) by (nonlinear_arith);
}

/// Two linear equations, solved for each unknown.
proof fn lemma_solve(p: real, q: real, r: real, s: real, x: real, y: real, k: real, l: real)
    requires
        2 as real * (p * x + q * y) == k,
        2 as real * (r * x + s * y) == l,
    ensures
        2 as real * ((p * s - q * r) * x) == k * s - l * q,
        2 as real * ((p * s - q * r) * y) == l * p - k * r,
{
    let (px, qy, rx, sy) = (p * x, q * y, r * x, s * y);
    assert(k * s == 2 as real * (px * s + qy * s)) by (nonlinear_arith)
        requires
            k == 2 as real * (px + qy),
    ;
    assert(l * q == 2 as real * (rx * q + sy * q)) by (nonlinear_arith)
        requires
            l == 2 as real * (rx + sy),
    ;
    assert(l * p == 2 as real * (rx * p + sy * p)) by (nonlinear_arith)
        requires
            l == 2 as real * (rx + sy),
    ;
    assert(k * r == 2 as real * (px * r + qy * r)) by (nonlinear_arith)
        requires
            k == 2 as real * (px + qy),
    ;
    assert((p * x) * s == (p * s) * x) by (nonlinear_arith);
    assert((q * y) * s == (s * y) * q) by (nonlinear_arith);
    assert((r * x) * q == (q * r) * x) by (nonlinear_arith);
    assert((r * x) * p == (p * x) * r) by (nonlinear_arith);
    assert((s * y) * p == (p * s) * y) by (nonlinear_arith);
    assert((q * y) * r == (q * r) * y) by (nonlinear_arith);
    assert((p * s - q * r) * x == (p * s) * x - (q * r) * x) by (nonlinear_arith);
    assert((p * s - q * r) * y == (p * s) * y - (q * r) * y) by (nonlinear_arith);
}

/// The point equally far from three whole points is the quotient that the center is
/// calculated as.
proof fn lemma_equidistant(
    ax: int,
    ay: int,
    bx: int,
    by: int,
    cx: int,
    cy: int,
    ox: real,
    oy: real,
)
    requires
        between_squared(bx as real, by as real, ox, oy) == between_squared(
            ax as real,
            ay as real,
            ox,
            oy,
        ),
        between_squared(cx as real, cy as real, ox, oy) == between_squared(
            ax as real,
            ay as real,
            ox,
            oy,
        ),
    ensures
        ({
            let (sa, sb, sc) = (ax * ax + ay * ay, bx * bx + by * by, cx * cx + cy * cy);
            let t = 2 * (ax * (by - cy) + bx * (cy - ay) + cx * (ay - by));
            let nx = sa * (by - cy) + sb * (cy - ay) + sc * (ay - by);
            let ny = sa * (cx - bx) + sb * (ax - cx) + sc * (bx - ax);
            &&& t as real * ox == nx as real
            &&& t as real * oy == ny as real
        }),
{
    let (sa, sb, sc) = (ax * ax + ay * ay, bx * bx + by * by, cx * cx + cy * cy);
    let t = 2 * (ax * (by - cy) + bx * (cy - ay) + cx * (ay - by));
    let nx = sa * (by - cy) + sb * (cy - ay) + sc * (ay - by);
    let ny = sa * (cx - bx) + sb * (ax - cx) + sc * (bx - ax);
    let (p, q, r, s) = (bx - ax, by - ay, cx - ax, cy - ay);
    let (k, l) = (sb - sa, sc - sa);
    lemma_bisector(ax as real, ay as real, bx as real, by as real, ox, oy);
    lemma_bisector(ax as real, ay as real, cx as real, cy as real, ox, oy);
    lemma_real_product(ax, ax);
    lemma_real_product(ay, ay);
    lemma_real_product(bx, bx);
    lemma_real_product(by, by);
    lemma_real_product(cx, cx);
    lemma_real_product(cy, cy);
    lemma_solve(
        p as real,
        q as real,
        r as real,
        s as real,
        ox,
        oy,
        k as real,
        l as real,
    );
    lemma_real_product(p, s);
    lemma_real_product(q, r);
    lemma_real_product(k, s);
    lemma_real_product(l, q);
    lemma_real_product(l, p);
    lemma_real_product(k, r);
    assert(t == 2 * (p * s - q * r)) by (nonlinear_arith)
        requires
            t == 2 * (ax * (by - cy) + bx * (cy - ay) + cx * (ay - by)),
            p == bx - ax,
            q == by - ay,
            r == cx - ax,
            s == cy - ay,
    ;
    assert(nx == k * s - l * q) by (nonlinear_arith)
        requires
            nx == sa * (by - cy) + sb * (cy - ay) + sc * (ay - by),
            k == sb - sa,
            l == sc - sa,
            q == by - ay,
            s == cy - ay,
    ;
    assert(ny == l * p - k * r) by (nonlinear_arith)
        requires
            ny == sa * (cx - bx) + sb * (ax - cx) + sc * (bx - ax),
            k == sb - sa,
            l == sc - sa,
            p == bx - ax,
            r == cx - ax,
    ;
    let d = p * s - q * r;
    let (e, f) = (d as real, t as real);
    assert(f * ox == 2 as real * (e * ox) && f * oy == 2 as real * (e * oy)) by (nonlinear_arith)
        requires
            f == 2 as real * e,
    ;
}

proof fn lemma_real_product(i: int, j: int)
    ensures
        (i * j) as real == i as real * j as real,
{
    let (x, y) = (i as real, j as real);
    assert((i * j) as real == x * y) by (nonlinear_arith)
        requires
            x == i as real,
            y == j as real,
    ;
}

/// The center of an arc is equally far from the two ends of its curve and from the
/// curve's middle. On whole coordinates up to 64, where all but the last division is
/// exact (ends that are multiples of four, a control point that is even), the arc's
/// center is the one point that is, up to a part in eight million.
pub proof fn law_arc_center<F: Fn(Op32) -> Real32>(
    u: &Fpu32<F>,
    p0: [Real32; 2],
    p1: [Real32; 2],
    p2: [Real32; 2],
    i0: int,
    j0: int,
    i1: int,
    j1: int,
    i2: int,
    j2: int,
    ox: real,
    oy: real,
)
    requires
        faithful(u),
        is_whole_point(p0, 4 * i0, 4 * j0),
        is_whole_point(p1, 2 * i1, 2 * j1),
        is_whole_point(p2, 4 * i2, 4 * j2),
        -16 <= i0 <= 16 && -16 <= j0 <= 16,
        -32 <= i1 <= 32 && -32 <= j1 <= 32,
        -16 <= i2 <= 16 && -16 <= j2 <= 16,
        draws_arc(u, p0, p1, p2),
        between_squared(val(p2[0]), val(p2[1]), ox, oy) == between_squared(
            val(p0[0]),
            val(p0[1]),
            ox,
            oy,
        ),
        between_squared((i0 + i1 + i2) as real, (j0 + j1 + j2) as real, ox, oy) == between_squared(
            val(p0[0]),
            val(p0[1]),
            ox,
            oy,
        ),
    ensures
        ({
            let s = arc_pieces(u, p0, p1, p2)[0];
            &&& s.param0[0].is_finite() && s.param0[1].is_finite()
            &&& mag(val(s.param0[0]) - ox) <= mag(ox) / 8388608 as real + tiny()
            &&& mag(val(s.param0[1]) - oy) <= mag(oy) / 8388608 as real + tiny()
        }),
{
    let (mx, my) = (i0 + i1 + i2, j0 + j1 + j2);
    let m = curve_middle(u, p0, p1, p2);
    law_line_pieces(u, p0, p2);
    let s = arc_pieces(u, p0, p1, p2)[0];
    assert(s == arc_piece(u, p0, m, p2, circle_center(u, p0, m, p2)));
    lemma_whole_middle(u, p0, p1, p2, i0, i1, i2, 0);
    lemma_whole_middle(u, p0, p1, p2, j0, j1, j2, 1);
    let (ax, ay, cx, cy) = (4 * i0, 4 * j0, 4 * i2, 4 * j2);
    lemma_whole_center(u, p0, m, p2, ax, ay, mx, my, cx, cy);
    lemma_equidistant(ax, ay, mx, my, cx, cy, ox, oy);
    let (sa, sb, sc) = (ax * ax + ay * ay, mx * mx + my * my, cx * cx + cy * cy);
    let t = 2 * (ax * (my - cy) + mx * (cy - ay) + cx * (ay - my));
    let nx = sa * (my - cy) + sb * (cy - ay) + sc * (ay - my);
    let ny = sa * (cx - mx) + sb * (ax - cx) + sc * (mx - ax);
    // The turn is not below its limit, so it is not zero.
    law_literals();
    let d = turn(u, p0, m, p2);
    assert(t != 0) by {
        if t == 0 {
            law_order(d, lit(ZERO));
            assert(d.key() == 0);
            assert(d.abs().lt(lit(MIN_TURN)));
        }
    }
    lemma_quotient_is(nx, t, ox);
    lemma_quotient_is(ny, t, oy);
    lemma_bounded_numerators(ax, ay, mx, my, cx, cy);
    lemma_at_most_dividend(t, ox, nx);
    lemma_at_most_dividend(t, oy, ny);
}

proof fn lemma_quotient_is(n: int, t: int, x: real)
    requires
        t != 0,
        t as real * x == n as real,
    ensures
        n as real / t as real == x,
{
    let (a, b) = (n as real, t as real);
    assert(a / b == x) by (nonlinear_arith)
        requires
            b != 0 as real,
            b * x == a,
    ;
}

proof fn lemma_bounded_numerators(ax: int, ay: int, bx: int, by: int, cx: int, cy: int)
    requires
        -64 <= ax <= 64 && -64 <= ay <= 64,
        -64 <= bx <= 64 && -64 <= by <= 64,
        -64 <= cx <= 64 && -64 <= cy <= 64,
    ensures
        ({
            let (sa, sb, sc) = (ax * ax + ay * ay, bx * bx + by * by, cx * cx + cy * cy);
            let nx = sa * (by - cy) + sb * (cy - ay) + sc * (ay - by);
            let ny = sa * (cx - bx) + sb * (ax - cx) + sc * (bx - ax);
            -0x30_0000 <= nx <= 0x30_0000 && -0x30_0000 <= ny <= 0x30_0000
        }),
{
    let (sa, sb, sc) = (ax * ax + ay * ay, bx * bx + by * by, cx * cx + cy * cy);
    lemma_bounded_product(ax, ax, 64, 64);
    lemma_bounded_product(ay, ay, 64, 64);
    lemma_bounded_product(bx, bx, 64, 64);
    lemma_bounded_product(by, by, 64, 64);
    lemma_bounded_product(cx, cx, 64, 64);
    lemma_bounded_product(cy, cy, 64, 64);
    lemma_bounded_product(sa, by - cy, 8192, 128);
    lemma_bounded_product(sb, cy - ay, 8192, 128);
    lemma_bounded_product(sc, ay - by, 8192, 128);
    lemma_bounded_product(sa, cx - bx, 8192, 128);
    lemma_bounded_product(sb, ax - cx, 8192, 128);
    lemma_bounded_product(sc, bx - ax, 8192, 128);
}

proof fn lemma_at_most_dividend(t: int, x: real, n: int)
    requires
        t != 0,
        t as real * x == n as real,
        -0x30_0000 <= n <= 0x30_0000,
    ensures
        mag(x) <= huge(),
{
    law_mag_product(t as real, x);
    law_mag_sum(t as real, x);
    law_mag_within(n as real, 0x30_0000 as real);
    let (a, b) = (mag(t as real), mag(x));
    assert(b <= a * b) by (nonlinear_arith)
        requires
            a >= 1 as real,
            b >= 0 as real,
    ;
}

/// A rounded square of a rounded difference.
proof fn lemma_rounded_square<F: Fn(Op32) -> Real32>(u: &Fpu32<F>, a: Real32, b: Real32)
    requires
        faithful(u),
        a.is_finite(),
        b.is_finite(),
        mag(val(a)) <= 65536 as real,
        mag(val(b)) <= 65536 as real,
    ensures
        ({
            let q = u.mul(u.sub(a, b), u.sub(a, b));
            let x = val(a) - val(b);
            let w = x * x;
            &&& q.is_finite()
            &&& 0 as real <= w <= 17179869184 as real
            &&& w - w / 2000000 as real - tiny() - tiny() <= val(q) <= w + w / 2000000 as real
                + tiny() + tiny()
            &&& val(q) >= 0 as real
        }),
{
    let x = val(a) - val(b);
    let w = x * x;
    let d = u.sub(a, b);
    let zero = lit(ZERO);
    law_literals();
    law_mag_sum(val(a), val(b));
    law_difference(u, a, b);
    let m = mag(x);
    law_mag_sum(x, x);
    law_mag_product(x, x);
    assert(w == m * m && 0 as real <= w <= 17179869184 as real) by (nonlinear_arith)
        requires
            w == x * x,
            m == x || m == -x,
            0 as real <= m <= 131072 as real,
    ;
    let e = val(d) - x;
    law_mag_sum(e, e);
    law_mag_sum(val(d), x);
    law_mag_sum(val(d), val(d));
    let g = mag(e);
    let y = val(d);
    let v = y * y;
    // (x + e)^2 is x^2 up to 2 |x| |e| + e^2, and small numbers stay small.
    lemma_square_near(x, e, m, g);
    assert(v == (x + e) * (x + e));
    law_mag_sum(v, v);
    assert(v >= 0 as real) by (nonlinear_arith)
        requires
            v == y * y,
    ;
    law_product(u, d, d);
    let q = u.mul(d, d);
    law_mag_within(val(q) - v, v / 8388608 as real + tiny());
    law_at_least(v, q, zero);
    law_order(zero, q);
}

/// The square of nearly the same number.
proof fn lemma_square_near(x: real, e: real, m: real, g: real)
    requires
        m == x || m == -x,
        g == e || g == -e,
        0 as real <= m <= 131072 as real,
        0 as real <= g,
        g <= m / 8388608 as real + tiny(),
    ensures
        ({
            let w = x * x;
            let v = (x + e) * (x + e);
            w - w / 4000000 as real - tiny() / 2 as real <= v <= w + w / 4000000 as real + tiny()
                / 2 as real
        }),
{
    let k = tiny();
    let w = x * x;
    let v = (x + e) * (x + e);
    let mg = m * g;
    assert(v == w + 2 as real * (x * e) + e * e) by (nonlinear_arith)
        requires
            w == x * x,
            v == (x + e) * (x + e),
    ;
    assert(-mg <= x * e <= mg) by (nonlinear_arith)
        requires
            mg == m * g,
            m == x || m == -x,
            g == e || g == -e,
            m >= 0 as real,
            g >= 0 as real,
    ;
    let b = m / 8388608 as real + k;
    assert(mg <= m * b) by (nonlinear_arith)
        requires
            mg == m * g,
            g <= b,
            m >= 0 as real,
    ;
    assert(m * b == w / 8388608 as real + m * k) by (nonlinear_arith)
        requires
            b == m / 8388608 as real + k,
            w == x * x,
            m == x || m == -x,
    ;
    assert(0 as real <= e * e <= b * b) by (nonlinear_arith)
        requires
            g == e || g == -e,
            0 as real <= g <= b,
    ;
    assert(b * b <= b) by (nonlinear_arith)
        requires
            0 as real <= b <= 1 as real,
    ;
    lemma_small_cross(m, k, w);
    assert(b * b == w / 70368744177664 as real + m * k / 4194304 as real + k * k)
        by (nonlinear_arith)
        requires
            b == m / 8388608 as real + k,
            w == x * x,
            m == x || m == -x,
    ;
    assert(k * k <= k / 1000 as real) by (nonlinear_arith)
        requires
            k == 1 as real / 1152921504606846976 as real,
    ;
}

/// A number times next to nothing is next to nothing, or small beside its square.
proof fn lemma_small_cross(m: real, k: real, w: real)
    requires
        k == tiny(),
        w == m * m || w == (-m) * (-m),
        0 as real <= m,
    ensures
        0 as real <= m * k,
        8 as real * (m * k) <= k + w / 100000000 as real,
{
    assert(0 as real <= m * k && 8 as real * (m * k) <= k + w / 100000000 as real)
        by (nonlinear_arith)
        requires
            k == 1 as real / 1152921504606846976 as real,
            w == m * m || w == (-m) * (-m),
            0 as real <= m,
    ;
}

/// The radius squared of an arc is the square of the distance from its first end to
/// its center, up to a millionth.
pub proof fn law_arc_radius<F: Fn(Op32) -> Real32>(
    u: &Fpu32<F>,
    p0: [Real32; 2],
    p1: [Real32; 2],
    p2: [Real32; 2],
)
    requires
        faithful(u),
        draws_arc(u, p0, p1, p2),
        p0[0].is_finite() && mag(val(p0[0])) <= 65536 as real,
        p0[1].is_finite() && mag(val(p0[1])) <= 65536 as real,
        ({
            let s = arc_pieces(u, p0, p1, p2)[0];
            &&& s.param0[0].is_finite() && mag(val(s.param0[0])) <= 65536 as real
            &&& s.param0[1].is_finite() && mag(val(s.param0[1])) <= 65536 as real
        }),
    ensures
        ({
            let s = arc_pieces(u, p0, p1, p2)[0];
            let far = between_squared(
                val(p0[0]),
                val(p0[1]),
                val(s.param0[0]),
                val(s.param0[1]),
            );
            let near = far / 1000000 as real + 1 as real / 1000000000 as real;
            &&& s.param0[2].is_finite()
            &&& far - near <= val(s.param0[2]) <= far + near
        }),
{
    let m = curve_middle(u, p0, p1, p2);
    law_line_pieces(u, p0, p2);
    let s = arc_pieces(u, p0, p1, p2)[0];
    assert(s == arc_piece(u, p0, m, p2, circle_center(u, p0, m, p2)));
    lemma_rounded_square(u, p0[0], s.param0[0]);
    lemma_rounded_square(u, p0[1], s.param0[1]);
    let a = u.mul(u.sub(p0[0], s.param0[0]), u.sub(p0[0], s.param0[0]));
    let b = u.mul(u.sub(p0[1], s.param0[1]), u.sub(p0[1], s.param0[1]));
    let t = val(a) + val(b);
    law_mag_sum(t, t);
    law_sum(u, a, b);
    law_mag_within(val(s.param0[2]) - t, t / 8388608 as real + tiny());
}

} // verus!
