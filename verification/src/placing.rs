//! Where outlines end up in the glyph square, in numbers.
use crate::arc::contour::{placed, third, Outline, Point, PointType};
use crate::arc::fill::placed_box;
use crate::font::em_metrics_of;
use crate::fpu::{Fpu32, Op32};
use crate::literal::{HALF, ONE, ONE_EIGHTH, THOUSAND, THREE, TWO};
use crate::number::{lit, Real32};
use crate::rounding::{
    faithful, is_whole, law_divided, law_literal, law_literals, law_mag_product, law_mag_sum,
    law_mag_within, law_near_itself, law_near_multiple, law_near_sum, law_near_third, law_order,
    law_product, law_quotient, law_whole_arithmetic, law_whole_signed, mag, near, tiny, val,
};
use crate::slug::outline::{half_control, cubic_middle, SlugOutline};
use vstd::arithmetic::power2::lemma2_to64;
use vstd::prelude::*;

verus! {

/// A coordinate of up to 4000.
pub open spec fn close_by(x: Real32) -> bool {
    x.is_finite() && mag(val(x)) <= 4000 as real
}

/// A thirtieth, more or less: what is lost in a few steps.
pub open spec fn loss() -> real {
    1 as real / 32 as real
}

proof fn lemma_literals()
    ensures
        is_whole(lit(THREE), 3),
        is_whole(lit(TWO), 2),
        is_whole(lit(ONE), 1),
        val(lit(ONE_EIGHTH)) == 1 as real / 8 as real,
        is_whole(lit(THOUSAND), 1000),
{
    law_literals();
    lemma2_to64();
    law_literal(THREE, 22, 0x40_0000);
    law_literal(THOUSAND, 14, 0x4000);
    law_literal(ONE_EIGHTH, 26, 0x400_0000);
}

/// The control point of a half, as far from the end as two thirds of the cubic's.
proof fn lemma_third<F: Fn(Op32) -> Real32>(u: &Fpu32<F>, a: Real32, b: Real32)
    requires
        faithful(u),
        close_by(a),
        close_by(b),
    ensures
        near(third(u, a, b), (val(a) + 2 as real * val(b)) / 3 as real, loss()),
{
    lemma_literals();
    law_near_itself(a);
    law_near_itself(b);
    law_mag_product(2 as real, val(b));
    law_mag_sum(2 as real, val(b));
    law_near_multiple(u, lit(TWO), b, 2 as real, val(b), 0 as real);
    let d = u.mul(lit(TWO), b);
    law_near_sum(u, a, d, val(a), 2 as real * val(b), 0 as real, 1 as real / 256 as real);
    law_mag_sum(val(a), 2 as real * val(b));
    law_near_third(
        u,
        lit(THREE),
        u.add(a, d),
        val(a) + 2 as real * val(b),
        1 as real / 128 as real,
    );
}

/// The middle of two numbers.
proof fn lemma_mean<F: Fn(Op32) -> Real32>(u: &Fpu32<F>, a: Real32, b: Real32)
    requires
        faithful(u),
        close_by(a),
        close_by(b),
    ensures
        near(u.mul(u.add(a, b), lit(HALF)), (val(a) + val(b)) / 2 as real, loss()),
{
    law_literals();
    law_near_itself(a);
    law_near_itself(b);
    law_near_sum(u, a, b, val(a), val(b), 0 as real, 0 as real);
    law_mag_sum(val(a), val(b));
    let x = val(a) + val(b);
    assert(1 as real / 2 as real * mag(x) <= 32000 as real) by (nonlinear_arith)
        requires
            mag(x) <= 8192 as real,
    ;
    law_near_multiple(
        u,
        lit(HALF),
        u.add(a, b),
        1 as real / 2 as real,
        x,
        1 as real / 256 as real,
    );
}

/// The point stands for these numbers, up to the loss.
pub open spec fn point_near(p: Point, x: real, y: real) -> bool {
    near(p.x, x, loss()) && near(p.y, y, loss())
}

/// A cubic curve of coordinates up to 4000 becomes two quadratic ones: they join on
/// the curve halfway between its two control points, each leaves its end towards the
/// cubic's control point, two thirds of the way, and the last point is the cubic's.
pub proof fn law_cubic_in_a_contour<F: Fn(Op32) -> Real32>(
    o: Outline,
    u: &Fpu32<F>,
    x1: Real32,
    y1: Real32,
    x2: Real32,
    y2: Real32,
    x: Real32,
    y: Real32,
)
    requires
        faithful(u),
        o.current.len() > 0,
        close_by(o.current.last().x) && close_by(o.current.last().y),
        close_by(x1) && close_by(y1) && close_by(x2) && close_by(y2) && close_by(x) && close_by(y),
    ensures
        ({
            let n = o.current.len() as int;
            let pen = o.current.last();
            let c = o.curve_to(u, x1, y1, x2, y2, x, y).current;
            &&& o.curve_to(u, x1, y1, x2, y2, x, y).contours == o.contours
            &&& c.len() == n + 4
            &&& c.take(n) == o.current
            &&& c[n].p_type == PointType::Control && c[n + 1].p_type == PointType::OnCurve
            &&& c[n + 2].p_type == PointType::Control && c[n + 3].p_type == PointType::OnCurve
            &&& c[n + 3].x == x && c[n + 3].y == y
            &&& point_near(
                c[n],
                (val(pen.x) + 2 as real * val(x1)) / 3 as real,
                (val(pen.y) + 2 as real * val(y1)) / 3 as real,
            )
            &&& point_near(
                c[n + 1],
                (val(x1) + val(x2)) / 2 as real,
                (val(y1) + val(y2)) / 2 as real,
            )
            &&& point_near(
                c[n + 2],
                (val(x) + 2 as real * val(x2)) / 3 as real,
                (val(y) + 2 as real * val(y2)) / 3 as real,
            )
        }),
{
    let pen = o.current.last();
    let n = o.current.len() as int;
    lemma_third(u, pen.x, x1);
    lemma_third(u, pen.y, y1);
    lemma_third(u, x, x2);
    lemma_third(u, y, y2);
    lemma_mean(u, x1, x2);
    lemma_mean(u, y1, y2);
    assert(o.curve_to(u, x1, y1, x2, y2, x, y).current.take(n) =~= o.current);
}

/// One coordinate of the middle of a cubic curve.
proof fn lemma_cubic_middle<F: Fn(Op32) -> Real32>(
    u: &Fpu32<F>,
    a: Real32,
    b: Real32,
    c: Real32,
    d: Real32,
)
    requires
        faithful(u),
        close_by(a) && close_by(b) && close_by(c) && close_by(d),
    ensures
        near(
            cubic_middle(u, a, b, c, d),
            (val(a) + 3 as real * val(b) + 3 as real * val(c) + val(d)) / 8 as real,
            loss(),
        ),
{
    lemma_literals();
    let e = 1 as real / 256 as real;
    law_near_itself(a);
    law_near_itself(b);
    law_near_itself(c);
    law_near_itself(d);
    law_mag_product(3 as real, val(b));
    law_mag_product(3 as real, val(c));
    law_mag_sum(3 as real, val(b));
    law_near_multiple(u, lit(THREE), b, 3 as real, val(b), 0 as real);
    law_near_multiple(u, lit(THREE), c, 3 as real, val(c), 0 as real);
    let (x, y) = (3 as real * val(b), 3 as real * val(c));
    let (tb, tc) = (u.mul(lit(THREE), b), u.mul(lit(THREE), c));
    law_near_sum(u, a, tb, val(a), x, 0 as real, e);
    law_mag_sum(val(a), x);
    law_near_sum(u, u.add(a, tb), tc, val(a) + x, y, 2 as real * e, e);
    law_mag_sum(val(a) + x, y);
    let s = u.add(u.add(a, tb), tc);
    law_near_sum(u, s, d, val(a) + x + y, val(d), 4 as real * e, 0 as real);
    law_mag_sum(val(a) + x + y, val(d));
    let w = val(a) + x + y + val(d);
    assert(1 as real / 8 as real * mag(w) <= 32000 as real) by (nonlinear_arith)
        requires
            mag(w) <= 32768 as real,
    ;
    law_near_multiple(u, lit(ONE_EIGHTH), u.add(s, d), 1 as real / 8 as real, w, 5 as real * e);
}

/// One coordinate of the control point of a half of a cubic curve.
proof fn lemma_half_control<F: Fn(Op32) -> Real32>(u: &Fpu32<F>, c: Real32, a: Real32)
    requires
        faithful(u),
        close_by(c) && close_by(a),
    ensures
        near(half_control(u, c, a), (3 as real * val(c) - val(a)) / 2 as real, loss()),
{
    lemma_literals();
    law_literals();
    let e = 1 as real / 256 as real;
    law_near_itself(a);
    law_near_itself(c);
    law_mag_product(3 as real, val(c));
    law_mag_sum(3 as real, val(c));
    law_near_multiple(u, lit(THREE), c, 3 as real, val(c), 0 as real);
    let x = 3 as real * val(c);
    law_near_sum(u, u.mul(lit(THREE), c), a, x, val(a), e, 0 as real);
    law_mag_sum(x, val(a));
    let w = x - val(a);
    assert(1 as real / 2 as real * mag(w) <= 32000 as real) by (nonlinear_arith)
        requires
            mag(w) <= 16384 as real,
    ;
    law_near_multiple(
        u,
        lit(HALF),
        u.sub(u.mul(lit(THREE), c), a),
        1 as real / 2 as real,
        w,
        2 as real * e,
    );
}

/// Both coordinates of a point are up to 4000.
pub open spec fn point_close_by(p: [Real32; 2]) -> bool {
    close_by(p[0]) && close_by(p[1])
}

/// A cubic curve of coordinates up to 4000 becomes two quadratic ones: from the pen to
/// the cubic's middle at parameter one half, and from there to its end. The control
/// point of each lies on the tangent at its end, half as far again as the cubic's.
pub proof fn law_cubic_in_an_outline<F: Fn(Op32) -> Real32>(
    o: SlugOutline,
    u: &Fpu32<F>,
    x1: Real32,
    y1: Real32,
    x2: Real32,
    y2: Real32,
    x: Real32,
    y: Real32,
    axis: int,
)
    requires
        faithful(u),
        0 <= axis < 2,
        point_close_by(o.current_pos),
        point_close_by(o.transform(u, x1, y1)),
        point_close_by(o.transform(u, x2, y2)),
        point_close_by(o.transform(u, x, y)),
    ensures
        ({
            let w = o.curve_to(u, x1, y1, x2, y2, x, y);
            let n = o.curves.len() as int;
            let (f, g) = (w.curves[n], w.curves[n + 1]);
            let p0 = val(o.current_pos[axis]);
            let c1 = val(o.transform(u, x1, y1)[axis]);
            let c2 = val(o.transform(u, x2, y2)[axis]);
            let p3 = val(o.transform(u, x, y)[axis]);
            &&& w.curves.len() == n + 2
            &&& w.curves.take(n) == o.curves
            &&& w.current_pos == o.transform(u, x, y) && w.contour_start == o.contour_start
            &&& f.p12[axis] == o.current_pos[axis] && g.p3[axis] == o.transform(u, x, y)[axis]
            &&& f.p3[axis] == g.p12[axis]
            &&& near(
                f.p3[axis],
                (p0 + 3 as real * c1 + 3 as real * c2 + p3) / 8 as real,
                loss(),
            )
            &&& near(f.p12[2 + axis], p0 + (c1 - p0) * (3 as real / 2 as real), loss())
            &&& near(g.p12[2 + axis], p3 + (c2 - p3) * (3 as real / 2 as real), loss())
        }),
{
    let p0 = o.current_pos[axis];
    let c1 = o.transform(u, x1, y1)[axis];
    let c2 = o.transform(u, x2, y2)[axis];
    let p3 = o.transform(u, x, y)[axis];
    lemma_cubic_middle(u, p0, c1, c2, p3);
    lemma_half_control(u, c1, p0);
    lemma_half_control(u, c2, p3);
    let n = o.curves.len() as int;
    let w = o.curve_to(u, x1, y1, x2, y2, x, y);
    assert(w.curves.take(n) =~= o.curves);
    let (a, b, c, d) = (val(p0), val(c1), val(c2), val(p3));
    assert(a + (b - a) * (3 as real / 2 as real) == (3 as real * b - a) / 2 as real)
        by (nonlinear_arith);
    assert(d + (c - d) * (3 as real / 2 as real) == (3 as real * c - d) / 2 as real)
        by (nonlinear_arith);
}

/// The straight curve of a line has its control point halfway, so that it runs evenly
/// from the pen to the line's end.
pub proof fn law_line_in_an_outline<F: Fn(Op32) -> Real32>(
    o: SlugOutline,
    u: &Fpu32<F>,
    x: Real32,
    y: Real32,
    axis: int,
)
    requires
        faithful(u),
        0 <= axis < 2,
        point_close_by(o.current_pos),
        point_close_by(o.transform(u, x, y)),
    ensures
        ({
            let w = o.line_to(u, x, y);
            let c = w.curves.last();
            let (from, to) = (o.current_pos[axis], o.transform(u, x, y)[axis]);
            &&& w.curves.drop_last() == o.curves
            &&& w.current_pos == o.transform(u, x, y) && w.contour_start == o.contour_start
            &&& c.p12[axis] == from && c.p3[axis] == to
            &&& near(c.p12[2 + axis], (val(from) + val(to)) / 2 as real, loss())
        }),
{
    lemma_mean(u, o.current_pos[axis], o.transform(u, x, y)[axis]);
    assert(o.line_to(u, x, y).curves.drop_last() =~= o.curves);
}

/// The height of a font that becomes 1000, at least one.
pub open spec fn em_height(ascender: i16, descender: i16) -> int {
    if ascender - descender < 1 {
        1
    } else {
        ascender - descender
    }
}

/// The metrics of a font: the descender as it is, and a length of a design unit of
/// which the font's height makes 1000.
pub proof fn law_em_metrics<F: Fn(Op32) -> Real32>(u: &Fpu32<F>, ascender: i16, descender: i16)
    requires
        faithful(u),
    ensures
        ({
            let em = em_metrics_of(u, ascender, descender);
            let h = em_height(ascender, descender) as real;
            &&& is_whole(em.descender, descender as int)
            &&& em.scale_em.is_finite()
            &&& (0 as real) < val(em.scale_em) <= 1001 as real
            &&& mag(val(em.scale_em) * h - 1000 as real) <= 1 as real / 5000 as real
        }),
{
    lemma_literals();
    law_whole_signed(u, ascender as i64);
    law_whole_signed(u, descender as i64);
    let low = u.from_int(descender as i64);
    let high = u.from_int(ascender as i64);
    law_whole_arithmetic(u, high, low, ascender as int, descender as int);
    let d = u.sub(high, low);
    law_order(d, lit(ONE));
    let w = d.max(lit(ONE));
    let n = em_height(ascender, descender);
    assert(is_whole(w, n));
    let h = n as real;
    let q = 1000 as real / h;
    law_divided(1000 as real, h);
    assert((0 as real) < q <= 1000 as real) by (nonlinear_arith)
        requires
            q * h == 1000 as real,
            h >= 1 as real,
    ;
    law_mag_sum(q, q);
    law_quotient(u, lit(THOUSAND), w);
    let s = val(u.div(lit(THOUSAND), w));
    law_mag_within(s - q, q / 8388608 as real + tiny());
    let e = (s - q) * h;
    assert(s * h == 1000 as real + e) by (nonlinear_arith)
        requires
            q * h == 1000 as real,
            e == (s - q) * h,
    ;
    let b = q / 8388608 as real + tiny();
    assert(b * h == 1000 as real / 8388608 as real + h / 1152921504606846976 as real)
        by (nonlinear_arith)
        requires
            q * h == 1000 as real,
            b == q / 8388608 as real + 1 as real / 1152921504606846976 as real,
    ;
    assert(-(b * h) <= e <= b * h) by (nonlinear_arith)
        requires
            e == (s - q) * h,
            -b <= s - q <= b,
            h >= 1 as real,
    ;
    law_mag_within(s * h - 1000 as real, 1 as real / 5000 as real);
    assert(s > 0 as real) by (nonlinear_arith)
        requires
            s * h >= 999 as real,
            h >= 1 as real,
    ;
}

/// The number of design units `k` is placed as `r` where the font is `h` high.
pub open spec fn placed_as(r: Real32, k: int, h: int) -> bool {
    r.is_finite() && mag(val(r) * h as real - 1000 as real * k as real) <= mag(k as real)
        / 1000 as real + 1 as real / 100 as real
}

/// A whole number of design units, scaled.
proof fn lemma_scaled<F: Fn(Op32) -> Real32>(
    u: &Fpu32<F>,
    a: Real32,
    k: int,
    ascender: i16,
    descender: i16,
)
    requires
        faithful(u),
        is_whole(a, k),
        -200000 <= k <= 200000,
    ensures
        placed_as(
            u.mul(a, em_metrics_of(u, ascender, descender).scale_em),
            k,
            em_height(ascender, descender),
        ),
{
    let em = em_metrics_of(u, ascender, descender);
    let n = em_height(ascender, descender);
    law_em_metrics(u, ascender, descender);
    let (x, s, h) = (k as real, val(em.scale_em), n as real);
    let p = x * s;
    let m = mag(x);
    law_mag_within(x, 200000 as real);
    law_mag_product(x, s);
    law_mag_sum(s, s);
    law_mag_sum(x, x);
    let mp = m * s;
    assert(mp <= 200200000 as real) by (nonlinear_arith)
        requires
            mp == m * s,
            0 as real <= m <= 200000 as real,
            0 as real <= s <= 1001 as real,
    ;
    law_product(u, a, em.scale_em);
    let r = val(u.mul(a, em.scale_em));
    let g = s * h - 1000 as real;
    law_mag_within(g, 1 as real / 5000 as real);
    let e = r - p;
    law_mag_within(e, mp / 8388608 as real + tiny());
    assert(r * h - 1000 as real * x == e * h + x * g) by (nonlinear_arith)
        requires
            e == r - p,
            p == x * s,
            g == s * h - 1000 as real,
    ;
    let b = mp / 8388608 as real + tiny();
    assert(-(b * h) <= e * h <= b * h) by (nonlinear_arith)
        requires
            -b <= e <= b,
            h >= 1 as real,
    ;
    let sh = s * h;
    assert(b * h == (m * sh) / 8388608 as real + h / 1152921504606846976 as real)
        by (nonlinear_arith)
        requires
            b == mp / 8388608 as real + 1 as real / 1152921504606846976 as real,
            mp == m * s,
            sh == s * h,
    ;
    assert(m * sh <= m * 1001 as real) by (nonlinear_arith)
        requires
            sh <= 1001 as real,
            m >= 0 as real,
    ;
    assert(-(m / 5000 as real) <= x * g <= m / 5000 as real) by (nonlinear_arith)
        requires
            m == x || m == -x,
            m >= 0 as real,
            -(1 as real / 5000 as real) <= g <= 1 as real / 5000 as real,
    ;
    law_mag_within(r * h - 1000 as real * x, m / 1000 as real + 1 as real / 100 as real);
}

/// Both ways of drawing place a design point alike, and the box of a glyph with it:
/// the font's height makes 1000, its descender is at height zero, and x starts at
/// zero. So a point at the ascender is at 1000.
pub proof fn law_placing<F: Fn(Op32) -> Real32>(
    u: &Fpu32<F>,
    o: SlugOutline,
    p: Point,
    i: int,
    j: int,
    ascender: i16,
    descender: i16,
)
    requires
        faithful(u),
        is_whole(p.x, i),
        is_whole(p.y, j),
        -100000 <= i <= 100000,
        -100000 <= j <= 100000,
        o.scale_em == em_metrics_of(u, ascender, descender).scale_em,
        o.descender == em_metrics_of(u, ascender, descender).descender,
    ensures
        ({
            let em = em_metrics_of(u, ascender, descender);
            let h = em_height(ascender, descender);
            let a = placed(u, p, em.scale_em, em.descender);
            let b = o.transform(u, p.x, p.y);
            &&& placed_as(a[0], i, h) && placed_as(a[1], j - descender, h)
            &&& placed_as(b[0], i, h) && placed_as(b[1], j - descender, h)
        }),
{
    let em = em_metrics_of(u, ascender, descender);
    law_em_metrics(u, ascender, descender);
    lemma_scaled(u, p.x, i, ascender, descender);
    law_whole_arithmetic(u, p.y, em.descender, j, descender as int);
    lemma_scaled(u, u.sub(p.y, em.descender), j - descender, ascender, descender);
}

/// The box of a glyph is placed like its points.
pub proof fn law_placed_box<F: Fn(Op32) -> Real32>(
    u: &Fpu32<F>,
    b: (i16, i16, i16, i16),
    ascender: i16,
    descender: i16,
)
    requires
        faithful(u),
    ensures
        ({
            let h = em_height(ascender, descender);
            let r = placed_box(u, em_metrics_of(u, ascender, descender), b);
            &&& placed_as(r[0], b.0 as int, h) && placed_as(r[1], b.1 - descender, h)
            &&& placed_as(r[2], b.2 as int, h) && placed_as(r[3], b.3 - descender, h)
        }),
{
    let em = em_metrics_of(u, ascender, descender);
    law_em_metrics(u, ascender, descender);
    law_whole_signed(u, b.0 as i64);
    law_whole_signed(u, b.1 as i64);
    law_whole_signed(u, b.2 as i64);
    law_whole_signed(u, b.3 as i64);
    let (low, high) = (u.from_int(b.1 as i64), u.from_int(b.3 as i64));
    law_whole_arithmetic(u, low, em.descender, b.1 as int, descender as int);
    law_whole_arithmetic(u, high, em.descender, b.3 as int, descender as int);
    lemma_scaled(u, u.from_int(b.0 as i64), b.0 as int, ascender, descender);
    lemma_scaled(u, u.from_int(b.2 as i64), b.2 as int, ascender, descender);
    lemma_scaled(u, u.sub(low, em.descender), b.1 - descender, ascender, descender);
    lemma_scaled(u, u.sub(high, em.descender), b.3 - descender, ascender, descender);
}

} // verus!
