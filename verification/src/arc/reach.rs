//! How far to the right an arc reaches, in numbers.
use crate::arc::line::{millionth, placed, placed_point};
use crate::arc::reversal::draws_arc;
use crate::arc::segment::{
    arc_piece, arc_pieces, circle_center, curve_middle, law_arc_pieces, law_line_pieces, GpuSegment,
    MAX_RADIUS,
};
use crate::fpu::{Fpu32, Op32};
use crate::literal::{HALF, MINUS_ONE, ONE, QUARTER, ZERO};
use crate::number::{lit, Real32};
use crate::rounding::{
    faithful, law_literal, law_literals, law_mag_sum, law_mag_within, law_order, law_product,
    law_root, law_sum, mag, tiny, val,
};
use vstd::arithmetic::power2::lemma2_to64;
use vstd::prelude::*;

verus! {

/// The middle of a curve is a quarter of its first and its last point and half of its
/// control point, up to a millionth.
pub proof fn law_curve_middle<F: Fn(Op32) -> Real32>(
    u: &Fpu32<F>,
    p0: [Real32; 2],
    p1: [Real32; 2],
    p2: [Real32; 2],
    axis: int,
)
    requires
        faithful(u),
        placed(p0[axis]),
        placed(p1[axis]),
        placed(p2[axis]),
        0 <= axis < 2,
    ensures
        ({
            let m = curve_middle(u, p0, p1, p2)[axis];
            let (x0, x1, x2) = (val(p0[axis]), val(p1[axis]), val(p2[axis]));
            &&& m.is_finite()
            &&& mag(4 as real * val(m) - (x0 + 2 as real * x1 + x2)) <= 4 as real * millionth(
                1 as real + mag(x0) + mag(x1) + mag(x2),
            )
        }),
{
    let (x0, x1, x2) = (val(p0[axis]), val(p1[axis]), val(p2[axis]));
    law_literals();
    law_product(u, lit(QUARTER), p0[axis]);
    law_product(u, lit(HALF), p1[axis]);
    law_product(u, lit(QUARTER), p2[axis]);
    let a = u.mul(lit(QUARTER), p0[axis]);
    let b = u.mul(lit(HALF), p1[axis]);
    let c = u.mul(lit(QUARTER), p2[axis]);
    lemma_fraction(x0, 4 as real);
    lemma_fraction(x1, 2 as real);
    lemma_fraction(x2, 4 as real);
    law_mag_sum(x0, x1);
    law_mag_sum(x2, x2);
    law_mag_sum(val(a), x0 / 4 as real);
    law_mag_sum(val(b), x1 / 2 as real);
    law_mag_sum(val(c), x2 / 4 as real);
    law_mag_sum(val(a), val(b));
    law_sum(u, a, b);
    let d = u.add(a, b);
    law_mag_sum(val(d), val(a) + val(b));
    law_mag_sum(val(d), val(c));
    law_sum(u, d, c);
    let m = u.add(d, c);
    let (ea, eb, ec) = (val(a) - x0 / 4 as real, val(b) - x1 / 2 as real, val(c) - x2 / 4 as real);
    let (ed, em) = (val(d) - (val(a) + val(b)), val(m) - (val(d) + val(c)));
    law_mag_sum(ea, eb);
    law_mag_sum(ea + eb, ec);
    law_mag_sum(ea + eb + ec, ed);
    law_mag_sum(ea + eb + ec + ed, em);
    let e = ea + eb + ec + ed + em;
    law_mag_sum(e, e);
    law_mag_sum(e + e, e + e);
    assert(4 as real * val(m) - (x0 + 2 as real * x1 + x2) == (e + e) + (e + e));
}

/// A fraction of a number, and its magnitude.
proof fn lemma_fraction(x: real, n: real)
    requires
        n == 2 as real || n == 4 as real,
    ensures
        (1 as real / n) * x == x / n,
        mag(x / n) == mag(x) / n,
{
    assert((1 as real / n) * x == x / n) by (nonlinear_arith)
        requires
            n > 0 as real,
    ;
    law_mag_sum(x, x);
    law_mag_sum(x / n, x);
    law_mag_within(x / n, mag(x) / n);
    law_mag_within(x / n, -(x / n));
    law_mag_within(x / n, x / n);
    reveal(mag);
}

/// The rightmost point of the circle lies on the arc: it is drawn on the right, from
/// below the center to above it.
pub open spec fn passes_rightmost(s: GpuSegment) -> bool {
    s.sign == lit(ONE) && s.param0[3].le(s.param0[1]) && s.param0[1].le(s.param1[0])
}

/// An arc is drawn on the side of its center on which the curve's middle lies. Where
/// it does not pass the rightmost point of its circle, its `x_max` is that of an end
/// or of the middle, and none of these that is a number lies right of it.
pub proof fn law_arc_reaches_its_ends<F: Fn(Op32) -> Real32>(
    u: &Fpu32<F>,
    p0: [Real32; 2],
    p1: [Real32; 2],
    p2: [Real32; 2],
)
    requires
        draws_arc(u, p0, p1, p2),
    ensures
        ({
            let s = arc_pieces(u, p0, p1, p2)[0];
            let m = curve_middle(u, p0, p1, p2);
            &&& s.sign == lit(ONE) || s.sign == lit(MINUS_ONE)
            &&& s.sign == lit(ONE) <==> s.param0[0].le(m[0])
            &&& !passes_rightmost(s) ==> {
                &&& s.x_max == p0[0] || s.x_max == p2[0] || s.x_max == m[0]
                &&& !p0[0].is_nan() ==> p0[0].le(s.x_max)
                &&& !p2[0].is_nan() ==> p2[0].le(s.x_max)
                &&& !m[0].is_nan() ==> m[0].le(s.x_max)
            }
        }),
{
    law_line_pieces(u, p0, p2);
    let m = curve_middle(u, p0, p1, p2);
    let s = arc_pieces(u, p0, p1, p2)[0];
    assert(s == arc_piece(u, p0, m, p2, circle_center(u, p0, m, p2)));
    assert(lit(ONE) != lit(MINUS_ONE));
}

/// The numbers of an arc are those of a glyph: its center lies within 65536 of the
/// origin.
pub open spec fn arc_in_square(s: GpuSegment) -> bool {
    &&& s.param0[0].is_finite() && s.param0[1].is_finite() && placed(s.param0[2])
    &&& mag(val(s.param0[0])) <= 65536 as real
    &&& val(s.param0[2]) >= 0 as real
}

/// The point at `x`, `y` lies on the circle of the arc, on the side that is drawn.
pub open spec fn on_drawn_side(s: GpuSegment, x: real, y: real) -> bool {
    let (dx, dy) = (x - val(s.param0[0]), y - val(s.param0[1]));
    &&& dx * dx + dy * dy == val(s.param0[2])
    &&& s.sign == lit(ONE) ==> dx >= 0 as real
    &&& s.sign == lit(MINUS_ONE) ==> dx <= 0 as real
}

/// Where an arc passes the rightmost point of its circle, its `x_max` is that point,
/// the center and the radius, up to a fiftieth of a unit.
proof fn lemma_rightmost<F: Fn(Op32) -> Real32>(
    u: &Fpu32<F>,
    p0: [Real32; 2],
    p1: [Real32; 2],
    p2: [Real32; 2],
)
    requires
        faithful(u),
        draws_arc(u, p0, p1, p2),
        arc_in_square(arc_pieces(u, p0, p1, p2)[0]),
        passes_rightmost(arc_pieces(u, p0, p1, p2)[0]),
    ensures
        ({
            let s = arc_pieces(u, p0, p1, p2)[0];
            let r = u.sqrt(s.param0[2]);
            let sum = val(s.param0[0]) + val(r);
            &&& s.x_max.is_finite() && r.is_finite()
            &&& 0 as real <= val(r) <= 4000 as real
            &&& mag(val(r) * val(r) - val(s.param0[2])) <= val(s.param0[2]) / 2097152 as real
                + tiny()
            &&& sum - 1 as real / 100 as real <= val(s.x_max) <= sum + 1 as real / 100 as real
        }),
{
    law_line_pieces(u, p0, p2);
    law_arc_pieces(u, p0, p1, p2);
    let m = curve_middle(u, p0, p1, p2);
    let s = arc_pieces(u, p0, p1, p2)[0];
    assert(s == arc_piece(u, p0, m, p2, circle_center(u, p0, m, p2)));
    let r = u.sqrt(s.param0[2]);
    law_literals();
    lemma2_to64();
    law_literal(MAX_RADIUS, 12, 0x1000);
    law_mag_sum(val(s.param0[2]), val(s.param0[2]));
    law_root(u, s.param0[2]);
    law_order(lit(ZERO), r);
    law_order(lit(MAX_RADIUS), r);
    let sum = val(s.param0[0]) + val(r);
    law_mag_within(val(s.param0[0]), 65536 as real);
    law_mag_within(sum, 70000 as real);
    law_sum(u, s.param0[0], r);
    law_mag_within(val(s.x_max) - sum, 1 as real / 100 as real);
}

/// No point of a drawn arc lies right of its `x_max`, up to a fiftieth of a unit: every
/// point between the heights of the ends, on the circle and on the side that is drawn.
/// The ends have to lie there too, as they do where nothing is rounded. And nothing is
/// wasted: where the arc passes the rightmost point of its circle, `x_max` is not
/// farther right than that.
pub proof fn law_arc_lies_left_of_x_max<F: Fn(Op32) -> Real32>(
    u: &Fpu32<F>,
    p0: [Real32; 2],
    p1: [Real32; 2],
    p2: [Real32; 2],
    x: real,
    y: real,
)
    requires
        faithful(u),
        placed_point(p0),
        placed_point(p1),
        placed_point(p2),
        draws_arc(u, p0, p1, p2),
        arc_in_square(arc_pieces(u, p0, p1, p2)[0]),
        on_drawn_side(arc_pieces(u, p0, p1, p2)[0], val(p0[0]), val(p0[1])),
        on_drawn_side(arc_pieces(u, p0, p1, p2)[0], val(p2[0]), val(p2[1])),
        on_drawn_side(arc_pieces(u, p0, p1, p2)[0], x, y),
        (val(p0[1]) <= y <= val(p2[1])) || (val(p2[1]) <= y <= val(p0[1])),
    ensures
        ({
            let s = arc_pieces(u, p0, p1, p2)[0];
            &&& s.x_max.is_finite()
            &&& x <= val(s.x_max) + 1 as real / 50 as real
            &&& passes_rightmost(s) && x - val(s.param0[0]) >= 0 as real && y == val(s.param0[1])
                ==> val(s.x_max) <= x + 1 as real / 50 as real
        }),
{
    let s = arc_pieces(u, p0, p1, p2)[0];
    let m = curve_middle(u, p0, p1, p2);
    law_line_pieces(u, p0, p2);
    assert(s == arc_piece(u, p0, m, p2, circle_center(u, p0, m, p2)));
    law_arc_reaches_its_ends(u, p0, p1, p2);
    let (cx, cy, r2) = (val(s.param0[0]), val(s.param0[1]), val(s.param0[2]));
    let (x0, y0, x2, y2) = (val(p0[0]), val(p0[1]), val(p2[0]), val(p2[1]));
    law_order(p0[1], p2[1]);
    law_order(p2[1], p0[1]);
    if passes_rightmost(s) {
        lemma_rightmost(u, p0, p1, p2);
        let r = val(u.sqrt(s.param0[2]));
        let (dx, dy) = (x - cx, y - cy);
        law_mag_within(r * r - r2, r2 / 2097152 as real + tiny());
        assert(dy * dy >= 0 as real) by (nonlinear_arith);
        lemma_chord(dx, r, r2);
        if dy == 0 as real {
            assert(dy * dy == 0 as real) by (nonlinear_arith)
                requires
                    dy == 0 as real,
            ;
            lemma_chord(r, dx, r2);
        }
    } else {
        law_curve_middle(u, p0, p1, p2, 0);
        law_order(p0[0], s.x_max);
        law_order(p2[0], s.x_max);
        law_order(s.param0[3], s.param0[1]);
        law_order(s.param0[1], s.param1[0]);
        assert(s.param0[3] == p0[1] || s.param0[3] == p2[1]);
        assert(s.param1[0] == p0[1] || s.param1[0] == p2[1]);
        let (lx, ly, hx, hy) = if y0 <= y2 {
            (x0, y0, x2, y2)
        } else {
            (x2, y2, x0, y0)
        };
        if s.sign == lit(ONE) {
            if cy < ly {
                lemma_higher(ly - cy, y - cy, lx - cx, x - cx, r2);
            } else {
                lemma_higher(cy - hy, cy - y, hx - cx, x - cx, r2);
            }
        } else if y >= cy {
            lemma_higher(y - cy, hy - cy, cx - x, cx - hx, r2);
        } else {
            lemma_higher(cy - y, cy - ly, cx - x, cx - lx, r2);
        }
    }
}

/// Of two points on a circle, the one farther off the center's height is not farther
/// off its place.
proof fn lemma_higher(a: real, b: real, p: real, q: real, r2: real)
    requires
        0 as real <= a <= b,
        p >= 0 as real,
        q >= 0 as real,
        p * p + a * a == r2 || p * p + (-a) * (-a) == r2 || (-p) * (-p) + a * a == r2 || (-p) * (-p)
            + (-a) * (-a) == r2,
        q * q + b * b == r2 || q * q + (-b) * (-b) == r2 || (-q) * (-q) + b * b == r2 || (-q) * (-q)
            + (-b) * (-b) == r2,
    ensures
        q <= p,
{
    lemma_opposite_square(a);
    lemma_opposite_square(b);
    lemma_opposite_square(p);
    lemma_opposite_square(q);
    assert(a * a <= b * b) by (nonlinear_arith)
        requires
            0 as real <= a <= b,
    ;
    if q > p {
        assert(q * q > p * p) by (nonlinear_arith)
            requires
                p >= 0 as real,
                q > p,
        ;
    }
}

proof fn lemma_opposite_square(a: real)
    ensures
        (-a) * (-a) == a * a,
{
    assert((-a) * (-a) == a * a) by (nonlinear_arith);
}

/// A half chord is at most the radius, up to a hundredth.
proof fn lemma_chord(w: real, r: real, r2: real)
    requires
        r >= 0 as real,
        r <= 4001 as real || w <= 4000 as real,
        w * w <= r2 + r2 / 2097152 as real + tiny(),
        r2 - r2 / 2097152 as real - tiny() <= r * r,
    ensures
        w <= r + 1 as real / 100 as real,
{
    let e = 1 as real / 100 as real;
    if w > r + e {
        assert(w * w >= w * r + w * e && w * r >= r * r + r * e) by (nonlinear_arith)
            requires
                w > r + e,
                r >= 0 as real,
                e > 0 as real,
        ;
        let ww = w * w;
        let rr = r * r;
        assert(r * e == r / 100 as real && w * e == w / 100 as real) by (nonlinear_arith)
            requires
                e == 1 as real / 100 as real,
        ;
        if r > 4001 as real {
            assert(false);
        }
        assert(rr <= 4001 as real * r) by (nonlinear_arith)
            requires
                rr == r * r,
                0 as real <= r <= 4001 as real,
        ;
    }
}

} // verus!
