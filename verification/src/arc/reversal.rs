//! What changes when a line or a curve is drawn from its other end.
use crate::arc::segment::{
    arc_piece, arc_pieces, circle_center, curve_middle, distance_squared, law_line_pieces,
    line_pieces, slanted_piece, turn, KIND_ARC, KIND_FLAT, KIND_LINE,
};
use crate::arith::{
    differences_mirror, differences_order, law_self_difference, law_zero_difference, lawful,
    quotients_mirror, squares_agree, sums_agree, sums_commute,
};
use crate::fpu::{Fpu32, Op32};
use crate::literal::HALF;
use crate::number::{law_opposite, law_units, lit, Real32};
use vstd::arithmetic::power2::{lemma_pow2_pos, pow2};
use vstd::prelude::*;

verus! {

/// Reversing a line turns its direction round and keeps all else, up to the
/// rounding of a slanted piece's intercept: it is dropped or drawn either way, as
/// the same kind of piece, between the same heights, up to the same `x_max`, and
/// with the same slope. This holds for finite heights.
pub proof fn law_reversed_line<F: Fn(Op32) -> Real32>(
    u: &Fpu32<F>,
    p0: [Real32; 2],
    p1: [Real32; 2],
)
    requires
        lawful(u),
        p0[1].is_finite(),
        p1[1].is_finite(),
    ensures
        line_pieces(u, p1, p0).len() == line_pieces(u, p0, p1).len(),
        line_pieces(u, p0, p1).len() > 0 ==> {
            let a = line_pieces(u, p0, p1)[0];
            let b = line_pieces(u, p1, p0)[0];
            &&& b.kind == a.kind
            &&& b.sign == a.sign
            &&& b.direction.same(a.direction.opposite())
            &&& b.x_max.same(a.x_max)
            &&& b.param0[0].same(a.param0[0])
            &&& a.kind == KIND_FLAT ==> b.param0[1] == a.param0[1]
            &&& b.param0[2].same(a.param0[2])
            &&& b.param0[3].same(a.param0[3])
            &&& b.param1 == a.param1
        },
{
    let dx = u.value(Op32::Sub(p1[0], p0[0]));
    let dy = u.value(Op32::Sub(p1[1], p0[1]));
    let ex = u.value(Op32::Sub(p0[0], p1[0]));
    let ey = u.value(Op32::Sub(p0[1], p1[1]));
    law_opposite(dx);
    law_opposite(dy);
    assert(ex.same(dx.opposite()) && ey.same(dy.opposite())) by {
        reveal(differences_mirror);
    }
    assert(!dy.is_nan() && !ey.is_nan()) by {
        reveal(differences_order);
    }
    assert(ex.is_nan() == dx.is_nan() && (!ex.is_nan() ==> ex.abs() == dx.abs()));
    assert(ey.abs() == dy.abs());
    if line_pieces(u, p0, p1).len() > 0 {
        let a = line_pieces(u, p0, p1)[0];
        let b = line_pieces(u, p1, p0)[0];
        law_opposite(a.direction);
        if a.kind == KIND_FLAT {
            assert(u.value(Op32::Add(p0[1], p1[1])) == u.value(Op32::Add(p1[1], p0[1]))) by {
                reveal(sums_commute);
            }
        } else {
            let m = u.value(Op32::Div(dx, dy));
            let n = u.value(Op32::Div(ex, ey));
            assert(n.same(m)) by {
                reveal(quotients_mirror);
            }
            assert(u.value(Op32::Mul(n, n)) == u.value(Op32::Mul(m, m))) by {
                reveal(squares_agree);
            }
        }
        assert(b.param1 =~= a.param1);
    }
}

/// The number of units in one.
pub open spec fn one_in_units() -> int {
    pow2(149) as int
}

/// Both coordinates are finite.
pub open spec fn finite_point(p: [Real32; 2]) -> bool {
    p[0].is_finite() && p[1].is_finite()
}

/// The slanted line from `p0` to `p1` is calculated without rounding: its slope
/// leads from one end to the other, and its intercept is where the slope leads
/// from `p0` at height zero.
pub open spec fn exact_line<F: Fn(Op32) -> Real32>(
    u: &Fpu32<F>,
    p0: [Real32; 2],
    p1: [Real32; 2],
) -> bool {
    let slope = slanted_piece(u, p0, p1).param0[0];
    let intercept = slanted_piece(u, p0, p1).param0[1];
    &&& finite_point(p0) && finite_point(p1)
    &&& slope.is_finite() && intercept.is_finite()
    &&& slope.units() * (p1[1].units() - p0[1].units()) == (p1[0].units() - p0[0].units())
        * one_in_units()
    &&& (p0[0].units() - intercept.units()) * one_in_units() == slope.units() * p0[1].units()
}

/// Reversing a slanted line keeps its intercept too where nothing is rounded.
pub proof fn law_reversed_line_keeps_its_intercept<F: Fn(Op32) -> Real32>(
    u: &Fpu32<F>,
    p0: [Real32; 2],
    p1: [Real32; 2],
)
    requires
        lawful(u),
        exact_line(u, p0, p1),
        exact_line(u, p1, p0),
        line_pieces(u, p0, p1).len() > 0,
        line_pieces(u, p0, p1)[0].kind == KIND_LINE,
    ensures
        line_pieces(u, p1, p0)[0].param0[1].same(line_pieces(u, p0, p1)[0].param0[1]),
{
    law_reversed_line(u, p0, p1);
    let a = line_pieces(u, p0, p1)[0];
    let b = line_pieces(u, p1, p0)[0];
    assert(a == slanted_piece(u, p0, p1));
    assert(b == slanted_piece(u, p1, p0));
    law_units(a.param0[0], b.param0[0]);
    law_units(a.param0[1], b.param0[1]);
    lemma_pow2_pos(149);
    let s = a.param0[0].units();
    let one = one_in_units();
    let (x0, y0) = (p0[0].units(), p0[1].units());
    let (x1, y1) = (p1[0].units(), p1[1].units());
    let (i, j) = (a.param0[1].units(), b.param0[1].units());
    assert(i == j) by (nonlinear_arith)
        requires
            one > 0,
            s * (y1 - y0) == (x1 - x0) * one,
            (x0 - i) * one == s * y0,
            (x1 - j) * one == s * y1,
    ;
}

/// The curve piece is drawn as an arc.
pub open spec fn draws_arc<F: Fn(Op32) -> Real32>(
    u: &Fpu32<F>,
    p0: [Real32; 2],
    p1: [Real32; 2],
    p2: [Real32; 2],
) -> bool {
    arc_pieces(u, p0, p1, p2).len() == 1 && arc_pieces(u, p0, p1, p2)[0].kind == KIND_ARC
}

/// Reversing a curve piece that is drawn as an arc either way turns the arc's
/// direction round and keeps its end heights. This holds for finite heights.
pub proof fn law_reversed_arc<F: Fn(Op32) -> Real32>(
    u: &Fpu32<F>,
    p0: [Real32; 2],
    p1: [Real32; 2],
    p2: [Real32; 2],
)
    requires
        lawful(u),
        p0[1].is_finite(),
        p2[1].is_finite(),
        draws_arc(u, p0, p1, p2),
        draws_arc(u, p2, p1, p0),
    ensures
        ({
            let a = arc_pieces(u, p0, p1, p2)[0];
            let b = arc_pieces(u, p2, p1, p0)[0];
            &&& b.direction == a.direction.opposite()
            &&& b.param0[3] == a.param0[3]
            &&& b.param1[0] == a.param1[0]
        }),
{
    law_line_pieces(u, p0, p2);
    law_line_pieces(u, p2, p0);
    law_self_difference(u, p0[1]);
    assert(!u.sub(p0[1], p0[1]).is_nan()) by {
        reveal(differences_order);
    }
}

/// Twice the signed area of the triangle `a`, `b`, `c`, in square units.
pub open spec fn doubled_area(a: [Real32; 2], b: [Real32; 2], c: [Real32; 2]) -> int {
    (b[0].units() - a[0].units()) * (c[1].units() - a[1].units()) - (b[1].units() - a[1].units())
        * (c[0].units() - a[0].units())
}

/// The square of the distance from `a` to `b`, in square units.
pub open spec fn square_distance(a: [Real32; 2], b: [Real32; 2]) -> int {
    (a[0].units() - b[0].units()) * (a[0].units() - b[0].units()) + (a[1].units() - b[1].units())
        * (a[1].units() - b[1].units())
}

/// The circle of the curve piece `p0`, `p1`, `p2` is calculated without rounding:
/// the middle is that of the curve, the turn is that of three points not on one
/// line, the center is equally far from all three, and the radius squared is the
/// square of that distance.
pub open spec fn exact_circle<F: Fn(Op32) -> Real32>(
    u: &Fpu32<F>,
    p0: [Real32; 2],
    p1: [Real32; 2],
    p2: [Real32; 2],
) -> bool {
    let m = curve_middle(u, p0, p1, p2);
    let d = turn(u, p0, m, p2);
    let o = circle_center(u, p0, m, p2);
    let r2 = distance_squared(u, p0, o);
    &&& finite_point(p0) && finite_point(p1) && finite_point(p2)
    &&& finite_point(m) && finite_point(o) && d.is_finite() && r2.is_finite()
    &&& 4 * m[0].units() == p0[0].units() + 2 * p1[0].units() + p2[0].units()
    &&& 4 * m[1].units() == p0[1].units() + 2 * p1[1].units() + p2[1].units()
    &&& doubled_area(p0, m, p2) != 0
    &&& d.units() * one_in_units() == 2 * doubled_area(p0, m, p2)
    &&& square_distance(m, o) == square_distance(p0, o)
    &&& square_distance(p2, o) == square_distance(p0, o)
    &&& r2.units() * one_in_units() == square_distance(p0, o)
}

/// A square of a difference, multiplied out.
proof fn lemma_square(x: int, y: int)
    ensures
        (x - y) * (x - y) == x * x - 2 * (x * y) + y * y,
{
    assert((x - y) * (x - y) == x * x - 2 * (x * y) + y * y) by (nonlinear_arith);
}

/// A point as far from `b` as from `a` lies on the line between the two.
proof fn lemma_bisector(ax: int, ay: int, bx: int, by: int, ox: int, oy: int)
    requires
        (bx - ox) * (bx - ox) + (by - oy) * (by - oy) == (ax - ox) * (ax - ox) + (ay - oy) * (ay
            - oy),
    ensures
        2 * ((bx - ax) * ox + (by - ay) * oy) == bx * bx + by * by - ax * ax - ay * ay,
{
    lemma_square(bx, ox);
    lemma_square(by, oy);
    lemma_square(ax, ox);
    lemma_square(ay, oy);
    assert((bx - ax) * ox == bx * ox - ax * ox) by (nonlinear_arith);
    assert((by - ay) * oy == by * oy - ay * oy) by (nonlinear_arith);
}

/// Two linear equations with a determinant other than zero have one solution.
proof fn lemma_one_solution(e: int, f: int, g: int, h: int, x: int, y: int, v: int, w: int)
    requires
        e * x + f * y == e * v + f * w,
        g * x + h * y == g * v + h * w,
        e * h - f * g != 0,
    ensures
        x == v,
        y == w,
{
    let dx = x - v;
    let dy = y - w;
    assert(e * dx + f * dy == 0) by (nonlinear_arith)
        requires
            e * x + f * y == e * v + f * w,
            dx == x - v,
            dy == y - w,
    ;
    assert(g * dx + h * dy == 0) by (nonlinear_arith)
        requires
            g * x + h * y == g * v + h * w,
            dx == x - v,
            dy == y - w,
    ;
    let d = e * h - f * g;
    assert(d * dx == h * (e * dx + f * dy) - f * (g * dx + h * dy)) by (nonlinear_arith)
        requires
            d == e * h - f * g,
    ;
    assert(d * dy == e * (g * dx + h * dy) - g * (e * dx + f * dy)) by (nonlinear_arith)
        requires
            d == e * h - f * g,
    ;
    assert(h * (e * dx + f * dy) == 0 && f * (g * dx + h * dy) == 0) by (nonlinear_arith)
        requires
            e * dx + f * dy == 0,
            g * dx + h * dy == 0,
    ;
    assert(e * (g * dx + h * dy) == 0 && g * (e * dx + f * dy) == 0) by (nonlinear_arith)
        requires
            e * dx + f * dy == 0,
            g * dx + h * dy == 0,
    ;
    assert(dx == 0) by (nonlinear_arith)
        requires
            d != 0,
            d * dx == 0,
    ;
    assert(dy == 0) by (nonlinear_arith)
        requires
            d != 0,
            d * dy == 0,
    ;
}

/// Three points that are not on one line lie on one circle only, and it has a
/// radius.
proof fn lemma_one_circle(
    a: [Real32; 2],
    b: [Real32; 2],
    c: [Real32; 2],
    o: [Real32; 2],
    q: [Real32; 2],
)
    requires
        doubled_area(a, b, c) != 0,
        square_distance(b, o) == square_distance(a, o),
        square_distance(c, o) == square_distance(a, o),
        square_distance(b, q) == square_distance(a, q),
        square_distance(c, q) == square_distance(a, q),
    ensures
        o[0].units() == q[0].units(),
        o[1].units() == q[1].units(),
        square_distance(a, o) != 0,
{
    let (ax, ay) = (a[0].units(), a[1].units());
    let (bx, by) = (b[0].units(), b[1].units());
    let (cx, cy) = (c[0].units(), c[1].units());
    let (ox, oy) = (o[0].units(), o[1].units());
    let (qx, qy) = (q[0].units(), q[1].units());
    lemma_bisector(ax, ay, bx, by, ox, oy);
    lemma_bisector(ax, ay, cx, cy, ox, oy);
    lemma_bisector(ax, ay, bx, by, qx, qy);
    lemma_bisector(ax, ay, cx, cy, qx, qy);
    lemma_one_solution(bx - ax, by - ay, cx - ax, cy - ay, ox, oy, qx, qy);
    if square_distance(a, o) == 0 {
        lemma_no_distance(ax, ay, ox, oy);
        lemma_no_distance(bx, by, ox, oy);
        lemma_no_distance(cx, cy, ox, oy);
        assert(false);
    }
}

/// Points without a distance are one point.
proof fn lemma_no_distance(ax: int, ay: int, ox: int, oy: int)
    requires
        (ax - ox) * (ax - ox) + (ay - oy) * (ay - oy) == 0,
    ensures
        ax == ox,
        ay == oy,
{
    let dx = ax - ox;
    let dy = ay - oy;
    assert(dx * dx >= 0) by (nonlinear_arith);
    assert(dy * dy >= 0) by (nonlinear_arith);
    assert(dx == 0) by (nonlinear_arith)
        requires
            dx * dx == 0,
    ;
    assert(dy == 0) by (nonlinear_arith)
        requires
            dy * dy == 0,
    ;
}

/// From the other end, a triangle has the opposite area.
proof fn lemma_opposite_area(a: [Real32; 2], b: [Real32; 2], c: [Real32; 2])
    ensures
        doubled_area(c, b, a) == -doubled_area(a, b, c),
{
    let (ax, ay) = (a[0].units(), a[1].units());
    let (bx, by) = (b[0].units(), b[1].units());
    let (cx, cy) = (c[0].units(), c[1].units());
    assert((bx - cx) * (ay - cy) - (by - cy) * (ax - cx) == -((bx - ax) * (cy - ay) - (by - ay) * (
    cx - ax))) by (nonlinear_arith);
}

/// The opposite of a finite value has the opposite units.
proof fn lemma_opposite_units(d: Real32, e: Real32)
    requires
        d.is_finite(),
        e.is_finite(),
        e.units() == -d.units(),
    ensures
        e.abs() == d.abs(),
{
    law_opposite(d);
    law_units(e, d.opposite());
}

/// Turns of opposite areas are equally large.
proof fn lemma_opposite_turns(d: Real32, e: Real32, area: int)
    requires
        d.is_finite(),
        e.is_finite(),
        d.units() * one_in_units() == 2 * area,
        e.units() * one_in_units() == -2 * area,
    ensures
        e.abs() == d.abs(),
{
    let one = one_in_units();
    lemma_pow2_pos(149);
    let (du, eu) = (d.units(), e.units());
    assert(eu == -du) by (nonlinear_arith)
        requires
            one > 0,
            eu * one == -(du * one),
    ;
    lemma_opposite_units(d, e);
}

/// The same square distance other than zero gives the same radius squared.
proof fn lemma_same_radius(r: Real32, s: Real32, distance: int)
    requires
        r.is_finite(),
        s.is_finite(),
        distance != 0,
        r.units() * one_in_units() == distance,
        s.units() * one_in_units() == distance,
    ensures
        s == r,
{
    let one = one_in_units();
    lemma_pow2_pos(149);
    let (ru, su) = (r.units(), s.units());
    assert(ru == su && ru != 0) by (nonlinear_arith)
        requires
            one > 0,
            ru * one == su * one,
            ru * one != 0,
    ;
    law_units(r, s);
}

/// Where nothing is rounded either way, a reversed curve piece has the same
/// middle, the opposite turn, and the same circle.
proof fn lemma_reversed_circle<F: Fn(Op32) -> Real32>(
    u: &Fpu32<F>,
    p0: [Real32; 2],
    p1: [Real32; 2],
    p2: [Real32; 2],
)
    requires
        exact_circle(u, p0, p1, p2),
        exact_circle(u, p2, p1, p0),
    ensures
        ({
            let m = curve_middle(u, p0, p1, p2);
            let n = curve_middle(u, p2, p1, p0);
            let o = circle_center(u, p0, m, p2);
            let q = circle_center(u, p2, n, p0);
            &&& n[0].same(m[0]) && n[1].same(m[1])
            &&& turn(u, p2, n, p0).abs() == turn(u, p0, m, p2).abs()
            &&& q[0].same(o[0]) && q[1].same(o[1])
            &&& distance_squared(u, p2, q) == distance_squared(u, p0, o)
        }),
{
    let m = curve_middle(u, p0, p1, p2);
    let n = curve_middle(u, p2, p1, p0);
    law_units(m[0], n[0]);
    law_units(m[1], n[1]);
    lemma_opposite_area(p0, m, p2);
    let area = doubled_area(p0, m, p2);
    assert(doubled_area(p2, n, p0) == -area);
    lemma_opposite_turns(turn(u, p0, m, p2), turn(u, p2, n, p0), area);
    let o = circle_center(u, p0, m, p2);
    let q = circle_center(u, p2, n, p0);
    assert(square_distance(n, q) == square_distance(m, q));
    lemma_one_circle(p0, m, p2, o, q);
    law_units(o[0], q[0]);
    law_units(o[1], q[1]);
    let distance = square_distance(p0, o);
    assert(square_distance(p2, q) == distance);
    lemma_same_radius(distance_squared(u, p0, o), distance_squared(u, p2, q), distance);
}

/// The height of a curve piece is below a limit above zero whichever end is the
/// first.
proof fn lemma_reversed_height<F: Fn(Op32) -> Real32>(
    u: &Fpu32<F>,
    a: Real32,
    b: Real32,
    limit: Real32,
)
    requires
        lawful(u),
        a.is_finite(),
        b.is_finite(),
        limit.key() > 0,
    ensures
        u.sub(b.max(a), b.min(a)).lt(limit) == u.sub(a.max(b), a.min(b)).lt(limit),
{
    if a.same(b) {
        law_zero_difference(u, b.max(a), b.min(a));
        law_zero_difference(u, a.max(b), a.min(b));
    }
}

/// Where nothing is rounded either way, a reversed curve piece is drawn as an arc
/// exactly where the piece is. Its direction turns round, and all else stays:
/// center, radius squared, side, end heights and `x_max`.
pub proof fn law_reversed_arc_keeps_its_circle<F: Fn(Op32) -> Real32>(
    u: &Fpu32<F>,
    p0: [Real32; 2],
    p1: [Real32; 2],
    p2: [Real32; 2],
)
    requires
        lawful(u),
        exact_circle(u, p0, p1, p2),
        exact_circle(u, p2, p1, p0),
    ensures
        draws_arc(u, p2, p1, p0) == draws_arc(u, p0, p1, p2),
        draws_arc(u, p0, p1, p2) ==> {
            let a = arc_pieces(u, p0, p1, p2)[0];
            let b = arc_pieces(u, p2, p1, p0)[0];
            &&& b.kind == a.kind
            &&& b.direction == a.direction.opposite()
            &&& b.sign == a.sign
            &&& b.x_max.same(a.x_max)
            &&& b.param0[0].same(a.param0[0])
            &&& b.param0[1].same(a.param0[1])
            &&& b.param0[2] == a.param0[2]
            &&& b.param0[3] == a.param0[3]
            &&& b.param1 == a.param1
        },
{
    law_line_pieces(u, p0, p2);
    law_line_pieces(u, p2, p0);
    lemma_reversed_circle(u, p0, p1, p2);
    lemma_reversed_height(u, p0[1], p2[1], lit(HALF));
    if draws_arc(u, p0, p1, p2) {
        law_reversed_arc(u, p0, p1, p2);
        let m = curve_middle(u, p0, p1, p2);
        let n = curve_middle(u, p2, p1, p0);
        let a = arc_pieces(u, p0, p1, p2)[0];
        let b = arc_pieces(u, p2, p1, p0)[0];
        assert(a == arc_piece(u, p0, m, p2, circle_center(u, p0, m, p2)));
        assert(b == arc_piece(u, p2, n, p0, circle_center(u, p2, n, p0)));
        let r = u.sqrt(a.param0[2]);
        assert(u.add(b.param0[0], r).same(u.add(a.param0[0], r))) by {
            reveal(sums_agree);
        }
        assert(b.param1 =~= a.param1);
    }
}

} // verus!
