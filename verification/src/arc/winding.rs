//! How often the pieces of a whole contour cross a height.
use crate::arc::contour::{
    behind, contour_pieces, pieces_from, placed, proper_contour, stride, Point, PointType,
};
use crate::arc::segment::{
    between, crossing, crossings, extremum, law_line_pieces, law_quad_winding, lemma_crossings_add,
    line_pieces, quad_pieces, shows_crossing, turns_back, winding, KIND_LINE,
};
use crate::arith::{differences_order, lawful};
use crate::fpu::{Fpu32, Op32};
use crate::literal::{MINUS_ONE, ONE, ZERO};
use crate::number::{lit, Real32};
use vstd::prelude::*;

verus! {

/// The line from `p0` to `p1` is not lost at height `y`: it is drawn slanted, or does
/// not cross `y`.
pub open spec fn line_shows<F: Fn(Op32) -> Real32>(
    u: &Fpu32<F>,
    p0: [Real32; 2],
    p1: [Real32; 2],
    y: Real32,
) -> bool {
    let pieces = line_pieces(u, p0, p1);
    winding(p0[1], p1[1], y) == 0 || (pieces.len() == 1 && pieces[0].kind == KIND_LINE)
}

/// A line that is not lost at height `y` crosses it as the path between its ends does.
/// This holds for finite heights.
pub proof fn law_line_winding<F: Fn(Op32) -> Real32>(
    u: &Fpu32<F>,
    p0: [Real32; 2],
    p1: [Real32; 2],
    y: Real32,
)
    requires
        lawful(u),
        p0[1].is_finite(),
        p1[1].is_finite(),
        line_shows(u, p0, p1, y),
    ensures
        crossings(line_pieces(u, p0, p1), y) == winding(p0[1], p1[1], y),
{
    let pieces = line_pieces(u, p0, p1);
    law_line_pieces(u, p0, p1);
    assert(lit(ONE) != lit(MINUS_ONE));
    assert({
        let dy = u.value(Op32::Sub(p1[1], p0[1]));
        lit(ZERO).lt(dy) == p0[1].lt(p1[1])
    }) by {
        reveal(differences_order);
    }
    if pieces.len() == 1 {
        assert(pieces.drop_last() =~= Seq::empty());
        assert(crossings(pieces, y) == crossings(pieces.drop_last(), y) + crossing(pieces[0], y));
    }
}

/// No part of the curve is lost at height `y`, and the height at which it is split, if
/// it is, is finite.
pub open spec fn quad_shows<F: Fn(Op32) -> Real32>(
    u: &Fpu32<F>,
    p0: [Real32; 2],
    p1: [Real32; 2],
    p2: [Real32; 2],
    y: Real32,
) -> bool {
    let t = extremum(u, p0, p1, p2);
    let q0 = between(u, p0, p1, t);
    let q1 = between(u, p1, p2, t);
    let m = between(u, q0, q1, t);
    if turns_back(u, p0, p1, p2) {
        m[1].is_finite() && shows_crossing(u, p0, q0, m, y) && shows_crossing(u, m, q1, p2, y)
    } else {
        shows_crossing(u, p0, p1, p2, y)
    }
}

/// The line or curve that starts at point `i` is not lost at height `y`.
pub open spec fn part_shows<F: Fn(Op32) -> Real32>(
    u: &Fpu32<F>,
    c: Seq<Point>,
    scale_em: Real32,
    descender: Real32,
    i: int,
    y: Real32,
) -> bool {
    let n = c.len() as int;
    let here = placed(u, c[i], scale_em, descender);
    let next = placed(u, c[(i + 1) % n], scale_em, descender);
    let last = placed(u, c[(i + 2) % n], scale_em, descender);
    if c[(i + 1) % n].p_type == PointType::Control {
        quad_shows(u, here, next, last, y)
    } else {
        line_shows(u, here, next, y)
    }
}

proof fn lemma_next(i: int, n: int)
    requires
        0 < n,
        0 <= i <= n,
    ensures
        i < n ==> i % n == i,
        i == n ==> i % n == 0,
{
    if i < n {
        vstd::arithmetic::div_mod::lemma_small_mod(i as nat, n as nat);
    } else {
        vstd::arithmetic::div_mod::lemma_mod_self_0(n);
    }
}

/// From point `i` on, the pieces cross `y` as the path from there to the first point.
proof fn lemma_rest<F: Fn(Op32) -> Real32>(
    u: &Fpu32<F>,
    c: Seq<Point>,
    scale_em: Real32,
    descender: Real32,
    i: int,
    y: Real32,
)
    requires
        lawful(u),
        proper_contour(c),
        c.len() >= 2,
        0 <= i < c.len(),
        c[i].p_type == PointType::OnCurve,
        forall|k: int|
            0 <= k < c.len() ==> (#[trigger] placed(u, c[k], scale_em, descender))[1].is_finite(),
        forall|k: int|
            0 <= k < c.len() && c[k].p_type == PointType::OnCurve ==> #[trigger] part_shows(
                u,
                c,
                scale_em,
                descender,
                k,
                y,
            ),
    ensures
        crossings(pieces_from(u, c, scale_em, descender, i), y) == winding(
            placed(u, c[i], scale_em, descender)[1],
            placed(u, c[0], scale_em, descender)[1],
            y,
        ),
    decreases c.len() - i,
{
    let n = c.len() as int;
    let j = behind(i, n);
    lemma_next(i + 1, n);
    assert(j == (i + 1) % n);
    assert(part_shows(u, c, scale_em, descender, i, y));
    let here = placed(u, c[i], scale_em, descender);
    let next = placed(u, c[j], scale_em, descender);
    let first = placed(u, c[0], scale_em, descender);
    let k = i + stride(c, i);
    let rest = pieces_from(u, c, scale_em, descender, k);
    if c[j].p_type == PointType::Control {
        assert(i + 2 < n);
        assert(c[i + 1].p_type == PointType::Control);
        assert(c[i + 2].p_type == PointType::OnCurve) by {
            let (a, b) = (c[i + 1], c[i + 2]);
        }
        lemma_next(i + 2, n);
        assert(behind(j, n) == i + 2 && (i + 2) % n == i + 2);
        let last = placed(u, c[i + 2], scale_em, descender);
        law_quad_winding(u, here, next, last, y);
        lemma_crossings_add(quad_pieces(u, here, next, last), rest, y);
        lemma_rest(u, c, scale_em, descender, i + 2, y);
    } else {
        law_line_winding(u, here, next, y);
        lemma_crossings_add(line_pieces(u, here, next), rest, y);
        if i + 1 < n {
            lemma_rest(u, c, scale_em, descender, i + 1, y);
        } else {
            assert(rest =~= Seq::empty());
        }
    }
}

/// A contour is closed: at every height at which none of its parts is lost, its pieces
/// go up as often as down. This holds for contours that begin and end on the curve,
/// with no two control points next to each other, and finite heights.
pub proof fn law_contour_winds_round<F: Fn(Op32) -> Real32>(
    u: &Fpu32<F>,
    c: Seq<Point>,
    scale_em: Real32,
    descender: Real32,
    y: Real32,
)
    requires
        lawful(u),
        proper_contour(c),
        forall|k: int|
            0 <= k < c.len() ==> (#[trigger] placed(u, c[k], scale_em, descender))[1].is_finite(),
        forall|k: int|
            0 <= k < c.len() && c[k].p_type == PointType::OnCurve ==> #[trigger] part_shows(
                u,
                c,
                scale_em,
                descender,
                k,
                y,
            ),
    ensures
        crossings(contour_pieces(u, c, scale_em, descender), y) == 0,
{
    if c.len() >= 2 {
        lemma_rest(u, c, scale_em, descender, 0, y);
    }
}

} // verus!
