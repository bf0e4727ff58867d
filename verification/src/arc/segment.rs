//! Turning outline curves into lines and circular arcs.
use crate::arith::{differences_order, law_zero_difference, lawful};
use crate::fpu::{Fpu32, Op32};
use crate::literal::{HALF, MINUS_ONE, ONE, ONE_TWENTIETH, QUARTER, TWO, ZERO};
use crate::number::{lit, Real32};
use vstd::prelude::*;

verus! {

/// A piece that is neither horizontal nor curved.
pub const KIND_LINE: u32 = 0;

/// A circular arc.
pub const KIND_ARC: u32 = 1;

/// A (nearly) horizontal piece.
pub const KIND_FLAT: u32 = 2;

/// 0.2: a piece smaller than this both ways is dropped.
pub const MIN_EXTENT: u32 = 0x3e4c_cccd;

/// 0.00001: below this the tangent speeds count as equal.
pub const MIN_SPEED_CHANGE: u32 = 0x3727_c5ac;

/// 0.95: no curve is split behind this parameter.
pub const LAST_SPLIT: u32 = 0x3f73_3333;

/// 0.001: three points that turn less than this count as collinear.
pub const MIN_TURN: u32 = 0x3a83_126f;

/// 4000.0: a wider arc is drawn as a line.
pub const MAX_RADIUS: u32 = 0x457a_0000;

/// 0.01: a narrower arc is drawn as a line.
pub const MIN_RADIUS: u32 = 0x3c23_d70a;

/// One piece of a glyph's outline, as the fragment shader reads it.
///
/// - A line holds `[slope, intercept, y_min, y_max]` and
///   `[1 / length of (1, slope), 0, 0, 0]`: at height `y` it lies at
///   `slope * y + intercept`.
/// - An arc holds `[center_x, center_y, radius squared, y_min]` and
///   `[y_max, 1 / radius, 0, 0]`; `sign` tells the right half of the circle
///   (1) from the left half (-1).
/// - A flat piece holds `[0, y, x_min, x_max]`.
///
/// `direction` is 1 for an upward piece, -1 for a downward one and 0 for a flat
/// one.
#[derive(Copy, Clone)]
pub struct GpuSegment {
    pub kind: u32,
    pub sign: Real32,
    pub direction: Real32,
    pub x_max: Real32,
    pub param0: [Real32; 4],
    pub param1: [Real32; 4],
}

/// The flat piece from `p0` to `p1`, at the mean of their heights.
pub open spec fn flat_piece<F: Fn(Op32) -> Real32>(
    u: &Fpu32<F>,
    p0: [Real32; 2],
    p1: [Real32; 2],
) -> GpuSegment {
    let y = u.mul(u.add(p0[1], p1[1]), lit(HALF));
    let x_min = p0[0].min(p1[0]);
    let x_max = p0[0].max(p1[0]);
    GpuSegment {
        kind: KIND_FLAT,
        sign: lit(ZERO),
        direction: lit(ZERO),
        x_max,
        param0: [lit(ZERO), y, x_min, x_max],
        param1: [lit(ZERO), lit(ZERO), lit(ZERO), lit(ZERO)],
    }
}

/// The slanted piece from `p0` to `p1`.
pub open spec fn slanted_piece<F: Fn(Op32) -> Real32>(
    u: &Fpu32<F>,
    p0: [Real32; 2],
    p1: [Real32; 2],
) -> GpuSegment {
    let dy = u.sub(p1[1], p0[1]);
    let slope = u.div(u.sub(p1[0], p0[0]), dy);
    let intercept = u.sub(p0[0], u.mul(slope, p0[1]));
    let nx = u.div(lit(ONE), u.sqrt(u.add(lit(ONE), u.mul(slope, slope))));
    GpuSegment {
        kind: KIND_LINE,
        sign: lit(ZERO),
        direction: if lit(ZERO).lt(dy) {
            lit(ONE)
        } else {
            lit(MINUS_ONE)
        },
        x_max: p0[0].max(p1[0]),
        param0: [slope, intercept, p0[1].min(p1[1]), p0[1].max(p1[1])],
        param1: [nx, lit(ZERO), lit(ZERO), lit(ZERO)],
    }
}

/// What the line from `p0` to `p1` is drawn as: nothing where it is tiny, a
/// flat piece where it rises by less than one unit, else a slanted piece.
pub open spec fn line_pieces<F: Fn(Op32) -> Real32>(
    u: &Fpu32<F>,
    p0: [Real32; 2],
    p1: [Real32; 2],
) -> Seq<GpuSegment> {
    let dx = u.sub(p1[0], p0[0]);
    let dy = u.sub(p1[1], p0[1]);
    if dx.abs().lt(lit(MIN_EXTENT)) && dy.abs().lt(lit(MIN_EXTENT)) {
        seq![]
    } else if dy.abs().lt(lit(ONE)) {
        seq![flat_piece(u, p0, p1)]
    } else {
        seq![slanted_piece(u, p0, p1)]
    }
}

/// Appends the line from `p0` to `p1`.
pub fn push_line_segment<F: Fn(Op32) -> Real32>(
    u: &Fpu32<F>,
    p0: [Real32; 2],
    p1: [Real32; 2],
    segments: &mut Vec<GpuSegment>,
)
    ensures
        final(segments)@ == old(segments)@ + line_pieces(u, p0, p1),
{
    let zero = lit(ZERO);
    let dx = u.sub(p1[0], p0[0]);
    let dy = u.sub(p1[1], p0[1]);

    if dx.abs().lt(lit(MIN_EXTENT)) && dy.abs().lt(lit(MIN_EXTENT)) {
        return;
    }
    if dy.abs().lt(lit(ONE)) {
        let x_min = p0[0].min(p1[0]);
        let x_max = p0[0].max(p1[0]);
        let y = u.mul(u.add(p0[1], p1[1]), lit(HALF));
        segments.push(
            GpuSegment {
                kind: KIND_FLAT,
                sign: zero,
                direction: zero,
                x_max,
                param0: [zero, y, x_min, x_max],
                param1: [zero, zero, zero, zero],
            },
        );
        return;
    }
    let slope = u.div(dx, dy);
    let intercept = u.sub(p0[0], u.mul(slope, p0[1]));
    let x_max = p0[0].max(p1[0]);
    let nx = u.div(lit(ONE), u.sqrt(u.add(lit(ONE), u.mul(slope, slope))));
    let direction = if zero.lt(dy) {
        lit(ONE)
    } else {
        lit(MINUS_ONE)
    };
    segments.push(
        GpuSegment {
            kind: KIND_LINE,
            sign: zero,
            direction,
            x_max,
            param0: [slope, intercept, p0[1].min(p1[1]), p0[1].max(p1[1])],
            param1: [nx, zero, zero, zero],
        },
    );
}

/// The point of the quadratic curve `p0`, `p1`, `p2` at parameter one half.
pub open spec fn curve_middle<F: Fn(Op32) -> Real32>(
    u: &Fpu32<F>,
    p0: [Real32; 2],
    p1: [Real32; 2],
    p2: [Real32; 2],
) -> [Real32; 2] {
    [
        u.add(
            u.add(u.mul(lit(QUARTER), p0[0]), u.mul(lit(HALF), p1[0])),
            u.mul(lit(QUARTER), p2[0]),
        ),
        u.add(
            u.add(u.mul(lit(QUARTER), p0[1]), u.mul(lit(HALF), p1[1])),
            u.mul(lit(QUARTER), p2[1]),
        ),
    ]
}

/// Four times the signed area of the triangle `a`, `b`, `c`.
pub open spec fn turn<F: Fn(Op32) -> Real32>(
    u: &Fpu32<F>,
    a: [Real32; 2],
    b: [Real32; 2],
    c: [Real32; 2],
) -> Real32 {
    u.mul(
        lit(TWO),
        u.add(
            u.add(u.mul(a[0], u.sub(b[1], c[1])), u.mul(b[0], u.sub(c[1], a[1]))),
            u.mul(c[0], u.sub(a[1], b[1])),
        ),
    )
}

/// The square of the distance of `a` from the origin.
pub open spec fn norm_squared<F: Fn(Op32) -> Real32>(u: &Fpu32<F>, a: [Real32; 2]) -> Real32 {
    u.add(u.mul(a[0], a[0]), u.mul(a[1], a[1]))
}

/// The center of the circle through `a`, `b` and `c`.
pub open spec fn circle_center<F: Fn(Op32) -> Real32>(
    u: &Fpu32<F>,
    a: [Real32; 2],
    b: [Real32; 2],
    c: [Real32; 2],
) -> [Real32; 2] {
    let sa = norm_squared(u, a);
    let sb = norm_squared(u, b);
    let sc = norm_squared(u, c);
    let d = turn(u, a, b, c);
    [
        u.div(
            u.add(
                u.add(u.mul(sa, u.sub(b[1], c[1])), u.mul(sb, u.sub(c[1], a[1]))),
                u.mul(sc, u.sub(a[1], b[1])),
            ),
            d,
        ),
        u.div(
            u.add(
                u.add(u.mul(sa, u.sub(c[0], b[0])), u.mul(sb, u.sub(a[0], c[0]))),
                u.mul(sc, u.sub(b[0], a[0])),
            ),
            d,
        ),
    ]
}

/// The square of the distance from `a` to `c`.
pub open spec fn distance_squared<F: Fn(Op32) -> Real32>(
    u: &Fpu32<F>,
    a: [Real32; 2],
    c: [Real32; 2],
) -> Real32 {
    u.add(
        u.mul(u.sub(a[0], c[0]), u.sub(a[0], c[0])),
        u.mul(u.sub(a[1], c[1]), u.sub(a[1], c[1])),
    )
}

/// The arc from `p0` to `p2` of the circle around `center` that runs on the
/// side of the curve's middle `m`.
pub open spec fn arc_piece<F: Fn(Op32) -> Real32>(
    u: &Fpu32<F>,
    p0: [Real32; 2],
    m: [Real32; 2],
    p2: [Real32; 2],
    center: [Real32; 2],
) -> GpuSegment {
    let r2 = distance_squared(u, p0, center);
    let r = u.sqrt(r2);
    let y_min = p0[1].min(p2[1]);
    let y_max = p0[1].max(p2[1]);
    let right = center[0].le(m[0]);
    GpuSegment {
        kind: KIND_ARC,
        sign: if right {
            lit(ONE)
        } else {
            lit(MINUS_ONE)
        },
        direction: if p0[1].le(p2[1]) {
            lit(ONE)
        } else {
            lit(MINUS_ONE)
        },
        x_max: if right && y_min.le(center[1]) && center[1].le(y_max) {
            u.add(center[0], r)
        } else {
            p0[0].max(p2[0]).max(m[0])
        },
        param0: [center[0], center[1], r2, y_min],
        param1: [y_max, u.div(lit(ONE), r), lit(ZERO), lit(ZERO)],
    }
}

/// A circle of this radius is drawn as an arc.
pub open spec fn radius_in_range(r: Real32) -> bool {
    !lit(MAX_RADIUS).lt(r) && !r.lt(lit(MIN_RADIUS))
}

/// What a curve piece that rises or falls all along is drawn as: one arc, or
/// the line from end to end where its three points are collinear, its circle
/// is too wide or too narrow, or it is less than half a unit high.
pub open spec fn arc_pieces<F: Fn(Op32) -> Real32>(
    u: &Fpu32<F>,
    p0: [Real32; 2],
    p1: [Real32; 2],
    p2: [Real32; 2],
) -> Seq<GpuSegment> {
    let m = curve_middle(u, p0, p1, p2);
    let center = circle_center(u, p0, m, p2);
    let height = u.sub(p0[1].max(p2[1]), p0[1].min(p2[1]));
    if turn(u, p0, m, p2).abs().lt(lit(MIN_TURN)) || !radius_in_range(
        u.sqrt(distance_squared(u, p0, center)),
    ) || height.lt(lit(HALF)) {
        line_pieces(u, p0, p2)
    } else {
        seq![arc_piece(u, p0, m, p2, center)]
    }
}

/// Appends the curve piece `p0`, `p1`, `p2` as one arc or one line.
pub fn fit_arc_segment<F: Fn(Op32) -> Real32>(
    u: &Fpu32<F>,
    p0: [Real32; 2],
    p1: [Real32; 2],
    p2: [Real32; 2],
    segments: &mut Vec<GpuSegment>,
)
    ensures
        final(segments)@ == old(segments)@ + arc_pieces(u, p0, p1, p2),
{
    let zero = lit(ZERO);
    let quarter = lit(QUARTER);
    let half = lit(HALF);
    let pm: [Real32; 2] = [
        u.add(u.add(u.mul(quarter, p0[0]), u.mul(half, p1[0])), u.mul(quarter, p2[0])),
        u.add(u.add(u.mul(quarter, p0[1]), u.mul(half, p1[1])), u.mul(quarter, p2[1])),
    ];

    let (ax, ay) = (p0[0], p0[1]);
    let (bx, by) = (pm[0], pm[1]);
    let (cx, cy) = (p2[0], p2[1]);

    let d = u.mul(
        lit(TWO),
        u.add(
            u.add(u.mul(ax, u.sub(by, cy)), u.mul(bx, u.sub(cy, ay))),
            u.mul(cx, u.sub(ay, by)),
        ),
    );
    if d.abs().lt(lit(MIN_TURN)) {
        push_line_segment(u, p0, p2, segments);
        return;
    }
    let sq_a = u.add(u.mul(ax, ax), u.mul(ay, ay));
    let sq_b = u.add(u.mul(bx, bx), u.mul(by, by));
    let sq_c = u.add(u.mul(cx, cx), u.mul(cy, cy));

    let center_x = u.div(
        u.add(
            u.add(u.mul(sq_a, u.sub(by, cy)), u.mul(sq_b, u.sub(cy, ay))),
            u.mul(sq_c, u.sub(ay, by)),
        ),
        d,
    );
    let center_y = u.div(
        u.add(
            u.add(u.mul(sq_a, u.sub(cx, bx)), u.mul(sq_b, u.sub(ax, cx))),
            u.mul(sq_c, u.sub(bx, ax)),
        ),
        d,
    );

    let r2 = u.add(
        u.mul(u.sub(ax, center_x), u.sub(ax, center_x)),
        u.mul(u.sub(ay, center_y), u.sub(ay, center_y)),
    );
    let r = u.sqrt(r2);

    if lit(MAX_RADIUS).lt(r) || r.lt(lit(MIN_RADIUS)) {
        push_line_segment(u, p0, p2, segments);
        return;
    }
    let y_min = p0[1].min(p2[1]);
    let y_max = p0[1].max(p2[1]);
    if u.sub(y_max, y_min).lt(half) {
        push_line_segment(u, p0, p2, segments);
        return;
    }
    let direction = if p0[1].le(p2[1]) {
        lit(ONE)
    } else {
        lit(MINUS_ONE)
    };
    let right = center_x.le(pm[0]);
    let sign = if right {
        lit(ONE)
    } else {
        lit(MINUS_ONE)
    };
    let x_max = if right && y_min.le(center_y) && center_y.le(y_max) {
        u.add(center_x, r)
    } else {
        p0[0].max(p2[0]).max(pm[0])
    };

    segments.push(
        GpuSegment {
            kind: KIND_ARC,
            sign,
            direction,
            x_max,
            param0: [center_x, center_y, r2, y_min],
            param1: [y_max, u.div(lit(ONE), r), zero, zero],
        },
    );
}

/// The point between `a` and `b` at parameter `t`.
pub open spec fn between<F: Fn(Op32) -> Real32>(
    u: &Fpu32<F>,
    a: [Real32; 2],
    b: [Real32; 2],
    t: Real32,
) -> [Real32; 2] {
    [
        u.add(a[0], u.mul(u.sub(b[0], a[0]), t)),
        u.add(a[1], u.mul(u.sub(b[1], a[1]), t)),
    ]
}

/// The parameter of the curve's highest or lowest point, brought into 0 to 1.
pub open spec fn extremum<F: Fn(Op32) -> Real32>(
    u: &Fpu32<F>,
    p0: [Real32; 2],
    p1: [Real32; 2],
    p2: [Real32; 2],
) -> Real32 {
    let d0 = u.sub(p1[1], p0[1]);
    let d1 = u.sub(p2[1], p1[1]);
    u.div(d0, u.sub(d0, d1)).clamp(lit(ZERO), lit(ONE))
}

/// The curve turns from rising to falling, or back, well inside its range.
pub open spec fn turns_back<F: Fn(Op32) -> Real32>(
    u: &Fpu32<F>,
    p0: [Real32; 2],
    p1: [Real32; 2],
    p2: [Real32; 2],
) -> bool {
    let d0 = u.sub(p1[1], p0[1]);
    let d1 = u.sub(p2[1], p1[1]);
    let t = extremum(u, p0, p1, p2);
    &&& u.mul(d0, d1).lt(lit(ZERO))
    &&& lit(MIN_SPEED_CHANGE).lt(u.sub(d0, d1).abs())
    &&& lit(ONE_TWENTIETH).lt(t)
    &&& t.lt(lit(LAST_SPLIT))
}

/// What the quadratic curve `p0`, `p1`, `p2` is drawn as: where it turns back it
/// is split at its extremum, and each half is drawn by itself.
pub open spec fn quad_pieces<F: Fn(Op32) -> Real32>(
    u: &Fpu32<F>,
    p0: [Real32; 2],
    p1: [Real32; 2],
    p2: [Real32; 2],
) -> Seq<GpuSegment> {
    if turns_back(u, p0, p1, p2) {
        let t = extremum(u, p0, p1, p2);
        let q0 = between(u, p0, p1, t);
        let q1 = between(u, p1, p2, t);
        let m = between(u, q0, q1, t);
        arc_pieces(u, p0, q0, m) + arc_pieces(u, m, q1, p2)
    } else {
        arc_pieces(u, p0, p1, p2)
    }
}

/// Appends the quadratic curve `p0`, `p1`, `p2`.
pub fn process_quad_bezier<F: Fn(Op32) -> Real32>(
    u: &Fpu32<F>,
    p0: [Real32; 2],
    p1: [Real32; 2],
    p2: [Real32; 2],
    segments: &mut Vec<GpuSegment>,
)
    ensures
        final(segments)@ == old(segments)@ + quad_pieces(u, p0, p1, p2),
{
    let d0 = u.sub(p1[1], p0[1]);
    let d1 = u.sub(p2[1], p1[1]);

    if u.mul(d0, d1).lt(lit(ZERO)) {
        let denom = u.sub(d0, d1);
        if lit(MIN_SPEED_CHANGE).lt(denom.abs()) {
            let t = u.div(d0, denom).clamp(lit(ZERO), lit(ONE));
            if lit(ONE_TWENTIETH).lt(t) && t.lt(lit(LAST_SPLIT)) {
                let q0: [Real32; 2] = [
                    u.add(p0[0], u.mul(u.sub(p1[0], p0[0]), t)),
                    u.add(p0[1], u.mul(u.sub(p1[1], p0[1]), t)),
                ];
                let q1: [Real32; 2] = [
                    u.add(p1[0], u.mul(u.sub(p2[0], p1[0]), t)),
                    u.add(p1[1], u.mul(u.sub(p2[1], p1[1]), t)),
                ];
                let m: [Real32; 2] = [
                    u.add(q0[0], u.mul(u.sub(q1[0], q0[0]), t)),
                    u.add(q0[1], u.mul(u.sub(q1[1], q0[1]), t)),
                ];
                fit_arc_segment(u, p0, q0, m, segments);
                fit_arc_segment(u, m, q1, p2, segments);
                return;
            }
        }
    }
    fit_arc_segment(u, p0, p1, p2, segments);
}

/// What holds of every piece that this module makes: a line or an arc runs up
/// or down, an arc lies on one half of its circle, and a flat piece has no
/// direction and ends at `x_max`. A line or an arc whose end heights are numbers
/// has them in order.
pub open spec fn valid_segment(s: GpuSegment) -> bool {
    let up_or_down = s.direction == lit(ONE) || s.direction == lit(MINUS_ONE);
    if s.kind == KIND_LINE {
        &&& up_or_down
        &&& s.sign == lit(ZERO)
        &&& !s.param0[3].lt(s.param0[2])
    } else if s.kind == KIND_ARC {
        &&& up_or_down
        &&& s.sign == lit(ONE) || s.sign == lit(MINUS_ONE)
        &&& !s.param1[0].lt(s.param0[3])
    } else {
        &&& s.kind == KIND_FLAT
        &&& s.sign == lit(ZERO)
        &&& s.direction == lit(ZERO)
        &&& s.param0[3] == s.x_max
        &&& !s.param0[3].lt(s.param0[2])
    }
}

/// Every piece is valid.
pub open spec fn all_valid(segments: Seq<GpuSegment>) -> bool {
    forall|i: int| 0 <= i < segments.len() ==> valid_segment(#[trigger] segments[i])
}

/// The line from `p0` to `p1` gives at most one piece, a valid one, which is no
/// arc; where the end points are numbers the piece reaches both of them: a
/// slanted one spans both heights, and neither end lies right of `x_max`.
pub proof fn law_line_pieces<F: Fn(Op32) -> Real32>(u: &Fpu32<F>, p0: [Real32; 2], p1: [Real32; 2])
    ensures
        line_pieces(u, p0, p1).len() <= 1,
        forall|i: int|
            0 <= i < line_pieces(u, p0, p1).len() ==> {
                let s = #[trigger] line_pieces(u, p0, p1)[i];
                &&& valid_segment(s)
                &&& s.kind != KIND_ARC
                &&& !p0[0].is_nan() && !p1[0].is_nan() ==> p0[0].le(s.x_max) && p1[0].le(s.x_max)
                &&& s.kind == KIND_LINE && !p0[1].is_nan() && !p1[1].is_nan() ==> {
                    &&& s.param0[2].le(p0[1]) && p0[1].le(s.param0[3])
                    &&& s.param0[2].le(p1[1]) && p1[1].le(s.param0[3])
                }
            },
{
}

/// A curve piece gives at most one piece, a valid one. Where it is an arc, its
/// radius is in range, and it spans both end heights where they are numbers.
pub proof fn law_arc_pieces<F: Fn(Op32) -> Real32>(
    u: &Fpu32<F>,
    p0: [Real32; 2],
    p1: [Real32; 2],
    p2: [Real32; 2],
)
    ensures
        arc_pieces(u, p0, p1, p2).len() <= 1,
        forall|i: int|
            0 <= i < arc_pieces(u, p0, p1, p2).len() ==> {
                let s = #[trigger] arc_pieces(u, p0, p1, p2)[i];
                &&& valid_segment(s)
                &&& s.kind == KIND_ARC ==> radius_in_range(u.sqrt(s.param0[2]))
                &&& s.kind == KIND_ARC && !p0[1].is_nan() && !p2[1].is_nan() ==> {
                    &&& s.param0[3].le(p0[1]) && p0[1].le(s.param1[0])
                    &&& s.param0[3].le(p2[1]) && p2[1].le(s.param1[0])
                }
            },
{
    law_line_pieces(u, p0, p2);
}

/// A quadratic curve gives at most two pieces, all of them valid.
pub proof fn law_quad_pieces<F: Fn(Op32) -> Real32>(
    u: &Fpu32<F>,
    p0: [Real32; 2],
    p1: [Real32; 2],
    p2: [Real32; 2],
)
    ensures
        quad_pieces(u, p0, p1, p2).len() <= 2,
        all_valid(quad_pieces(u, p0, p1, p2)),
{
    law_arc_pieces(u, p0, p1, p2);
    let t = extremum(u, p0, p1, p2);
    let q0 = between(u, p0, p1, t);
    let q1 = between(u, p1, p2, t);
    let m = between(u, q0, q1, t);
    law_arc_pieces(u, p0, q0, m);
    law_arc_pieces(u, m, q1, p2);
}

/// A line or curve piece whose ends coincide is drawn as nothing. This holds for
/// finite ends.
pub proof fn law_closed_piece<F: Fn(Op32) -> Real32>(
    u: &Fpu32<F>,
    p0: [Real32; 2],
    p1: [Real32; 2],
    p2: [Real32; 2],
)
    requires
        lawful(u),
        p0[0].is_finite() && p0[1].is_finite(),
        p2[0].is_finite() && p2[1].is_finite(),
        p0[0].same(p2[0]) && p0[1].same(p2[1]),
    ensures
        line_pieces(u, p0, p2) == Seq::<GpuSegment>::empty(),
        arc_pieces(u, p0, p1, p2) == Seq::<GpuSegment>::empty(),
{
    law_zero_difference(u, p2[0], p0[0]);
    law_zero_difference(u, p2[1], p0[1]);
    law_zero_difference(u, p0[1].max(p2[1]), p0[1].min(p2[1]));
}

/// How often a path from height `a` to height `b` crosses height `y`, counted 1
/// upward and -1 downward. A path that ends at `y` has crossed it from above only.
pub open spec fn winding(a: Real32, b: Real32, y: Real32) -> int {
    if a.le(y) && y.lt(b) {
        1
    } else if b.le(y) && y.lt(a) {
        -1
    } else {
        0
    }
}

/// How often a piece crosses height `y`, by its end heights and its direction. A
/// flat piece crosses nothing.
pub open spec fn crossing(s: GpuSegment, y: Real32) -> int {
    let up = if s.direction == lit(ONE) {
        1int
    } else {
        -1
    };
    if s.kind == KIND_LINE && s.param0[2].le(y) && y.lt(s.param0[3]) {
        up
    } else if s.kind == KIND_ARC && s.param0[3].le(y) && y.lt(s.param1[0]) {
        up
    } else {
        0
    }
}

/// How often all the pieces together cross height `y`.
pub open spec fn crossings(segments: Seq<GpuSegment>, y: Real32) -> int
    decreases segments.len(),
{
    if segments.len() == 0 {
        0
    } else {
        crossings(segments.drop_last(), y) + crossing(segments.last(), y)
    }
}

/// Pieces one after the other cross as often as either part.
pub proof fn lemma_crossings_add(a: Seq<GpuSegment>, b: Seq<GpuSegment>, y: Real32)
    ensures
        crossings(a + b, y) == crossings(a, y) + crossings(b, y),
    decreases b.len(),
{
    if b.len() == 0 {
        assert(a + b =~= a);
    } else {
        lemma_crossings_add(a, b.drop_last(), y);
        assert((a + b).drop_last() =~= a + b.drop_last());
        assert((a + b).last() == b.last());
    }
}

/// The curve piece `p0`, `p1`, `p2` is not lost at height `y`: it is drawn as a
/// slanted line or an arc, or it does not cross `y` at all. What is lost is a
/// piece that is dropped or drawn flat.
pub open spec fn shows_crossing<F: Fn(Op32) -> Real32>(
    u: &Fpu32<F>,
    p0: [Real32; 2],
    p1: [Real32; 2],
    p2: [Real32; 2],
    y: Real32,
) -> bool {
    let pieces = arc_pieces(u, p0, p1, p2);
    winding(p0[1], p2[1], y) == 0 || (pieces.len() == 1 && pieces[0].kind != KIND_FLAT)
}

/// A curve piece that is not lost at height `y` crosses it as the path from its
/// first to its last point does. This holds for finite heights.
pub proof fn law_arc_winding<F: Fn(Op32) -> Real32>(
    u: &Fpu32<F>,
    p0: [Real32; 2],
    p1: [Real32; 2],
    p2: [Real32; 2],
    y: Real32,
)
    requires
        lawful(u),
        p0[1].is_finite(),
        p2[1].is_finite(),
        shows_crossing(u, p0, p1, p2, y),
    ensures
        crossings(arc_pieces(u, p0, p1, p2), y) == winding(p0[1], p2[1], y),
{
    let pieces = arc_pieces(u, p0, p1, p2);
    law_arc_pieces(u, p0, p1, p2);
    assert(lit(ONE) != lit(MINUS_ONE));
    assert({
        let dy = u.value(Op32::Sub(p2[1], p0[1]));
        lit(ZERO).lt(dy) == p0[1].lt(p2[1])
    }) by {
        reveal(differences_order);
    }
    if pieces.len() == 1 {
        assert(pieces.drop_last() =~= Seq::empty());
        assert(crossings(pieces, y) == crossings(pieces.drop_last(), y) + crossing(pieces[0], y));
    }
}

/// The directions of a curve's pieces add up, at every height at which no part of
/// the curve is lost, to the winding from its first to its last point, also where
/// the curve is split. This holds for finite heights, that of the split included.
pub proof fn law_quad_winding<F: Fn(Op32) -> Real32>(
    u: &Fpu32<F>,
    p0: [Real32; 2],
    p1: [Real32; 2],
    p2: [Real32; 2],
    y: Real32,
)
    requires
        lawful(u),
        p0[1].is_finite(),
        p2[1].is_finite(),
        !turns_back(u, p0, p1, p2) ==> shows_crossing(u, p0, p1, p2, y),
        turns_back(u, p0, p1, p2) ==> {
            let t = extremum(u, p0, p1, p2);
            let q0 = between(u, p0, p1, t);
            let q1 = between(u, p1, p2, t);
            let m = between(u, q0, q1, t);
            m[1].is_finite() && shows_crossing(u, p0, q0, m, y) && shows_crossing(u, m, q1, p2, y)
        },
    ensures
        crossings(quad_pieces(u, p0, p1, p2), y) == winding(p0[1], p2[1], y),
{
    if turns_back(u, p0, p1, p2) {
        let t = extremum(u, p0, p1, p2);
        let q0 = between(u, p0, p1, t);
        let q1 = between(u, p1, p2, t);
        let m = between(u, q0, q1, t);
        law_arc_winding(u, p0, q0, m, y);
        law_arc_winding(u, m, q1, p2, y);
        lemma_crossings_add(arc_pieces(u, p0, q0, m), arc_pieces(u, m, q1, p2), y);
    } else {
        law_arc_winding(u, p0, p1, p2, y);
    }
}

} // verus!
