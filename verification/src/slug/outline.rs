//! Collecting a glyph's outline as quadratic curves.
use crate::arith::{law_self_difference, lawful, units_are_neutral};
use crate::fpu::{Fpu32, Op32};
use crate::literal::{HALF, ONE, ONE_EIGHTH, THREE, ZERO};
use crate::number::{lit, Real32};
use vstd::prelude::*;

verus! {

/// 0.0001: a contour whose ends are farther apart is closed with a line.
pub const CLOSE_ENOUGH: u32 = 0x38d1_b717;

/// One quadratic curve, as the fragment shader reads it: its first two control
/// points in `p12`, the third in the first half of `p3`.
#[derive(Copy, Clone)]
pub struct GpuCurve {
    pub p12: [Real32; 4],
    pub p3: [Real32; 4],
}

/// The curve with these control points.
#[verifier::allow_in_spec]
pub fn curve(p0: [Real32; 2], p1: [Real32; 2], p2: [Real32; 2]) -> GpuCurve
    returns
        (GpuCurve { p12: [p0[0], p0[1], p1[0], p1[1]], p3: [p2[0], p2[1], lit(ZERO), lit(ZERO)] }),
{
    let zero = lit(ZERO);
    GpuCurve { p12: [p0[0], p0[1], p1[0], p1[1]], p3: [p2[0], p2[1], zero, zero] }
}

/// The point halfway between `a` and `b`.
pub open spec fn halfway<F: Fn(Op32) -> Real32>(
    u: &Fpu32<F>,
    a: [Real32; 2],
    b: [Real32; 2],
) -> [Real32; 2] {
    [u.mul(u.add(a[0], b[0]), lit(HALF)), u.mul(u.add(a[1], b[1]), lit(HALF))]
}

/// The straight curve from `a` to `b`.
pub open spec fn straight<F: Fn(Op32) -> Real32>(
    u: &Fpu32<F>,
    a: [Real32; 2],
    b: [Real32; 2],
) -> GpuCurve {
    curve(a, halfway(u, a, b), b)
}

/// The middle `(a + 3 b + 3 c + d) / 8` of a cubic curve, in one coordinate.
pub open spec fn cubic_middle<F: Fn(Op32) -> Real32>(
    u: &Fpu32<F>,
    a: Real32,
    b: Real32,
    c: Real32,
    d: Real32,
) -> Real32 {
    u.mul(
        u.add(u.add(u.add(a, u.mul(lit(THREE), b)), u.mul(lit(THREE), c)), d),
        lit(ONE_EIGHTH),
    )
}

/// `(3 c - a) / 2`: where the tangent at the end `a` of a cubic curve with the
/// control point `c` meets the middle, in one coordinate.
pub open spec fn half_control<F: Fn(Op32) -> Real32>(
    u: &Fpu32<F>,
    c: Real32,
    a: Real32,
) -> Real32 {
    u.mul(u.sub(u.mul(lit(THREE), c), a), lit(HALF))
}

/// An outline under construction.
#[verifier::ext_equal]
pub struct SlugOutline {
    /// Where the next curve starts.
    pub current_pos: [Real32; 2],
    /// Where the contour started.
    pub contour_start: [Real32; 2],
    pub scale_em: Real32,
    pub descender: Real32,
    pub curves: Seq<GpuCurve>,
}

impl SlugOutline {
    /// Where a point of the font's design space lies in the glyph square.
    pub open spec fn transform<F: Fn(Op32) -> Real32>(
        self,
        u: &Fpu32<F>,
        x: Real32,
        y: Real32,
    ) -> [Real32; 2] {
        [u.mul(x, self.scale_em), u.mul(u.sub(y, self.descender), self.scale_em)]
    }

    /// A curve is drawn and the pen goes to `to`.
    pub open spec fn drawn(self, c: GpuCurve, to: [Real32; 2]) -> SlugOutline {
        SlugOutline { curves: self.curves.push(c), current_pos: to, ..self }
    }

    pub open spec fn move_to<F: Fn(Op32) -> Real32>(
        self,
        u: &Fpu32<F>,
        x: Real32,
        y: Real32,
    ) -> SlugOutline {
        let p = self.transform(u, x, y);
        SlugOutline { current_pos: p, contour_start: p, ..self }
    }

    pub open spec fn line_to<F: Fn(Op32) -> Real32>(
        self,
        u: &Fpu32<F>,
        x: Real32,
        y: Real32,
    ) -> SlugOutline {
        let p2 = self.transform(u, x, y);
        self.drawn(straight(u, self.current_pos, p2), p2)
    }

    pub open spec fn quad_to<F: Fn(Op32) -> Real32>(
        self,
        u: &Fpu32<F>,
        x1: Real32,
        y1: Real32,
        x: Real32,
        y: Real32,
    ) -> SlugOutline {
        let p2 = self.transform(u, x, y);
        self.drawn(curve(self.current_pos, self.transform(u, x1, y1), p2), p2)
    }

    /// A cubic curve becomes two quadratic ones that meet at its middle.
    pub open spec fn curve_to<F: Fn(Op32) -> Real32>(
        self,
        u: &Fpu32<F>,
        x1: Real32,
        y1: Real32,
        x2: Real32,
        y2: Real32,
        x: Real32,
        y: Real32,
    ) -> SlugOutline {
        let p0 = self.current_pos;
        let c1 = self.transform(u, x1, y1);
        let c2 = self.transform(u, x2, y2);
        let p3 = self.transform(u, x, y);
        let mid = [
            cubic_middle(u, p0[0], c1[0], c2[0], p3[0]),
            cubic_middle(u, p0[1], c1[1], c2[1], p3[1]),
        ];
        let q1 = [half_control(u, c1[0], p0[0]), half_control(u, c1[1], p0[1])];
        let q2 = [half_control(u, c2[0], p3[0]), half_control(u, c2[1], p3[1])];
        self.drawn(curve(p0, q1, mid), mid).drawn(curve(mid, q2, p3), p3)
    }

    /// The pen is off the start of the contour.
    pub open spec fn open_ended<F: Fn(Op32) -> Real32>(self, u: &Fpu32<F>) -> bool {
        ||| lit(CLOSE_ENOUGH).lt(u.sub(self.current_pos[0], self.contour_start[0]).abs())
        ||| lit(CLOSE_ENOUGH).lt(u.sub(self.current_pos[1], self.contour_start[1]).abs())
    }

    /// A contour whose ends do not meet is closed with a line.
    pub open spec fn close<F: Fn(Op32) -> Real32>(self, u: &Fpu32<F>) -> SlugOutline {
        if self.open_ended(u) {
            self.drawn(straight(u, self.current_pos, self.contour_start), self.contour_start)
        } else {
            self
        }
    }
}

pub struct SlugOutlineBuilder {
    pub current_pos: [Real32; 2],
    pub contour_start: [Real32; 2],
    pub scale_em: Real32,
    pub descender: Real32,
    pub curves: Vec<GpuCurve>,
}

impl View for SlugOutlineBuilder {
    type V = SlugOutline;

    open spec fn view(&self) -> SlugOutline {
        SlugOutline {
            current_pos: self.current_pos,
            contour_start: self.contour_start,
            scale_em: self.scale_em,
            descender: self.descender,
            curves: self.curves@,
        }
    }
}

impl SlugOutlineBuilder {
    pub fn new(scale_em: Real32, descender: Real32) -> (r: Self)
        ensures
            r@ == (SlugOutline {
                current_pos: [lit(ZERO), lit(ZERO)],
                contour_start: [lit(ZERO), lit(ZERO)],
                scale_em,
                descender,
                curves: seq![],
            }),
    {
        let zero = lit(ZERO);
        SlugOutlineBuilder {
            current_pos: [zero, zero],
            contour_start: [zero, zero],
            scale_em,
            descender,
            curves: Vec::new(),
        }
    }

    pub fn transform<F: Fn(Op32) -> Real32>(
        &self,
        u: &Fpu32<F>,
        x: Real32,
        y: Real32,
    ) -> (r: [Real32; 2])
        ensures
            r == self@.transform(u, x, y),
    {
        [u.mul(x, self.scale_em), u.mul(u.sub(y, self.descender), self.scale_em)]
    }

    /// Draws the straight curve from the pen to `p2`.
    fn draw_straight<F: Fn(Op32) -> Real32>(&mut self, u: &Fpu32<F>, p2: [Real32; 2])
        ensures
            final(self)@ == old(self)@.drawn(straight(u, old(self)@.current_pos, p2), p2),
    {
        let p0 = self.current_pos;
        let p1: [Real32; 2] = [
            u.mul(u.add(p0[0], p2[0]), lit(HALF)),
            u.mul(u.add(p0[1], p2[1]), lit(HALF)),
        ];
        self.curves.push(curve(p0, p1, p2));
        self.current_pos = p2;
    }

    pub fn move_to<F: Fn(Op32) -> Real32>(&mut self, u: &Fpu32<F>, x: Real32, y: Real32)
        ensures
            final(self)@ == old(self)@.move_to(u, x, y),
    {
        let p = self.transform(u, x, y);
        self.current_pos = p;
        self.contour_start = p;
    }

    pub fn line_to<F: Fn(Op32) -> Real32>(&mut self, u: &Fpu32<F>, x: Real32, y: Real32)
        ensures
            final(self)@ == old(self)@.line_to(u, x, y),
    {
        let p2 = self.transform(u, x, y);
        self.draw_straight(u, p2);
    }

    pub fn quad_to<F: Fn(Op32) -> Real32>(
        &mut self,
        u: &Fpu32<F>,
        x1: Real32,
        y1: Real32,
        x: Real32,
        y: Real32,
    )
        ensures
            final(self)@ == old(self)@.quad_to(u, x1, y1, x, y),
    {
        let p0 = self.current_pos;
        let p1 = self.transform(u, x1, y1);
        let p2 = self.transform(u, x, y);
        self.curves.push(curve(p0, p1, p2));
        self.current_pos = p2;
    }

    pub fn curve_to<F: Fn(Op32) -> Real32>(
        &mut self,
        u: &Fpu32<F>,
        x1: Real32,
        y1: Real32,
        x2: Real32,
        y2: Real32,
        x: Real32,
        y: Real32,
    )
        ensures
            final(self)@ == old(self)@.curve_to(u, x1, y1, x2, y2, x, y),
    {
        let p0 = self.current_pos;
        let c1 = self.transform(u, x1, y1);
        let c2 = self.transform(u, x2, y2);
        let p3 = self.transform(u, x, y);

        let three = lit(THREE);
        let half = lit(HALF);
        let eighth = lit(ONE_EIGHTH);
        let mid: [Real32; 2] = [
            u.mul(
                u.add(u.add(u.add(p0[0], u.mul(three, c1[0])), u.mul(three, c2[0])), p3[0]),
                eighth,
            ),
            u.mul(
                u.add(u.add(u.add(p0[1], u.mul(three, c1[1])), u.mul(three, c2[1])), p3[1]),
                eighth,
            ),
        ];
        let q1: [Real32; 2] = [
            u.mul(u.sub(u.mul(three, c1[0]), p0[0]), half),
            u.mul(u.sub(u.mul(three, c1[1]), p0[1]), half),
        ];
        let q2: [Real32; 2] = [
            u.mul(u.sub(u.mul(three, c2[0]), p3[0]), half),
            u.mul(u.sub(u.mul(three, c2[1]), p3[1]), half),
        ];

        self.curves.push(curve(p0, q1, mid));
        self.curves.push(curve(mid, q2, p3));
        self.current_pos = p3;
    }

    pub fn close<F: Fn(Op32) -> Real32>(&mut self, u: &Fpu32<F>)
        ensures
            final(self)@ == old(self)@.close(u),
    {
        let dx = u.sub(self.current_pos[0], self.contour_start[0]).abs();
        let dy = u.sub(self.current_pos[1], self.contour_start[1]).abs();
        if lit(CLOSE_ENOUGH).lt(dx) || lit(CLOSE_ENOUGH).lt(dy) {
            let p2 = self.contour_start;
            self.draw_straight(u, p2);
        }
    }
}

/// Where a curve starts.
pub open spec fn start_of(c: GpuCurve) -> [Real32; 2] {
    [c.p12[0], c.p12[1]]
}

/// Where a curve ends.
pub open spec fn end_of(c: GpuCurve) -> [Real32; 2] {
    [c.p3[0], c.p3[1]]
}

/// A curve starts at its first control point and ends at its third.
pub proof fn law_curve_ends(p0: [Real32; 2], p1: [Real32; 2], p2: [Real32; 2])
    ensures
        start_of(curve(p0, p1, p2)) == p0,
        end_of(curve(p0, p1, p2)) == p2,
{
    assert(start_of(curve(p0, p1, p2)) =~= p0);
    assert(end_of(curve(p0, p1, p2)) =~= p2);
}

/// From curve `from` on, every curve starts where the one before it ends, the
/// first one at `at`; the last one ends at `pen`.
pub open spec fn connected(
    curves: Seq<GpuCurve>,
    from: int,
    at: [Real32; 2],
    pen: [Real32; 2],
) -> bool {
    &&& 0 <= from <= curves.len()
    &&& from == curves.len() ==> at == pen
    &&& from < curves.len() ==> start_of(curves[from]) == at && end_of(curves.last()) == pen
    &&& forall|i: int, j: int|
        #![trigger curves[i], curves[j]]
        from <= i && j == i + 1 && j < curves.len() ==> start_of(curves[j]) == end_of(curves[i])
}

/// The curves of a contour hang together: every step from a move on draws on
/// where the pen is. Here `from` is the number of curves at the move.
pub proof fn law_contour_is_connected<F: Fn(Op32) -> Real32>(
    o: SlugOutline,
    u: &Fpu32<F>,
    from: int,
    x1: Real32,
    y1: Real32,
    x2: Real32,
    y2: Real32,
    x: Real32,
    y: Real32,
)
    ensures
        connected(
            o.move_to(u, x, y).curves,
            o.curves.len() as int,
            o.move_to(u, x, y).contour_start,
            o.move_to(u, x, y).current_pos,
        ),
        connected(o.curves, from, o.contour_start, o.current_pos) ==> {
            let l = o.line_to(u, x, y);
            let q = o.quad_to(u, x1, y1, x, y);
            let c = o.curve_to(u, x1, y1, x2, y2, x, y);
            let z = o.close(u);
            &&& connected(l.curves, from, l.contour_start, l.current_pos)
            &&& connected(q.curves, from, q.contour_start, q.current_pos)
            &&& connected(c.curves, from, c.contour_start, c.current_pos)
            &&& connected(z.curves, from, z.contour_start, z.current_pos)
        },
{
    assert forall|a: [Real32; 2], b: [Real32; 2], c: [Real32; 2]|
        #![trigger curve(a, b, c)]
        start_of(curve(a, b, c)) == a && end_of(curve(a, b, c)) == c by {
        law_curve_ends(a, b, c);
    }
    lemma_drawn_stays_connected(
        o,
        straight(u, o.current_pos, o.transform(u, x, y)),
        o.transform(u, x, y),
        from,
    );
    lemma_drawn_stays_connected(
        o,
        curve(o.current_pos, o.transform(u, x1, y1), o.transform(u, x, y)),
        o.transform(u, x, y),
        from,
    );
    lemma_drawn_stays_connected(
        o,
        straight(u, o.current_pos, o.contour_start),
        o.contour_start,
        from,
    );
    let p0 = o.current_pos;
    let c1 = o.transform(u, x1, y1);
    let c2 = o.transform(u, x2, y2);
    let p3 = o.transform(u, x, y);
    let mid = [
        cubic_middle(u, p0[0], c1[0], c2[0], p3[0]),
        cubic_middle(u, p0[1], c1[1], c2[1], p3[1]),
    ];
    let q1 = [half_control(u, c1[0], p0[0]), half_control(u, c1[1], p0[1])];
    let q2 = [half_control(u, c2[0], p3[0]), half_control(u, c2[1], p3[1])];
    lemma_drawn_stays_connected(o, curve(p0, q1, mid), mid, from);
    lemma_drawn_stays_connected(o.drawn(curve(p0, q1, mid), mid), curve(mid, q2, p3), p3, from);
}

proof fn lemma_drawn_stays_connected(o: SlugOutline, c: GpuCurve, to: [Real32; 2], from: int)
    ensures
        connected(o.curves, from, o.contour_start, o.current_pos) && start_of(c) == o.current_pos
            && end_of(c) == to ==> connected(
            o.drawn(c, to).curves,
            from,
            o.contour_start,
            to,
        ),
{
}

/// The two values behind the last control point of every curve are zero.
pub open spec fn zero_tails(o: SlugOutline) -> bool {
    forall|i: int|
        0 <= i < o.curves.len() ==> (#[trigger] o.curves[i]).p3[2] == lit(ZERO) && o.curves[i].p3[3]
            == lit(ZERO)
}

/// Whatever is drawn, the last two entries of `p3` stay zero in every curve.
pub proof fn law_tails_stay_zero<F: Fn(Op32) -> Real32>(
    o: SlugOutline,
    u: &Fpu32<F>,
    x1: Real32,
    y1: Real32,
    x2: Real32,
    y2: Real32,
    x: Real32,
    y: Real32,
)
    ensures
        o.curves.len() == 0 ==> zero_tails(o),
        zero_tails(o) ==> {
            &&& zero_tails(o.move_to(u, x, y))
            &&& zero_tails(o.line_to(u, x, y))
            &&& zero_tails(o.quad_to(u, x1, y1, x, y))
            &&& zero_tails(o.curve_to(u, x1, y1, x2, y2, x, y))
            &&& zero_tails(o.close(u))
        },
{
}

/// Closing a contour leaves no gap: afterwards the pen is at the contour's
/// start, or was close enough to it already, and then no curve is added.
pub proof fn law_close_leaves_no_gap<F: Fn(Op32) -> Real32>(o: SlugOutline, u: &Fpu32<F>)
    ensures
        o.open_ended(u) ==> o.close(u).current_pos == o.contour_start && o.close(u).curves.len()
            == o.curves.len() + 1,
        !o.open_ended(u) ==> o.close(u) == o,
{
}

/// Closing a contour a second time changes nothing.
pub proof fn law_close_twice<F: Fn(Op32) -> Real32>(o: SlugOutline, u: &Fpu32<F>)
    requires
        lawful(u),
    ensures
        o.close(u).close(u) == o.close(u),
{
    law_self_difference(u, o.contour_start[0]);
    law_self_difference(u, o.contour_start[1]);
}

/// Where the glyph square is the design space, a line leaves the outline as the
/// curve does whose control point is halfway. The values have to be numbers, the
/// point halfway too.
pub proof fn law_line_is_a_curve<F: Fn(Op32) -> Real32>(
    o: SlugOutline,
    u: &Fpu32<F>,
    x: Real32,
    y: Real32,
)
    requires
        lawful(u),
        o.scale_em == lit(ONE),
        o.descender == lit(ZERO),
        !x.is_nan(),
        !y.is_nan(),
        !halfway(u, o.current_pos, [x, y])[0].is_nan(),
        !halfway(u, o.current_pos, [x, y])[1].is_nan(),
    ensures
        o.line_to(u, x, y) == o.quad_to(
            u,
            halfway(u, o.current_pos, [x, y])[0],
            halfway(u, o.current_pos, [x, y])[1],
            x,
            y,
        ),
{
    reveal(units_are_neutral);
    let h = halfway(u, o.current_pos, [x, y]);
    assert(o.transform(u, x, y) =~= [x, y]);
    assert(o.transform(u, h[0], h[1]) =~= h);
}

} // verus!
