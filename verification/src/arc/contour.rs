//! Collecting a glyph's outline as closed contours of points.
use crate::arc::segment::{line_pieces, process_quad_bezier, push_line_segment, quad_pieces};
use crate::arc::segment::{all_valid, law_line_pieces, law_quad_pieces, GpuSegment};
use crate::fpu::{Fpu32, Op32};
use crate::literal::{HALF, THREE, TWO, ZERO};
use crate::number::{lit, Real32};
use vstd::prelude::*;

verus! {

#[derive(Copy, Clone, PartialEq, Eq, Structural, Debug)]
pub enum PointType {
    OnCurve,
    Control,
}

#[derive(Copy, Clone, PartialEq, Eq, Structural, Debug)]
pub struct Point {
    pub x: Real32,
    pub y: Real32,
    pub p_type: PointType,
}

#[verifier::allow_in_spec]
pub fn on_curve(x: Real32, y: Real32) -> Point
    returns
        (Point { x, y, p_type: PointType::OnCurve }),
{
    Point { x, y, p_type: PointType::OnCurve }
}

#[verifier::allow_in_spec]
pub fn control(x: Real32, y: Real32) -> Point
    returns
        (Point { x, y, p_type: PointType::Control }),
{
    Point { x, y, p_type: PointType::Control }
}

/// An outline under construction: the finished contours and the open one.
#[verifier::ext_equal]
pub struct Outline {
    pub contours: Seq<Seq<Point>>,
    pub current: Seq<Point>,
}

/// The points of each contour.
pub open spec fn points_of(contours: Seq<Vec<Point>>) -> Seq<Seq<Point>> {
    contours.map_values(|c: Vec<Point>| c@)
}

/// `(a + 2 b) / 3`.
pub open spec fn third<F: Fn(Op32) -> Real32>(u: &Fpu32<F>, a: Real32, b: Real32) -> Real32 {
    u.div(u.add(a, u.mul(lit(TWO), b)), lit(THREE))
}

/// `(a + b) / 2`.
pub open spec fn mean<F: Fn(Op32) -> Real32>(u: &Fpu32<F>, a: Real32, b: Real32) -> Real32 {
    u.mul(u.add(a, b), lit(HALF))
}

impl Outline {
    pub open spec fn empty() -> Outline {
        Outline { contours: seq![], current: seq![] }
    }

    /// The open contour is finished, if it has a point.
    pub open spec fn close(self) -> Outline {
        if self.current.len() > 0 {
            Outline { contours: self.contours.push(self.current), current: seq![] }
        } else {
            self
        }
    }

    /// A new contour begins.
    pub open spec fn move_to(self, x: Real32, y: Real32) -> Outline {
        Outline { contours: self.close().contours, current: seq![on_curve(x, y)] }
    }

    pub open spec fn line_to(self, x: Real32, y: Real32) -> Outline {
        Outline { current: self.current.push(on_curve(x, y)), ..self }
    }

    pub open spec fn quad_to(self, x1: Real32, y1: Real32, x: Real32, y: Real32) -> Outline {
        Outline { current: self.current.push(control(x1, y1)).push(on_curve(x, y)), ..self }
    }

    /// The point that the next curve starts at: the last one, or the origin.
    pub open spec fn pen(self) -> Point {
        if self.current.len() > 0 {
            self.current.last()
        } else {
            on_curve(lit(ZERO), lit(ZERO))
        }
    }

    /// A cubic curve becomes two quadratic ones, joined at the mean of its
    /// control points.
    pub open spec fn curve_to<F: Fn(Op32) -> Real32>(
        self,
        u: &Fpu32<F>,
        x1: Real32,
        y1: Real32,
        x2: Real32,
        y2: Real32,
        x: Real32,
        y: Real32,
    ) -> Outline {
        let pen = self.pen();
        Outline {
            current: self.current.push(control(third(u, pen.x, x1), third(u, pen.y, y1))).push(
                on_curve(mean(u, x1, x2), mean(u, y1, y2)),
            ).push(control(third(u, x, x2), third(u, y, y2))).push(on_curve(x, y)),
            ..self
        }
    }
}

pub struct ContourBuilder {
    pub contours: Vec<Vec<Point>>,
    pub current_contour: Vec<Point>,
}

impl View for ContourBuilder {
    type V = Outline;

    open spec fn view(&self) -> Outline {
        Outline { contours: points_of(self.contours@), current: self.current_contour@ }
    }
}

impl Default for ContourBuilder {
    fn default() -> (r: Self)
        ensures
            r@ == Outline::empty(),
    {
        let r = ContourBuilder { contours: Vec::new(), current_contour: Vec::new() };
        assert(r@ =~= Outline::empty());
        r
    }
}

impl ContourBuilder {
    pub fn move_to(&mut self, x: Real32, y: Real32)
        ensures
            final(self)@ == old(self)@.move_to(x, y),
    {
        self.close();
        self.current_contour.push(on_curve(x, y));
        assert(self@ =~= old(self)@.move_to(x, y));
    }

    pub fn line_to(&mut self, x: Real32, y: Real32)
        ensures
            final(self)@ == old(self)@.line_to(x, y),
    {
        self.current_contour.push(on_curve(x, y));
    }

    pub fn quad_to(&mut self, x1: Real32, y1: Real32, x: Real32, y: Real32)
        ensures
            final(self)@ == old(self)@.quad_to(x1, y1, x, y),
    {
        self.current_contour.push(control(x1, y1));
        self.current_contour.push(on_curve(x, y));
    }

    pub fn curve_to<F: Fn(Op32) -> Real32>(
        &mut self,
        u: &Fpu32<F>,
        x1: Real32,
        y1: Real32,
        x2: Real32,
        y2: Real32,
        x: Real32,
        y: Real32,
    )
        ensures
            final(self)@ == old(self)@.curve_to(u, x1, y1, x2, y2, x, y),
    {
        let n = self.current_contour.len();
        let last = if n > 0 {
            self.current_contour[n - 1]
        } else {
            on_curve(lit(ZERO), lit(ZERO))
        };
        let two = lit(TWO);
        let three = lit(THREE);
        self.current_contour.push(
            control(
                u.div(u.add(last.x, u.mul(two, x1)), three),
                u.div(u.add(last.y, u.mul(two, y1)), three),
            ),
        );
        self.current_contour.push(
            on_curve(u.mul(u.add(x1, x2), lit(HALF)), u.mul(u.add(y1, y2), lit(HALF))),
        );
        self.current_contour.push(
            control(u.div(u.add(x, u.mul(two, x2)), three), u.div(u.add(y, u.mul(two, y2)), three)),
        );
        self.current_contour.push(on_curve(x, y));
    }

    pub fn close(&mut self)
        ensures
            final(self)@ == old(self)@.close(),
    {
        if self.current_contour.len() > 0 {
            let mut done: Vec<Point> = Vec::new();
            std::mem::swap(&mut done, &mut self.current_contour);
            self.contours.push(done);
        }
        assert(self@ =~= old(self)@.close());
    }
}

/// A contour as the outlines of a font give it: it starts and ends on the
/// curve, and no two control points are neighbours.
pub open spec fn proper_contour(c: Seq<Point>) -> bool {
    &&& c.len() > 0
    &&& c[0].p_type == PointType::OnCurve
    &&& c.last().p_type == PointType::OnCurve
    &&& forall|i: int, j: int|
        #![trigger c[i], c[j]]
        0 <= i && j == i + 1 && j < c.len() ==> c[i].p_type == PointType::OnCurve || c[j].p_type
            == PointType::OnCurve
}

/// Every contour is proper, the open one too unless it is still empty.
pub open spec fn proper_outline(o: Outline) -> bool {
    &&& forall|i: int| 0 <= i < o.contours.len() ==> proper_contour(#[trigger] o.contours[i])
    &&& o.current.len() > 0 ==> proper_contour(o.current)
}

/// Every step keeps an outline proper: moving, drawing a line and closing
/// always, a curve where the contour has begun. After a move the contour has
/// begun; after a close nothing is left open.
pub proof fn law_outline_stays_proper<F: Fn(Op32) -> Real32>(
    o: Outline,
    u: &Fpu32<F>,
    x1: Real32,
    y1: Real32,
    x2: Real32,
    y2: Real32,
    x: Real32,
    y: Real32,
)
    requires
        proper_outline(o),
    ensures
        proper_outline(o.move_to(x, y)),
        proper_outline(o.line_to(x, y)),
        proper_outline(o.close()),
        o.current.len() > 0 ==> proper_outline(o.quad_to(x1, y1, x, y)),
        o.current.len() > 0 ==> proper_outline(o.curve_to(u, x1, y1, x2, y2, x, y)),
        o.move_to(x, y).current.len() > 0,
        o.close().current.len() == 0,
{
}

/// What holds of a contour however it began: it has a point, ends on the curve,
/// and no two control points are neighbours.
pub open spec fn drawn_contour(c: Seq<Point>) -> bool {
    &&& c.len() > 0
    &&& c.last().p_type == PointType::OnCurve
    &&& forall|i: int, j: int|
        #![trigger c[i], c[j]]
        0 <= i && j == i + 1 && j < c.len() ==> c[i].p_type == PointType::OnCurve || c[j].p_type
            == PointType::OnCurve
}

/// Every contour was drawn, the open one too unless it is still empty.
pub open spec fn drawn_outline(o: Outline) -> bool {
    &&& forall|i: int| 0 <= i < o.contours.len() ==> drawn_contour(#[trigger] o.contours[i])
    &&& o.current.len() > 0 ==> drawn_contour(o.current)
}

/// An empty outline is drawn, and every step keeps it so, whatever it follows.
pub proof fn law_outline_stays_drawn<F: Fn(Op32) -> Real32>(
    o: Outline,
    u: &Fpu32<F>,
    x1: Real32,
    y1: Real32,
    x2: Real32,
    y2: Real32,
    x: Real32,
    y: Real32,
)
    ensures
        drawn_outline(Outline::empty()),
        drawn_outline(o) ==> {
            &&& drawn_outline(o.move_to(x, y))
            &&& drawn_outline(o.line_to(x, y))
            &&& drawn_outline(o.quad_to(x1, y1, x, y))
            &&& drawn_outline(o.curve_to(u, x1, y1, x2, y2, x, y))
            &&& drawn_outline(o.close())
        },
{
}

/// Where a point of the font's design space lies in the glyph square of side
/// 1000: `descender` is at height 0, and one design unit is `scale_em` long.
pub open spec fn placed<F: Fn(Op32) -> Real32>(
    u: &Fpu32<F>,
    p: Point,
    scale_em: Real32,
    descender: Real32,
) -> [Real32; 2] {
    [u.mul(p.x, scale_em), u.mul(u.sub(p.y, descender), scale_em)]
}

/// The index behind `i` on a closed contour of `n` points.
pub open spec fn behind(i: int, n: int) -> int {
    if i + 1 == n {
        0
    } else {
        i + 1
    }
}

/// The number of points that the piece starting at point `i` passes.
pub open spec fn stride(c: Seq<Point>, i: int) -> int {
    if c[behind(i, c.len() as int)].p_type == PointType::Control {
        2
    } else {
        1
    }
}

/// What the piece starting at point `i` is drawn as: a curve where a control
/// point follows, else a line.
pub open spec fn pieces_at<F: Fn(Op32) -> Real32>(
    u: &Fpu32<F>,
    c: Seq<Point>,
    scale_em: Real32,
    descender: Real32,
    i: int,
) -> Seq<GpuSegment> {
    let n = c.len() as int;
    let j = behind(i, n);
    let p0 = placed(u, c[i], scale_em, descender);
    let p1 = placed(u, c[j], scale_em, descender);
    if c[j].p_type == PointType::Control {
        quad_pieces(u, p0, p1, placed(u, c[behind(j, n)], scale_em, descender))
    } else {
        line_pieces(u, p0, p1)
    }
}

/// The pieces of a closed contour from point `i` on.
pub open spec fn pieces_from<F: Fn(Op32) -> Real32>(
    u: &Fpu32<F>,
    c: Seq<Point>,
    scale_em: Real32,
    descender: Real32,
    i: int,
) -> Seq<GpuSegment>
    decreases c.len() + 1 - i,
{
    if 0 <= i < c.len() {
        pieces_at(u, c, scale_em, descender, i) + pieces_from(
            u,
            c,
            scale_em,
            descender,
            i + stride(c, i),
        )
    } else {
        seq![]
    }
}

/// The pieces of a closed contour; a single point gives none.
pub open spec fn contour_pieces<F: Fn(Op32) -> Real32>(
    u: &Fpu32<F>,
    c: Seq<Point>,
    scale_em: Real32,
    descender: Real32,
) -> Seq<GpuSegment> {
    if c.len() < 2 {
        seq![]
    } else {
        pieces_from(u, c, scale_em, descender, 0)
    }
}

/// The pieces of all contours, in their order.
pub open spec fn outline_pieces<F: Fn(Op32) -> Real32>(
    u: &Fpu32<F>,
    contours: Seq<Seq<Point>>,
    scale_em: Real32,
    descender: Real32,
) -> Seq<GpuSegment>
    decreases contours.len(),
{
    if contours.len() == 0 {
        seq![]
    } else {
        outline_pieces(u, contours.drop_last(), scale_em, descender) + contour_pieces(
            u,
            contours.last(),
            scale_em,
            descender,
        )
    }
}

/// Appends the pieces of one closed contour.
pub fn push_contour<F: Fn(Op32) -> Real32>(
    u: &Fpu32<F>,
    contour: &Vec<Point>,
    scale_em: Real32,
    descender: Real32,
    segments: &mut Vec<GpuSegment>,
)
    ensures
        final(segments)@ == old(segments)@ + contour_pieces(u, contour@, scale_em, descender),
{
    let n: usize = contour.len();
    if n < 2 {
        return;
    }
    let mut norm: Vec<[Real32; 2]> = Vec::new();
    for k in 0..n
        invariant
            n == contour.len(),
            norm.len() == k,
            forall|j: int|
                0 <= j < k ==> #[trigger] norm[j] == placed(u, contour[j], scale_em, descender),
    {
        let p = contour[k];
        norm.push([u.mul(p.x, scale_em), u.mul(u.sub(p.y, descender), scale_em)]);
    }
    let ghost all = pieces_from(u, contour@, scale_em, descender, 0);
    let mut i: usize = 0;
    assert(old(segments)@ + all =~= segments@ + all);
    while i < n
        invariant
            2 <= n == contour.len(),
            norm.len() == n,
            forall|j: int|
                0 <= j < n ==> #[trigger] norm[j] == placed(u, contour[j], scale_em, descender),
            old(segments)@ + all == segments@ + pieces_from(
                u,
                contour@,
                scale_em,
                descender,
                i as int,
            ),
        decreases n - i,
    {
        let j: usize = if i + 1 == n {
            0
        } else {
            i + 1
        };
        let ghost before = segments@;
        let ghost here = pieces_at(u, contour@, scale_em, descender, i as int);
        let ghost rest = pieces_from(
            u,
            contour@,
            scale_em,
            descender,
            i + stride(contour@, i as int),
        );
        if contour[j].p_type == PointType::Control {
            let k: usize = if j + 1 == n {
                0
            } else {
                j + 1
            };
            process_quad_bezier(u, norm[i], norm[j], norm[k], segments);
            i = if n - i < 2 {
                n
            } else {
                i + 2
            };
        } else {
            push_line_segment(u, norm[i], norm[j], segments);
            i = i + 1;
        }
        proof {
            assert(segments@ == before + here);
            assert(rest == pieces_from(u, contour@, scale_em, descender, i as int));
            assert(before + (here + rest) =~= segments@ + rest);
        }
    }
    assert(segments@ + Seq::<GpuSegment>::empty() =~= segments@);
}

/// The pieces of all contours of a glyph.
pub fn outline_segments<F: Fn(Op32) -> Real32>(
    u: &Fpu32<F>,
    contours: &Vec<Vec<Point>>,
    scale_em: Real32,
    descender: Real32,
) -> (segments: Vec<GpuSegment>)
    ensures
        segments@ == outline_pieces(u, points_of(contours@), scale_em, descender),
{
    let mut segments: Vec<GpuSegment> = Vec::new();
    let ghost all = points_of(contours@);
    for i in 0..contours.len()
        invariant
            all == points_of(contours@),
            segments@ == outline_pieces(u, all.take(i as int), scale_em, descender),
    {
        push_contour(u, &contours[i], scale_em, descender, &mut segments);
        proof {
            assert(all.take(i + 1).drop_last() =~= all.take(i as int));
            assert(all.take(i + 1).last() == contours[i as int]@);
        }
    }
    assert(all.take(all.len() as int) =~= all);
    segments
}

/// On a proper contour every piece starts and ends on the curve: from an
/// on-curve point the walk goes to an on-curve point, or exactly to the end.
pub proof fn law_walk_stays_on_the_curve(c: Seq<Point>, i: int)
    requires
        proper_contour(c),
        c.len() >= 2,
        0 <= i < c.len(),
        c[i].p_type == PointType::OnCurve,
    ensures
        i + stride(c, i) <= c.len(),
        i + stride(c, i) < c.len() ==> c[i + stride(c, i)].p_type == PointType::OnCurve,
        stride(c, i) == 2 ==> c[behind(behind(i, c.len() as int), c.len() as int)].p_type
            == PointType::OnCurve,
{
}

/// From an on-curve point of a proper contour on, every piece is valid and
/// there are no more pieces than points left.
proof fn lemma_pieces_from<F: Fn(Op32) -> Real32>(
    u: &Fpu32<F>,
    c: Seq<Point>,
    scale_em: Real32,
    descender: Real32,
    i: int,
)
    requires
        c.len() >= 2,
        0 <= i,
    ensures
        all_valid(pieces_from(u, c, scale_em, descender, i)),
        proper_contour(c) && i <= c.len() && (i < c.len() ==> c[i].p_type == PointType::OnCurve)
            ==> pieces_from(u, c, scale_em, descender, i).len() <= c.len() - i,
    decreases c.len() + 1 - i,
{
    if i < c.len() {
        let n = c.len() as int;
        let j = behind(i, n);
        let p0 = placed(u, c[i], scale_em, descender);
        let p1 = placed(u, c[j], scale_em, descender);
        law_line_pieces(u, p0, p1);
        law_quad_pieces(u, p0, p1, placed(u, c[behind(j, n)], scale_em, descender));
        lemma_pieces_from(u, c, scale_em, descender, i + stride(c, i));
    }
}

/// Every piece of an outline is valid, and a proper contour gives no more
/// pieces than it has points.
pub proof fn law_contour_pieces<F: Fn(Op32) -> Real32>(
    u: &Fpu32<F>,
    c: Seq<Point>,
    scale_em: Real32,
    descender: Real32,
)
    ensures
        all_valid(contour_pieces(u, c, scale_em, descender)),
        proper_contour(c) ==> contour_pieces(u, c, scale_em, descender).len() <= c.len(),
{
    if c.len() >= 2 {
        lemma_pieces_from(u, c, scale_em, descender, 0);
    }
}

/// Every piece of every outline is valid.
pub proof fn law_outline_pieces_are_valid<F: Fn(Op32) -> Real32>(
    u: &Fpu32<F>,
    contours: Seq<Seq<Point>>,
    scale_em: Real32,
    descender: Real32,
)
    ensures
        all_valid(outline_pieces(u, contours, scale_em, descender)),
    decreases contours.len(),
{
    if contours.len() > 0 {
        law_outline_pieces_are_valid(u, contours.drop_last(), scale_em, descender);
        law_contour_pieces(u, contours.last(), scale_em, descender);
    }
}

} // verus!
