//! The glyph atlas: for every glyph its curves, and for every horizontal and
//! vertical band of its box the curves that a ray in it can meet.
use crate::fpu::{Fpu32, Op32};
use crate::literal::{INFINITY, NEG_INFINITY, ONE_TENTH, ONE_TWENTIETH, ZERO};
use crate::number::{lit, Real32};
use crate::order::{
    as_ints, before, descending_order, gather, is_descending_order, law_order_exists,
    law_order_lists_every_item_once, rank, sort_descending,
};
use crate::slug::outline::GpuCurve;
use std::collections::HashMap;
use vstd::prelude::*;

verus! {

broadcast use vstd::std_specs::hash::group_hash_axioms;

/// The number of bands each way.
pub const NUM_BANDS: usize = 8;

/// The number of bands of a glyph.
pub const BANDS_PER_GLYPH: usize = 16;

/// 0.0001: a curve that extends less than this is flat.
pub const MIN_RISE: u32 = 0x38d1_b717;

/// 0.001: the least extent of a glyph.
pub const MIN_SIZE: u32 = 0x3a83_126f;

/// The least coordinate of a curve's control points; axis 0 is x, axis 1 is y.
pub open spec fn curve_low(c: GpuCurve, axis: int) -> Real32 {
    c.p12[axis].min(c.p12[2 + axis]).min(c.p3[axis])
}

/// The greatest coordinate of a curve's control points.
pub open spec fn curve_high(c: GpuCurve, axis: int) -> Real32 {
    c.p12[axis].max(c.p12[2 + axis]).max(c.p3[axis])
}

/// The curve does not extend along the axis.
pub open spec fn curve_flat<F: Fn(Op32) -> Real32>(u: &Fpu32<F>, c: GpuCurve, axis: int) -> bool {
    &&& u.sub(c.p12[axis], c.p12[2 + axis]).abs().lt(lit(MIN_RISE))
    &&& u.sub(c.p12[2 + axis], c.p3[axis]).abs().lt(lit(MIN_RISE))
}

/// The least coordinate of all curves, infinity where there is none.
pub open spec fn least(curves: Seq<GpuCurve>, axis: int) -> Real32
    decreases curves.len(),
{
    if curves.len() == 0 {
        lit(INFINITY)
    } else {
        let c = curves.last();
        least(curves.drop_last(), axis).min(c.p12[axis]).min(c.p12[2 + axis]).min(c.p3[axis])
    }
}

/// The greatest coordinate of all curves, minus infinity where there is none.
pub open spec fn greatest(curves: Seq<GpuCurve>, axis: int) -> Real32
    decreases curves.len(),
{
    if curves.len() == 0 {
        lit(NEG_INFINITY)
    } else {
        let c = curves.last();
        greatest(curves.drop_last(), axis).max(c.p12[axis]).max(c.p12[2 + axis]).max(c.p3[axis])
    }
}

/// The box around all control points: `[x_min, y_min, x_max, y_max]`; empty
/// without curves.
pub open spec fn bounds(curves: Seq<GpuCurve>) -> [Real32; 4] {
    if curves.len() == 0 {
        [lit(ZERO), lit(ZERO), lit(ZERO), lit(ZERO)]
    } else {
        [least(curves, 0), least(curves, 1), greatest(curves, 0), greatest(curves, 1)]
    }
}

pub fn curve_bounds(curves: &Vec<GpuCurve>) -> (r: [Real32; 4])
    ensures
        r == bounds(curves@),
{
    let mut min_x = lit(INFINITY);
    let mut min_y = lit(INFINITY);
    let mut max_x = lit(NEG_INFINITY);
    let mut max_y = lit(NEG_INFINITY);
    for i in 0..curves.len()
        invariant
            min_x == least(curves@.take(i as int), 0),
            min_y == least(curves@.take(i as int), 1),
            max_x == greatest(curves@.take(i as int), 0),
            max_y == greatest(curves@.take(i as int), 1),
    {
        let c = &curves[i];
        assert(curves@.take(i + 1).drop_last() =~= curves@.take(i as int));
        min_x = min_x.min(c.p12[0]).min(c.p12[2]).min(c.p3[0]);
        min_y = min_y.min(c.p12[1]).min(c.p12[3]).min(c.p3[1]);
        max_x = max_x.max(c.p12[0]).max(c.p12[2]).max(c.p3[0]);
        max_y = max_y.max(c.p12[1]).max(c.p12[3]).max(c.p3[1]);
    }
    assert(curves@.take(curves.len() as int) =~= curves@);
    if curves.len() == 0 {
        let zero = lit(ZERO);
        [zero, zero, zero, zero]
    } else {
        [min_x, min_y, max_x, max_y]
    }
}

/// `x` is a coordinate of one of the curve's control points.
pub open spec fn has_coordinate(c: GpuCurve, axis: int, x: Real32) -> bool {
    x == c.p12[axis] || x == c.p12[2 + axis] || x == c.p3[axis]
}

/// `x` is a coordinate of a control point of one of the curves.
pub open spec fn is_coordinate(curves: Seq<GpuCurve>, axis: int, x: Real32) -> bool {
    exists|i: int| 0 <= i < curves.len() && #[trigger] has_coordinate(curves[i], axis, x)
}

proof fn lemma_least_and_greatest(curves: Seq<GpuCurve>, axis: int)
    ensures
        !least(curves, axis).is_nan(),
        !greatest(curves, axis).is_nan(),
        forall|i: int, x: Real32|
            0 <= i < curves.len() && !x.is_nan() && #[trigger] has_coordinate(curves[i], axis, x)
                ==> least(curves, axis).le(x) && x.le(greatest(curves, axis)),
    decreases curves.len(),
{
    if curves.len() > 0 {
        let front = curves.drop_last();
        lemma_least_and_greatest(front, axis);
        assert forall|i: int, x: Real32|
            0 <= i < curves.len() && !x.is_nan() && #[trigger] has_coordinate(
                curves[i],
                axis,
                x,
            ) implies least(curves, axis).le(x) && x.le(greatest(curves, axis)) by {
            if i < front.len() {
                assert(has_coordinate(front[i], axis, x));
            }
        }
    }
}

/// Least and greatest are coordinates, or what they start from.
proof fn lemma_least_and_greatest_attained(curves: Seq<GpuCurve>, axis: int)
    ensures
        least(curves, axis) == lit(INFINITY) || is_coordinate(curves, axis, least(curves, axis)),
        greatest(curves, axis) == lit(NEG_INFINITY) || is_coordinate(
            curves,
            axis,
            greatest(curves, axis),
        ),
    decreases curves.len(),
{
    if curves.len() > 0 {
        let front = curves.drop_last();
        let n = curves.len() - 1;
        lemma_least_and_greatest_attained(front, axis);
        assert forall|x: Real32|
            is_coordinate(front, axis, x) || has_coordinate(
                curves[n],
                axis,
                x,
            ) implies is_coordinate(curves, axis, x) by {
            if is_coordinate(front, axis, x) {
                let i = choose|i: int|
                    0 <= i < front.len() && #[trigger] has_coordinate(front[i], axis, x);
                assert(has_coordinate(curves[i], axis, x));
            }
        }
        let lo = least(curves, axis);
        let hi = greatest(curves, axis);
        assert(lo == least(front, axis) || has_coordinate(curves[n], axis, lo));
        assert(hi == greatest(front, axis) || has_coordinate(curves[n], axis, hi));
    }
}

/// The box of a glyph with curves fits around the control points: no coordinate
/// that is a number lies outside, and where one of them is finite, every side
/// of the box along this axis is the coordinate of a control point.
pub proof fn law_bounds(curves: Seq<GpuCurve>, axis: int)
    requires
        curves.len() > 0,
        0 <= axis < 2,
    ensures
        forall|i: int, x: Real32|
            0 <= i < curves.len() && !x.is_nan() && #[trigger] has_coordinate(curves[i], axis, x)
                ==> bounds(curves)[axis].le(x) && x.le(bounds(curves)[2 + axis]),
        forall|x: Real32| #[trigger]
            is_coordinate(curves, axis, x) && x.is_finite() ==> is_coordinate(
                curves,
                axis,
                bounds(curves)[axis],
            ) && is_coordinate(curves, axis, bounds(curves)[2 + axis]),
{
    lemma_least_and_greatest(curves, axis);
    lemma_least_and_greatest_attained(curves, axis);
}

/// The width of a band of a glyph that reaches from `lo` to `hi`.
pub open spec fn band_step<F: Fn(Op32) -> Real32>(
    u: &Fpu32<F>,
    lo: Real32,
    hi: Real32,
) -> Real32 {
    u.div(u.sub(hi, lo).max(lit(MIN_SIZE)), u.from_uint(NUM_BANDS as u64))
}

/// How far a band reaches into its neighbours.
pub open spec fn band_slack<F: Fn(Op32) -> Real32>(u: &Fpu32<F>, step: Real32) -> Real32 {
    u.add(u.mul(step, lit(ONE_TWENTIETH)), lit(ONE_TENTH))
}

/// The lower end of band `b`.
pub open spec fn band_low<F: Fn(Op32) -> Real32>(
    u: &Fpu32<F>,
    lo: Real32,
    hi: Real32,
    b: int,
) -> Real32 {
    let step = band_step(u, lo, hi);
    u.sub(u.add(lo, u.mul(u.from_uint(b as u64), step)), band_slack(u, step))
}

/// The upper end of band `b`.
pub open spec fn band_high<F: Fn(Op32) -> Real32>(
    u: &Fpu32<F>,
    lo: Real32,
    hi: Real32,
    b: int,
) -> Real32 {
    let step = band_step(u, lo, hi);
    u.add(u.add(lo, u.mul(u.from_uint((b + 1) as u64), step)), band_slack(u, step))
}

/// The curve extends along the axis and reaches into `lo` to `hi` there.
pub open spec fn crosses<F: Fn(Op32) -> Real32>(
    u: &Fpu32<F>,
    c: GpuCurve,
    axis: int,
    lo: Real32,
    hi: Real32,
) -> bool {
    &&& !curve_flat(u, c, axis)
    &&& lo.le(curve_high(c, axis))
    &&& curve_low(c, axis).le(hi)
}

/// The numbers of the curves that reach into `lo` to `hi` along the axis.
pub open spec fn crossing<F: Fn(Op32) -> Real32>(
    u: &Fpu32<F>,
    curves: Seq<GpuCurve>,
    axis: int,
    lo: Real32,
    hi: Real32,
) -> Seq<int> {
    Seq::new(curves.len(), |i: int| i).filter(|i: int| crosses(u, curves[i], axis, lo, hi))
}

/// The keys by which listed curves are sorted: how far they reach along `axis`.
pub open spec fn reach_ranks(curves: Seq<GpuCurve>, list: Seq<int>, axis: int) -> Seq<i64> {
    list.map_values(|i: int| rank(curve_high(curves[i], axis)))
}

/// The listed curves can be sorted by their reach: there are not two of them, or
/// every reach is a number.
pub open spec fn sortable(curves: Seq<GpuCurve>, list: Seq<int>, axis: int) -> bool {
    list.len() <= 1 || forall|k: int|
        0 <= k < list.len() ==> !curve_high(curves[#[trigger] list[k]], axis).is_nan()
}

/// The listed curves, the one that reaches farthest along `axis` first.
pub open spec fn farthest_first(curves: Seq<GpuCurve>, list: Seq<int>, axis: int) -> Seq<int> {
    gather(list, descending_order(reach_ranks(curves, list, axis)))
}

/// The axis across which band `k` of a glyph cuts: the first eight bands are
/// horizontal and cut along y, the others are vertical and cut along x.
pub open spec fn band_axis(k: int) -> int {
    if k < NUM_BANDS {
        1
    } else {
        0
    }
}

/// The curves that band `k` of a glyph holds, unsorted.
pub open spec fn band_crossing<F: Fn(Op32) -> Real32>(
    u: &Fpu32<F>,
    curves: Seq<GpuCurve>,
    k: int,
) -> Seq<int> {
    let axis = band_axis(k);
    let lo = bounds(curves)[axis];
    let hi = bounds(curves)[2 + axis];
    let b = k % (NUM_BANDS as int);
    crossing(u, curves, axis, band_low(u, lo, hi, b), band_high(u, lo, hi, b))
}

/// The curves that band `k` of a glyph holds: a horizontal band sorts them from
/// right to left, a vertical one from top to bottom.
pub open spec fn band_list<F: Fn(Op32) -> Real32>(
    u: &Fpu32<F>,
    curves: Seq<GpuCurve>,
    k: int,
) -> Seq<int> {
    farthest_first(curves, band_crossing(u, curves, k), 1 - band_axis(k))
}

/// Every band of the glyph can be sorted.
pub open spec fn glyph_sortable<F: Fn(Op32) -> Real32>(
    u: &Fpu32<F>,
    curves: Seq<GpuCurve>,
) -> bool {
    forall|k: int|
        0 <= k < BANDS_PER_GLYPH ==> sortable(
            curves,
            #[trigger] band_crossing(u, curves, k),
            1 - band_axis(k),
        )
}

fn reach(c: &GpuCurve, axis: usize) -> (r: Real32)
    requires
        axis < 2,
    ensures
        r == curve_high(*c, axis as int),
{
    c.p12[axis].max(c.p12[2 + axis]).max(c.p3[axis])
}

fn curve_crosses<F: Fn(Op32) -> Real32>(
    u: &Fpu32<F>,
    c: &GpuCurve,
    axis: usize,
    lo: Real32,
    hi: Real32,
) -> (r: bool)
    requires
        axis < 2,
    ensures
        r == crosses(u, *c, axis as int, lo, hi),
{
    let (a, b, d) = (c.p12[axis], c.p12[2 + axis], c.p3[axis]);
    if u.sub(a, b).abs().lt(lit(MIN_RISE)) && u.sub(b, d).abs().lt(lit(MIN_RISE)) {
        return false;
    }
    lo.le(a.max(b).max(d)) && a.min(b).min(d).le(hi)
}

fn list_crossing<F: Fn(Op32) -> Real32>(
    u: &Fpu32<F>,
    curves: &Vec<GpuCurve>,
    axis: usize,
    lo: Real32,
    hi: Real32,
) -> (r: Vec<usize>)
    requires
        axis < 2,
    ensures
        as_ints(r@) == crossing(u, curves@, axis as int, lo, hi),
        forall|j: int| 0 <= j < r.len() ==> #[trigger] r[j] < curves.len(),
{
    let mut r: Vec<usize> = Vec::new();
    let ghost all = Seq::new(curves.len() as nat, |i: int| i);
    let ghost pred = |i: int| crosses(u, curves@[i], axis as int, lo, hi);
    for i in 0..curves.len()
        invariant
            axis < 2,
            all == Seq::new(curves.len() as nat, |i: int| i),
            pred == (|i: int| crosses(u, curves@[i], axis as int, lo, hi)),
            as_ints(r@) == all.take(i as int).filter(pred),
            forall|j: int| 0 <= j < r.len() ==> #[trigger] r[j] < curves.len(),
    {
        proof {
            reveal(Seq::filter);
            assert(all.take(i + 1).drop_last() =~= all.take(i as int));
        }
        let ghost before = as_ints(r@);
        if curve_crosses(u, &curves[i], axis, lo, hi) {
            r.push(i);
            assert(as_ints(r@) =~= before.push(i as int));
        }
    }
    assert(all.take(curves.len() as int) =~= all);
    r
}

/// The curves that band `k` of a glyph in this box holds, unsorted.
fn list_band<F: Fn(Op32) -> Real32>(
    u: &Fpu32<F>,
    curves: &Vec<GpuCurve>,
    bbox: &[Real32; 4],
    k: usize,
) -> (r: Vec<usize>)
    requires
        k < BANDS_PER_GLYPH,
        *bbox == bounds(curves@),
    ensures
        as_ints(r@) == band_crossing(u, curves@, k as int),
        forall|j: int| 0 <= j < r.len() ==> #[trigger] r[j] < curves.len(),
{
    let axis: usize = if k < NUM_BANDS {
        1
    } else {
        0
    };
    let lo = bbox[axis];
    let hi = bbox[2 + axis];
    let b: usize = k % NUM_BANDS;
    let step = u.div(u.sub(hi, lo).max(lit(MIN_SIZE)), u.from_uint(NUM_BANDS as u64));
    let slack = u.add(u.mul(step, lit(ONE_TWENTIETH)), lit(ONE_TENTH));
    let b_min = u.sub(u.add(lo, u.mul(u.from_uint(b as u64), step)), slack);
    let b_max = u.add(u.add(lo, u.mul(u.from_uint((b + 1) as u64), step)), slack);
    list_crossing(u, curves, axis, b_min, b_max)
}

/// Every band of a glyph with these curves can be sorted.
pub fn outline_sortable<F: Fn(Op32) -> Real32>(u: &Fpu32<F>, curves: &Vec<GpuCurve>) -> (r: bool)
    ensures
        r == glyph_sortable(u, curves@),
{
    let bbox = curve_bounds(curves);
    for k in 0..BANDS_PER_GLYPH
        invariant
            bbox == bounds(curves@),
            forall|j: int|
                0 <= j < k ==> sortable(
                    curves@,
                    #[trigger] band_crossing(u, curves@, j),
                    1 - band_axis(j),
                ),
    {
        let list = list_band(u, curves, &bbox, k);
        let ghost want = band_crossing(u, curves@, k as int);
        let axis: usize = if k < NUM_BANDS {
            0
        } else {
            1
        };
        if list.len() > 1 {
            for j in 0..list.len()
                invariant
                    axis == 1 - band_axis(k as int),
                    k < BANDS_PER_GLYPH,
                    list.len() > 1,
                    want == as_ints(list@),
                    want == band_crossing(u, curves@, k as int),
                    forall|i: int| 0 <= i < list.len() ==> #[trigger] list[i] < curves.len(),
                    forall|i: int|
                        0 <= i < j ==> !curve_high(curves@[#[trigger] want[i]], axis as int).is_nan(),
            {
                assert(want[j as int] == list[j as int]);
                if reach(&curves[list[j]], axis).is_nan() {
                    return false;
                }
            }
        }
    }
    true
}

/// What an atlas holds.
#[verifier::ext_equal]
pub struct SlugAtlasView {
    /// The curves of all glyphs.
    pub curves: Seq<GpuCurve>,
    /// The curves of all bands of all glyphs, by their numbers.
    pub indices: Seq<u32>,
    /// The box of each glyph.
    pub boxes: Seq<[Real32; 4]>,
    /// For each band the place of its first entry in `indices` and their number;
    /// the bands of glyph `g` start at `16 g`.
    pub bands: Seq<[u32; 2]>,
    /// For each character the number of its glyph.
    pub ids: Map<u32, u32>,
}

/// A box without extent, and a band without curves.
pub open spec fn no_box() -> [Real32; 4] {
    [lit(ZERO), lit(ZERO), lit(ZERO), lit(ZERO)]
}

/// The numbers of the listed curves of a glyph whose curves start at `start`.
pub open spec fn numbered(list: Seq<int>, start: int) -> Seq<u32> {
    list.map_values(|i: int| (start + i) as u32)
}

impl SlugAtlasView {
    pub open spec fn empty() -> SlugAtlasView {
        SlugAtlasView {
            curves: seq![],
            indices: seq![],
            boxes: seq![],
            bands: seq![],
            ids: Map::empty(),
        }
    }

    /// A band is added with the listed curves, which are numbered from `start`.
    pub open spec fn with_band(self, start: int, list: Seq<int>) -> SlugAtlasView {
        SlugAtlasView {
            indices: self.indices + numbered(list, start),
            bands: self.bands.push([self.indices.len() as u32, list.len() as u32]),
            ..self
        }
    }

    /// The first `n` bands of a glyph are added.
    pub open spec fn with_bands<F: Fn(Op32) -> Real32>(
        self,
        u: &Fpu32<F>,
        start: int,
        curves: Seq<GpuCurve>,
        n: int,
    ) -> SlugAtlasView
        decreases n,
    {
        if n <= 0 {
            self
        } else {
            self.with_bands(u, start, curves, n - 1).with_band(start, band_list(u, curves, n - 1))
        }
    }

    /// The glyph of `ch` is added.
    pub open spec fn with_glyph<F: Fn(Op32) -> Real32>(
        self,
        u: &Fpu32<F>,
        ch: char,
        curves: Seq<GpuCurve>,
    ) -> SlugAtlasView {
        let started = SlugAtlasView {
            curves: self.curves + curves,
            boxes: self.boxes.push(bounds(curves)),
            ..self
        };
        let banded = started.with_bands(
            u,
            self.curves.len() as int,
            curves,
            BANDS_PER_GLYPH as int,
        );
        SlugAtlasView { ids: banded.ids.insert(ch as u32, self.boxes.len() as u32), ..banded }
    }

    /// A glyph without curves stands for `ch`, which the font does not have.
    pub open spec fn with_blank(self, ch: char) -> SlugAtlasView {
        SlugAtlasView {
            boxes: self.boxes.push(no_box()),
            bands: self.bands + Seq::new(BANDS_PER_GLYPH as nat, |k: int| [0u32, 0u32]),
            ids: self.ids.insert(ch as u32, self.boxes.len() as u32),
            ..self
        }
    }
}

pub struct SlugAtlas {
    pub curves: Vec<GpuCurve>,
    pub indices: Vec<u32>,
    pub boxes: Vec<[Real32; 4]>,
    pub bands: Vec<[u32; 2]>,
    pub ids: HashMap<u32, u32>,
}

impl View for SlugAtlas {
    type V = SlugAtlasView;

    open spec fn view(&self) -> SlugAtlasView {
        SlugAtlasView {
            curves: self.curves@,
            indices: self.indices@,
            boxes: self.boxes@,
            bands: self.bands@,
            ids: self.ids@,
        }
    }
}

impl SlugAtlas {
    pub fn new() -> (r: Self)
        ensures
            r@ == SlugAtlasView::empty(),
    {
        SlugAtlas {
            curves: Vec::new(),
            indices: Vec::new(),
            boxes: Vec::new(),
            bands: Vec::new(),
            ids: HashMap::new(),
        }
    }

    /// Adds band `k` of a glyph whose curves are numbered from `start`.
    fn push_band<F: Fn(Op32) -> Real32>(
        &mut self,
        u: &Fpu32<F>,
        start: usize,
        curves: &Vec<GpuCurve>,
        bbox: &[Real32; 4],
        k: usize,
    )
        requires
            k < BANDS_PER_GLYPH,
            *bbox == bounds(curves@),
            start + curves.len() <= 0x1_0000_0000,
        ensures
            final(self)@ == old(self)@.with_band(start as int, band_list(u, curves@, k as int)),
    {
        let list = list_band(u, curves, bbox, k);
        let axis: usize = if k < NUM_BANDS {
            0
        } else {
            1
        };
        let ghost l = as_ints(list@);
        let mut keys: Vec<i64> = Vec::new();
        for j in 0..list.len()
            invariant
                axis < 2,
                l == as_ints(list@),
                forall|i: int| 0 <= i < list.len() ==> #[trigger] list[i] < curves.len(),
                keys@ == reach_ranks(curves@, l.take(j as int), axis as int),
        {
            keys.push(rank(reach(&curves[list[j]], axis)));
            assert(l[j as int] == list[j as int]);
            assert(keys@ =~= reach_ranks(curves@, l.take(j + 1), axis as int));
        }
        assert(l.take(list.len() as int) =~= l);

        let order = sort_descending(&keys);
        let ghost p = descending_order(keys@);
        let ghost sorted = numbered(gather(l, p), start as int);
        let offset: u32 = self.indices.len() as u32;
        let count: u32 = list.len() as u32;
        let ghost held = self.indices@;
        for j in 0..order.len()
            invariant
                p == as_ints(order@),
                is_descending_order(keys@, p),
                keys.len() == list.len(),
                l == as_ints(list@),
                forall|i: int| 0 <= i < list.len() ==> #[trigger] list[i] < curves.len(),
                start + curves.len() <= 0x1_0000_0000,
                sorted == numbered(gather(l, p), start as int),
                self.indices@ == held + sorted.take(j as int),
                self.curves@ == old(self).curves@,
                self.boxes@ == old(self).boxes@,
                self.bands@ == old(self).bands@,
                self.ids@ == old(self).ids@,
        {
            assert(p[j as int] == order[j as int]);
            let i: usize = list[order[j]];
            assert(l[p[j as int]] == i);
            self.indices.push((start + i) as u32);
            assert(sorted.take(j + 1) =~= sorted.take(j as int).push((start + i) as u32));
        }
        assert(sorted.take(sorted.len() as int) =~= sorted);
        self.bands.push([offset, count]);
    }

    /// Adds the glyph of `ch`, which is drawn with these curves.
    pub fn add_glyph<F: Fn(Op32) -> Real32>(
        &mut self,
        u: &Fpu32<F>,
        ch: char,
        curves: &Vec<GpuCurve>,
    )
        requires
            glyph_sortable(u, curves@),
            old(self).curves.len() + curves.len() <= 0x1_0000_0000,
        ensures
            final(self)@ == old(self)@.with_glyph(u, ch, curves@),
    {
        let glyph: u32 = self.boxes.len() as u32;
        let start: usize = self.curves.len();
        for i in 0..curves.len()
            invariant
                self.curves@ == old(self).curves@ + curves@.take(i as int),
                self.indices@ == old(self).indices@,
                self.boxes@ == old(self).boxes@,
                self.bands@ == old(self).bands@,
                self.ids@ == old(self).ids@,
        {
            self.curves.push(curves[i]);
            assert(curves@.take(i + 1) =~= curves@.take(i as int).push(curves@[i as int]));
        }
        assert(curves@.take(curves.len() as int) =~= curves@);
        let bbox = curve_bounds(curves);
        self.boxes.push(bbox);
        let ghost started = self@;
        for k in 0..BANDS_PER_GLYPH
            invariant
                bbox == bounds(curves@),
                start + curves.len() <= 0x1_0000_0000,
                self@ == started.with_bands(u, start as int, curves@, k as int),
        {
            self.push_band(u, start, curves, &bbox, k);
        }
        self.ids.insert(ch as u32, glyph);
    }

    /// Adds a glyph without curves for `ch`.
    pub fn add_blank(&mut self, ch: char)
        ensures
            final(self)@ == old(self)@.with_blank(ch),
    {
        let zero = lit(ZERO);
        let glyph: u32 = self.boxes.len() as u32;
        self.boxes.push([zero, zero, zero, zero]);
        let ghost blank = Seq::new(BANDS_PER_GLYPH as nat, |k: int| [0u32, 0u32]);
        for k in 0..BANDS_PER_GLYPH
            invariant
                blank == Seq::new(BANDS_PER_GLYPH as nat, |k: int| [0u32, 0u32]),
                self.curves@ == old(self).curves@,
                self.indices@ == old(self).indices@,
                self.boxes@ == old(self).boxes@.push(no_box()),
                self.bands@ == old(self).bands@ + blank.take(k as int),
                self.ids@ == old(self).ids@,
        {
            self.bands.push([0, 0]);
            assert(blank.take(k + 1) =~= blank.take(k as int).push([0u32, 0u32]));
        }
        assert(blank.take(BANDS_PER_GLYPH as int) =~= blank);
        self.ids.insert(ch as u32, glyph);
    }
}

impl SlugAtlasView {
    /// All numbers fit the 32 bits that the shader reads them in.
    pub open spec fn fits(self) -> bool {
        self.indices.len() <= u32::MAX && self.boxes.len() <= u32::MAX
    }

    pub open spec fn band_end(self, k: int) -> int {
        self.bands[k][0] + self.bands[k][1]
    }

    /// The curve numbers that the entry of band `k` refers to.
    pub open spec fn band(self, k: int) -> Seq<u32> {
        self.indices.subrange(self.bands[k][0] as int, self.band_end(k))
    }

    /// Every reference leads somewhere: each glyph has its sixteen bands, each
    /// character its glyph, each band its entries and each entry its curve.
    pub open spec fn well_formed(self) -> bool {
        &&& self.bands.len() == BANDS_PER_GLYPH * self.boxes.len()
        &&& forall|c: u32| #[trigger]
            self.ids.contains_key(c) ==> self.ids[c] < self.boxes.len()
        &&& forall|k: int|
            0 <= k < self.bands.len() ==> #[trigger] self.band_end(k) <= self.indices.len()
        &&& forall|i: int|
            0 <= i < self.indices.len() ==> #[trigger] self.indices[i] < self.curves.len()
    }
}

/// The curves that a band lists are curves of the glyph, each listed once, and
/// it lists a curve exactly if the curve crosses the band.
pub proof fn law_band_list<F: Fn(Op32) -> Real32>(u: &Fpu32<F>, curves: Seq<GpuCurve>, k: int)
    ensures
        ({
            let axis = band_axis(k);
            let lo = bounds(curves)[axis];
            let hi = bounds(curves)[2 + axis];
            let b = k % (NUM_BANDS as int);
            let list = band_list(u, curves, k);
            &&& list.len() <= curves.len()
            &&& list.no_duplicates()
            &&& forall|i: int| #[trigger]
                list.contains(i) <==> 0 <= i < curves.len() && crosses(
                    u,
                    curves[i],
                    axis,
                    band_low(u, lo, hi, b),
                    band_high(u, lo, hi, b),
                )
        }),
{
    let axis = band_axis(k);
    let lo = bounds(curves)[axis];
    let hi = bounds(curves)[2 + axis];
    let b = k % (NUM_BANDS as int);
    let low = band_low(u, lo, hi, b);
    let high = band_high(u, lo, hi, b);
    let all = Seq::new(curves.len(), |i: int| i);
    let pred = |i: int| crosses(u, curves[i], axis, low, high);
    let found = band_crossing(u, curves, k);
    let keys = reach_ranks(curves, found, 1 - axis);
    let p = descending_order(keys);
    let list = band_list(u, curves, k);
    assert(found == all.filter(pred));
    law_order_exists(keys);
    law_order_lists_every_item_once(keys, p);
    all.lemma_filter_len(pred);
    lemma_filter_of_numbers(curves.len(), pred);
    assert forall|i: int| #[trigger] list.contains(i) <==> found.contains(i) by {
        if list.contains(i) {
            let x = choose|x: int| 0 <= x < list.len() && list[x] == i;
            assert(found[p[x]] == i);
        }
        if found.contains(i) {
            let a = choose|a: int| 0 <= a < found.len() && found[a] == i;
            assert(p.contains(a));
            let x = choose|x: int| 0 <= x < p.len() && p[x] == a;
            assert(list[x] == i);
        }
    }
    assert forall|x: int, y: int|
        0 <= x < list.len() && 0 <= y < list.len() && x != y implies list[x] != list[y] by {
        assert(p[x] != p[y]);
        assert(list[x] == found[p[x]]);
        assert(list[y] == found[p[y]]);
    }
    assert forall|i: int| #[trigger] list.contains(i) <==> 0 <= i < curves.len() && crosses(
        u,
        curves[i],
        axis,
        low,
        high,
    ) by {
        assert(found.contains(i) <==> 0 <= i < curves.len() && pred(i));
    }
}

/// Filtering the numbers below `n` gives each number that passes, once.
proof fn lemma_filter_of_numbers(n: nat, pred: spec_fn(int) -> bool)
    ensures
        ({
            let r = Seq::new(n, |i: int| i).filter(pred);
            &&& r.no_duplicates()
            &&& r.len() <= n
            &&& forall|i: int| #[trigger] r.contains(i) <==> 0 <= i < n && pred(i)
        }),
    decreases n,
{
    reveal(Seq::filter);
    let all = Seq::new(n, |i: int| i);
    let r = all.filter(pred);
    if n > 0 {
        let m = (n - 1) as nat;
        let front = Seq::new(m, |i: int| i);
        lemma_filter_of_numbers(m, pred);
        assert(all.drop_last() =~= front);
        let q = front.filter(pred);
        if pred(n - 1) {
            assert(r == q.push(n - 1));
            assert forall|i: int| #[trigger] r.contains(i) <==> 0 <= i < n && pred(i) by {
                if r.contains(i) {
                    let x = choose|x: int| 0 <= x < r.len() && r[x] == i;
                    if x < q.len() {
                        assert(q[x] == i);
                        assert(q.contains(i));
                    }
                }
                if 0 <= i < n && pred(i) {
                    if i == n - 1 {
                        assert(r[q.len() as int] == i);
                    } else {
                        assert(q.contains(i));
                        let x = choose|x: int| 0 <= x < q.len() && q[x] == i;
                        assert(r[x] == i);
                    }
                }
            }
            assert(!q.contains(n - 1));
            assert forall|x: int, y: int|
                0 <= x < r.len() && 0 <= y < r.len() && x != y implies r[x] != r[y] by {
                if x == q.len() && r[x] == r[y] {
                    assert(q[y] == n - 1);
                }
                if y == q.len() && r[x] == r[y] {
                    assert(q[x] == n - 1);
                }
            }
        } else {
            assert(r == q);
            assert forall|i: int| #[trigger] r.contains(i) <==> 0 <= i < n && pred(i) by {
            }
        }
    } else {
        assert(r =~= Seq::empty());
        assert forall|i: int| #[trigger] r.contains(i) <==> 0 <= i < n && pred(i) by {
        }
    }
}

/// In a band that can be sorted no curve has a later one that reaches farther:
/// a horizontal band goes from right to left, a vertical one from top to bottom.
pub proof fn law_band_is_sorted<F: Fn(Op32) -> Real32>(u: &Fpu32<F>, curves: Seq<GpuCurve>, k: int)
    ensures
        forall|i: int, j: int|
            0 <= i < j < band_list(u, curves, k).len() ==> !curve_high(
                curves[#[trigger] band_list(u, curves, k)[i]],
                1 - band_axis(k),
            ).lt(curve_high(curves[#[trigger] band_list(u, curves, k)[j]], 1 - band_axis(k))),
{
    let found = band_crossing(u, curves, k);
    let axis = 1 - band_axis(k);
    let keys = reach_ranks(curves, found, axis);
    let p = descending_order(keys);
    let list = band_list(u, curves, k);
    law_order_exists(keys);
    assert forall|i: int, j: int| 0 <= i < j < list.len() implies !curve_high(
        curves[#[trigger] list[i]],
        axis,
    ).lt(curve_high(curves[#[trigger] list[j]], axis)) by {
        assert(before(keys, p[i], p[j]));
        assert(keys[p[i]] == rank(curve_high(curves[list[i]], axis)));
        assert(keys[p[j]] == rank(curve_high(curves[list[j]], axis)));
    }
}

proof fn lemma_with_bands<F: Fn(Op32) -> Real32>(
    v: SlugAtlasView,
    u: &Fpu32<F>,
    start: int,
    curves: Seq<GpuCurve>,
    n: int,
)
    requires
        0 <= n,
        0 <= start,
        start + curves.len() <= 0x1_0000_0000,
        start + curves.len() <= v.curves.len(),
        v.with_bands(u, start, curves, n).indices.len() <= u32::MAX,
        forall|k: int| 0 <= k < v.bands.len() ==> #[trigger] v.band_end(k) <= v.indices.len(),
        forall|i: int| 0 <= i < v.indices.len() ==> #[trigger] v.indices[i] < v.curves.len(),
    ensures
        ({
            let r = v.with_bands(u, start, curves, n);
            &&& r.bands.len() == v.bands.len() + n
            &&& r.curves == v.curves && r.boxes == v.boxes && r.ids == v.ids
            &&& forall|k: int| 0 <= k < r.bands.len() ==> #[trigger] r.band_end(k) <= r.indices.len()
            &&& forall|i: int| 0 <= i < r.indices.len() ==> #[trigger] r.indices[i] < r.curves.len()
            &&& forall|k: int| 0 <= k < v.bands.len() ==> #[trigger] r.band(k) == v.band(k)
            &&& forall|k: int|
                v.bands.len() <= k < v.bands.len() + n ==> #[trigger] r.band(k) == numbered(
                    band_list(u, curves, k - v.bands.len()),
                    start,
                )
            &&& v.indices.len() <= r.indices.len()
        }),
    decreases n,
{
    if n > 0 {
        let w = v.with_bands(u, start, curves, n - 1);
        let r = v.with_bands(u, start, curves, n);
        let list = band_list(u, curves, n - 1);
        lemma_with_bands(v, u, start, curves, n - 1);
        law_band_list(u, curves, n - 1);
        let m = w.bands.len() as int;
        assert(r.indices == w.indices + numbered(list, start));
        assert(r.bands[m] == [w.indices.len() as u32, list.len() as u32]);
        assert forall|k: int| 0 <= k < r.bands.len() implies #[trigger] r.band_end(k)
            <= r.indices.len() by {
            if k < m {
                assert(r.bands[k] == w.bands[k]);
                assert(w.band_end(k) <= w.indices.len());
            }
        }
        assert forall|i: int| 0 <= i < r.indices.len() implies #[trigger] r.indices[i]
            < r.curves.len() by {
            if i < w.indices.len() {
                assert(r.indices[i] == w.indices[i]);
            } else {
                let x = list[i - w.indices.len()];
                assert(list.contains(x));
                assert(r.indices[i] == start + x);
            }
        }
        assert(r.band(m) =~= numbered(list, start));
        assert forall|k: int| 0 <= k < m implies #[trigger] r.band(k) == w.band(k) by {
            assert(r.bands[k] == w.bands[k]);
            assert(w.band_end(k) <= w.indices.len());
            assert(r.band(k) =~= w.band(k));
        }
    }
}

/// Adding a glyph takes nothing away.
pub proof fn lemma_glyph_grows<F: Fn(Op32) -> Real32>(
    v: SlugAtlasView,
    u: &Fpu32<F>,
    ch: char,
    curves: Seq<GpuCurve>,
)
    ensures
        v.indices.len() <= v.with_glyph(u, ch, curves).indices.len(),
        v.with_glyph(u, ch, curves).boxes.len() == v.boxes.len() + 1,
        v.with_glyph(u, ch, curves).ids == v.ids.insert(ch as u32, v.boxes.len() as u32),
{
    let started = SlugAtlasView {
        curves: v.curves + curves,
        boxes: v.boxes.push(bounds(curves)),
        ..v
    };
    lemma_bands_grow(started, u, v.curves.len() as int, curves, BANDS_PER_GLYPH as int);
}

proof fn lemma_bands_grow<F: Fn(Op32) -> Real32>(
    v: SlugAtlasView,
    u: &Fpu32<F>,
    start: int,
    curves: Seq<GpuCurve>,
    n: int,
)
    ensures
        v.indices.len() <= v.with_bands(u, start, curves, n).indices.len(),
        v.with_bands(u, start, curves, n).boxes == v.boxes,
        v.with_bands(u, start, curves, n).ids == v.ids,
    decreases n,
{
    if n > 0 {
        lemma_bands_grow(v, u, start, curves, n - 1);
    }
}

/// What is written is read back: as long as the numbers fit, the sixteen bands
/// of an added glyph hold exactly its band lists, its box is the box around its
/// curves, all earlier glyphs keep theirs, and every reference leads somewhere.
pub proof fn law_glyph_reads_back<F: Fn(Op32) -> Real32>(
    v: SlugAtlasView,
    u: &Fpu32<F>,
    ch: char,
    curves: Seq<GpuCurve>,
)
    requires
        v.well_formed(),
        v.curves.len() + curves.len() <= 0x1_0000_0000,
        v.with_glyph(u, ch, curves).fits(),
    ensures
        ({
            let r = v.with_glyph(u, ch, curves);
            let g = v.boxes.len() as int;
            &&& r.well_formed()
            &&& r.ids == v.ids.insert(ch as u32, g as u32)
            &&& r.boxes == v.boxes.push(bounds(curves))
            &&& r.curves == v.curves + curves
            &&& forall|k: int|
                0 <= k < BANDS_PER_GLYPH ==> #[trigger] r.band(BANDS_PER_GLYPH * g + k) == numbered(
                    band_list(u, curves, k),
                    v.curves.len() as int,
                )
            &&& forall|k: int| 0 <= k < v.bands.len() ==> #[trigger] r.band(k) == v.band(k)
        }),
{
    let r = v.with_glyph(u, ch, curves);
    let start = v.curves.len() as int;
    let started = SlugAtlasView {
        curves: v.curves + curves,
        boxes: v.boxes.push(bounds(curves)),
        ..v
    };
    let banded = started.with_bands(u, start, curves, BANDS_PER_GLYPH as int);
    assert forall|k: int| 0 <= k < started.bands.len() implies #[trigger] started.band_end(k)
        <= started.indices.len() by {
        assert(v.band_end(k) <= v.indices.len());
    }
    lemma_with_bands(started, u, start, curves, BANDS_PER_GLYPH as int);
    assert forall|k: int| 0 <= k < r.bands.len() implies #[trigger] r.band_end(k)
        <= r.indices.len() by {
        assert(banded.band_end(k) <= banded.indices.len());
    }
    assert forall|k: int| 0 <= k < BANDS_PER_GLYPH implies #[trigger] r.band(
        BANDS_PER_GLYPH * v.boxes.len() + k,
    ) == numbered(band_list(u, curves, k), start) by {
        assert(banded.band(v.bands.len() + k) == numbered(band_list(u, curves, k), start));
    }
    assert forall|k: int| 0 <= k < v.bands.len() implies #[trigger] r.band(k) == v.band(k) by {
        assert(banded.band(k) == started.band(k));
    }
    assert forall|c: u32| #[trigger] r.ids.contains_key(c) implies r.ids[c] < r.boxes.len() by {
        if c != ch as u32 {
            assert(v.ids.contains_key(c));
        }
    }
}

/// A character that the font lacks gets a glyph of its own with an empty box
/// and sixteen empty bands; nothing else changes.
pub proof fn law_blank_reads_back(v: SlugAtlasView, ch: char)
    requires
        v.well_formed(),
        v.with_blank(ch).fits(),
    ensures
        ({
            let r = v.with_blank(ch);
            let g = v.boxes.len() as int;
            &&& r.well_formed()
            &&& r.ids[ch as u32] == g
            &&& forall|k: int|
                0 <= k < BANDS_PER_GLYPH ==> #[trigger] r.band(BANDS_PER_GLYPH * g + k)
                    == Seq::<u32>::empty()
            &&& forall|k: int| 0 <= k < v.bands.len() ==> #[trigger] r.band(k) == v.band(k)
        }),
{
    let r = v.with_blank(ch);
    assert forall|k: int| 0 <= k < r.bands.len() implies #[trigger] r.band_end(k)
        <= r.indices.len() by {
        if k < v.bands.len() {
            assert(r.bands[k] == v.bands[k]);
            assert(v.band_end(k) <= v.indices.len());
        }
    }
    assert forall|k: int| 0 <= k < BANDS_PER_GLYPH implies #[trigger] r.band(
        BANDS_PER_GLYPH * v.boxes.len() + k,
    ) == Seq::<u32>::empty() by {
        assert(r.bands[v.bands.len() + k] == [0u32, 0u32]);
        assert(r.band(v.bands.len() + k) =~= Seq::<u32>::empty());
    }
    assert forall|c: u32| #[trigger] r.ids.contains_key(c) implies r.ids[c] < r.boxes.len() by {
        if c != ch as u32 {
            assert(v.ids.contains_key(c));
        }
    }
}

} // verus!
