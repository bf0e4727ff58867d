//! The glyph atlas: for every glyph, the segments that each horizontal band of
//! its square needs.
use crate::arc::segment::{GpuSegment, KIND_ARC, KIND_LINE};
use crate::fpu::{Fpu32, Op32};
use crate::literal::ONE;
use crate::number::{lit, Real32};
use crate::order::{
    as_ints, before, descending_order, gather, is_descending_order, law_order_exists,
    law_order_lists_every_item_once, rank, sort_descending,
};
use std::collections::HashMap;
use vstd::prelude::*;

verus! {

broadcast use vstd::std_specs::hash::group_hash_axioms;

/// The number of bands that a glyph's square is cut into.
pub const NUM_BANDS: usize = 32;

/// 31.25: the height of a band, the 32nd part of 1000.
pub const BAND_HEIGHT: u32 = 0x41fa_0000;

/// The heights between which a segment lies.
pub open spec fn y_span(s: GpuSegment) -> (Real32, Real32) {
    if s.kind == KIND_LINE {
        (s.param0[2], s.param0[3])
    } else if s.kind == KIND_ARC {
        (s.param0[3], s.param1[0])
    } else {
        (s.param0[1], s.param0[1])
    }
}

/// A segment reaches into the heights from `lo` to `hi`.
pub open spec fn touches(s: GpuSegment, lo: Real32, hi: Real32) -> bool {
    lo.le(y_span(s).1) && y_span(s).0.le(hi)
}

fn segment_touches(s: &GpuSegment, lo: Real32, hi: Real32) -> (r: bool)
    ensures
        r == touches(*s, lo, hi),
{
    let (s_ymin, s_ymax) = if s.kind == KIND_LINE {
        (s.param0[2], s.param0[3])
    } else if s.kind == KIND_ARC {
        (s.param0[3], s.param1[0])
    } else {
        (s.param0[1], s.param0[1])
    };
    lo.le(s_ymax) && s_ymin.le(hi)
}

/// The lower end of band `b`, one unit below its nominal place.
pub open spec fn band_low<F: Fn(Op32) -> Real32>(u: &Fpu32<F>, b: int) -> Real32 {
    u.sub(u.mul(u.from_uint(b as u64), lit(BAND_HEIGHT)), lit(ONE))
}

/// The upper end of band `b`, one unit above its nominal place.
pub open spec fn band_high<F: Fn(Op32) -> Real32>(u: &Fpu32<F>, b: int) -> Real32 {
    u.add(u.mul(u.from_uint((b + 1) as u64), lit(BAND_HEIGHT)), lit(ONE))
}

/// The segments that reach into the heights from `lo` to `hi`.
pub open spec fn touching(raw: Seq<GpuSegment>, lo: Real32, hi: Real32) -> Seq<GpuSegment> {
    raw.filter(|s: GpuSegment| touches(s, lo, hi))
}

/// The keys by which segments are sorted.
pub open spec fn x_max_ranks(segments: Seq<GpuSegment>) -> Seq<i64> {
    segments.map_values(|s: GpuSegment| rank(s.x_max))
}

/// The segments from right to left, by their rightmost points.
pub open spec fn right_to_left(segments: Seq<GpuSegment>) -> Seq<GpuSegment> {
    gather(segments, descending_order(x_max_ranks(segments)))
}

/// What band `b` holds of a glyph: the segments that touch it, right to left.
pub open spec fn band_list<F: Fn(Op32) -> Real32>(
    u: &Fpu32<F>,
    raw: Seq<GpuSegment>,
    b: int,
) -> Seq<GpuSegment> {
    right_to_left(touching(raw, band_low(u, b), band_high(u, b)))
}

/// What an atlas holds.
#[verifier::ext_equal]
pub struct AtlasView {
    /// The segments of all bands of all glyphs.
    pub segments: Seq<GpuSegment>,
    /// For each band the index of its first segment and their number.
    pub bands: Seq<[u32; 2]>,
    /// For each character the index of its first band.
    pub starts: Map<u32, u32>,
    /// For each character the box around its glyph.
    pub boxes: Map<u32, [Real32; 4]>,
}

impl AtlasView {
    pub open spec fn with_band(self, list: Seq<GpuSegment>) -> AtlasView {
        AtlasView {
            segments: self.segments + list,
            bands: self.bands.push([self.segments.len() as u32, list.len() as u32]),
            ..self
        }
    }

    /// The first `n` bands of a glyph are added.
    pub open spec fn with_bands<F: Fn(Op32) -> Real32>(
        self,
        u: &Fpu32<F>,
        raw: Seq<GpuSegment>,
        n: int,
    ) -> AtlasView
        decreases n,
    {
        if n <= 0 {
            self
        } else {
            self.with_bands(u, raw, n - 1).with_band(band_list(u, raw, n - 1))
        }
    }

    /// A glyph is added: its box, where it has one, its bands, and the index of
    /// the first of them.
    pub open spec fn with_glyph<F: Fn(Op32) -> Real32>(
        self,
        u: &Fpu32<F>,
        ch: char,
        raw: Seq<GpuSegment>,
        bbox: Option<[Real32; 4]>,
    ) -> AtlasView {
        let boxed = match bbox {
            Some(b) => AtlasView { boxes: self.boxes.insert(ch as u32, b), ..self },
            None => self,
        };
        let banded = boxed.with_bands(u, raw, NUM_BANDS as int);
        AtlasView { starts: banded.starts.insert(ch as u32, self.bands.len() as u32), ..banded }
    }
}

pub struct ArcAtlas {
    pub segments: Vec<GpuSegment>,
    pub bands: Vec<[u32; 2]>,
    pub starts: HashMap<u32, u32>,
    pub boxes: HashMap<u32, [Real32; 4]>,
}

impl View for ArcAtlas {
    type V = AtlasView;

    open spec fn view(&self) -> AtlasView {
        AtlasView {
            segments: self.segments@,
            bands: self.bands@,
            starts: self.starts@,
            boxes: self.boxes@,
        }
    }
}

impl ArcAtlas {
    pub fn new() -> (r: Self)
        ensures
            r@ == (AtlasView {
                segments: seq![],
                bands: seq![],
                starts: Map::empty(),
                boxes: Map::empty(),
            }),
    {
        ArcAtlas {
            segments: Vec::new(),
            bands: Vec::new(),
            starts: HashMap::new(),
            boxes: HashMap::new(),
        }
    }

    /// Adds one band of a glyph with the segments `raw`.
    fn push_band<F: Fn(Op32) -> Real32>(
        &mut self,
        u: &Fpu32<F>,
        raw: &Vec<GpuSegment>,
        b: usize,
    )
        requires
            b < NUM_BANDS,
        ensures
            final(self)@ == old(self)@.with_band(band_list(u, raw@, b as int)),
    {
        let lo = u.sub(u.mul(u.from_uint(b as u64), lit(BAND_HEIGHT)), lit(ONE));
        let hi = u.add(u.mul(u.from_uint((b + 1) as u64), lit(BAND_HEIGHT)), lit(ONE));

        let mut list: Vec<GpuSegment> = Vec::new();
        let mut keys: Vec<i64> = Vec::new();
        for i in 0..raw.len()
            invariant
                list@ == touching(raw@.take(i as int), lo, hi),
                keys@ == x_max_ranks(list@),
        {
            proof {
                reveal(Seq::filter);
                assert(raw@.take(i + 1).drop_last() =~= raw@.take(i as int));
            }
            if segment_touches(&raw[i], lo, hi) {
                list.push(raw[i]);
                keys.push(rank(raw[i].x_max));
            }
            assert(keys@ =~= x_max_ranks(list@));
        }
        assert(raw@.take(raw.len() as int) =~= raw@);

        let order = sort_descending(&keys);
        let ghost p = descending_order(keys@);
        let offset: u32 = self.segments.len() as u32;
        let count: u32 = list.len() as u32;
        let ghost held = self.segments@;
        for k in 0..order.len()
            invariant
                p == as_ints(order@),
                is_descending_order(keys@, p),
                keys.len() == list.len(),
                self.segments@ == held + gather(list@, p).take(k as int),
                self.bands@ == old(self).bands@,
                self.starts@ == old(self).starts@,
                self.boxes@ == old(self).boxes@,
        {
            assert(p[k as int] == order[k as int]);
            self.segments.push(list[order[k]]);
            assert(gather(list@, p).take(k + 1) =~= gather(list@, p).take(k as int).push(
                list@[p[k as int]],
            ));
        }
        assert(gather(list@, p).take(p.len() as int) =~= gather(list@, p));
        self.bands.push([offset, count]);
    }

    /// Adds the glyph of `ch`, which is drawn with the segments `raw` and lies in
    /// `bbox`.
    pub fn add_glyph<F: Fn(Op32) -> Real32>(
        &mut self,
        u: &Fpu32<F>,
        ch: char,
        raw: &Vec<GpuSegment>,
        bbox: Option<[Real32; 4]>,
    )
        ensures
            final(self)@ == old(self)@.with_glyph(u, ch, raw@, bbox),
    {
        if let Some(b) = bbox {
            self.boxes.insert(ch as u32, b);
        }
        let ghost boxed = self@;
        let band_start: u32 = self.bands.len() as u32;
        for b in 0..NUM_BANDS
            invariant
                self@ == boxed.with_bands(u, raw@, b as int),
        {
            self.push_band(u, raw, b);
        }
        self.starts.insert(ch as u32, band_start);
    }
}

impl AtlasView {
    /// All indices fit the 32 bits that the shader reads them in.
    pub open spec fn fits(self) -> bool {
        self.segments.len() <= u32::MAX && self.bands.len() <= u32::MAX
    }

    /// Where band `k` ends.
    pub open spec fn band_end(self, k: int) -> int {
        self.bands[k][0] + self.bands[k][1]
    }

    /// Where band `k` begins; the band behind the last one begins behind all
    /// segments.
    pub open spec fn band_begin(self, k: int) -> int {
        if k < self.bands.len() {
            self.bands[k][0] as int
        } else {
            self.segments.len() as int
        }
    }

    /// The bands cover the segments one after the other, without gap or
    /// overlap.
    pub open spec fn tiled(self) -> bool {
        &&& self.band_begin(0) == 0
        &&& forall|k: int|
            0 <= k < self.bands.len() ==> #[trigger] self.band_end(k) == self.band_begin(k + 1)
    }

    /// The segments that the entry of band `k` refers to.
    pub open spec fn band(self, k: int) -> Seq<GpuSegment> {
        self.segments.subrange(self.bands[k][0] as int, self.band_end(k))
    }

    /// All bands of every listed character exist.
    pub open spec fn starts_in_range(self) -> bool {
        forall|ch: u32| #[trigger]
            self.starts.contains_key(ch) ==> self.starts[ch] + NUM_BANDS <= self.bands.len()
    }
}

proof fn lemma_band_end_in_range(v: AtlasView, k: int)
    requires
        v.tiled(),
        0 <= k < v.bands.len(),
    ensures
        v.bands[k][0] <= v.band_end(k) <= v.segments.len(),
    decreases v.bands.len() - k,
{
    if k + 1 < v.bands.len() {
        lemma_band_end_in_range(v, k + 1);
    }
}

proof fn lemma_with_band(v: AtlasView, list: Seq<GpuSegment>)
    requires
        v.tiled(),
        v.with_band(list).fits(),
    ensures
        v.with_band(list).tiled(),
        v.with_band(list).band(v.bands.len() as int) == list,
        forall|k: int| 0 <= k < v.bands.len() ==> #[trigger] v.with_band(list).band(k) == v.band(k),
{
    let w = v.with_band(list);
    let n = v.bands.len() as int;
    assert(w.bands[n] == [v.segments.len() as u32, list.len() as u32]);
    assert forall|k: int| 0 <= k < w.bands.len() implies #[trigger] w.band_end(k) == w.band_begin(
        k + 1,
    ) by {
        if k < n {
            assert(w.bands[k] == v.bands[k]);
            assert(v.band_end(k) == v.band_begin(k + 1));
        }
    }
    assert(w.band(n) =~= list);
    assert forall|k: int| 0 <= k < n implies #[trigger] w.band(k) == v.band(k) by {
        lemma_band_end_in_range(v, k);
        assert(w.bands[k] == v.bands[k]);
        assert(w.band(k) =~= v.band(k));
    }
}

proof fn lemma_with_bands<F: Fn(Op32) -> Real32>(
    v: AtlasView,
    u: &Fpu32<F>,
    raw: Seq<GpuSegment>,
    n: int,
)
    requires
        v.tiled(),
        0 <= n,
        v.with_bands(u, raw, n).fits(),
    ensures
        v.with_bands(u, raw, n).tiled(),
        v.with_bands(u, raw, n).starts == v.starts,
        v.with_bands(u, raw, n).boxes == v.boxes,
        v.with_bands(u, raw, n).bands.len() == v.bands.len() + n,
        forall|k: int|
            0 <= k < v.bands.len() ==> #[trigger] v.with_bands(u, raw, n).band(k) == v.band(k),
        forall|k: int|
            v.bands.len() <= k < v.bands.len() + n ==> #[trigger] v.with_bands(u, raw, n).band(k)
                == band_list(u, raw, k - v.bands.len()),
    decreases n,
{
    if n > 0 {
        let w = v.with_bands(u, raw, n - 1);
        lemma_with_bands(v, u, raw, n - 1);
        lemma_with_band(w, band_list(u, raw, n - 1));
    }
}

/// Adding a glyph takes nothing away.
pub proof fn lemma_glyph_grows<F: Fn(Op32) -> Real32>(
    v: AtlasView,
    u: &Fpu32<F>,
    ch: char,
    raw: Seq<GpuSegment>,
    bbox: Option<[Real32; 4]>,
)
    ensures
        v.segments.len() <= v.with_glyph(u, ch, raw, bbox).segments.len(),
        v.with_glyph(u, ch, raw, bbox).bands.len() == v.bands.len() + NUM_BANDS,
        v.with_glyph(u, ch, raw, bbox).starts == v.starts.insert(ch as u32, v.bands.len() as u32),
{
    let boxed = match bbox {
        Some(b) => AtlasView { boxes: v.boxes.insert(ch as u32, b), ..v },
        None => v,
    };
    lemma_bands_grow(boxed, u, raw, NUM_BANDS as int);
}

proof fn lemma_bands_grow<F: Fn(Op32) -> Real32>(
    v: AtlasView,
    u: &Fpu32<F>,
    raw: Seq<GpuSegment>,
    n: int,
)
    requires
        0 <= n,
    ensures
        v.segments.len() <= v.with_bands(u, raw, n).segments.len(),
        v.with_bands(u, raw, n).bands.len() == v.bands.len() + n,
        v.with_bands(u, raw, n).starts == v.starts,
    decreases n,
{
    if n > 0 {
        lemma_bands_grow(v, u, raw, n - 1);
    }
}

/// What is written is read back: as long as the indices fit, the bands of an
/// added glyph hold exactly the segments that touch them, right to left, the
/// bands of all earlier glyphs hold what they held, and the atlas stays tiled
/// with every character's bands in range.
pub proof fn law_glyph_reads_back<F: Fn(Op32) -> Real32>(
    v: AtlasView,
    u: &Fpu32<F>,
    ch: char,
    raw: Seq<GpuSegment>,
    bbox: Option<[Real32; 4]>,
)
    requires
        v.tiled(),
        v.starts_in_range(),
        v.with_glyph(u, ch, raw, bbox).fits(),
    ensures
        v.with_glyph(u, ch, raw, bbox).tiled(),
        v.with_glyph(u, ch, raw, bbox).starts_in_range(),
        v.with_glyph(u, ch, raw, bbox).starts[ch as u32] == v.bands.len(),
        forall|b: int|
            0 <= b < NUM_BANDS ==> #[trigger] v.with_glyph(u, ch, raw, bbox).band(
                v.bands.len() + b,
            ) == band_list(u, raw, b),
        forall|k: int|
            0 <= k < v.bands.len() ==> #[trigger] v.with_glyph(u, ch, raw, bbox).band(k) == v.band(
                k,
            ),
        forall|c: u32|
            c != ch as u32 ==> (#[trigger] v.with_glyph(u, ch, raw, bbox).starts.contains_key(c)
                <==> v.starts.contains_key(c)),
        forall|c: u32|
            c != ch as u32 && v.starts.contains_key(c)
                ==> #[trigger] v.with_glyph(u, ch, raw, bbox).starts[c] == v.starts[c],
{
    let w = v.with_glyph(u, ch, raw, bbox);
    let boxed = match bbox {
        Some(b) => AtlasView { boxes: v.boxes.insert(ch as u32, b), ..v },
        None => v,
    };
    let banded = boxed.with_bands(u, raw, NUM_BANDS as int);
    assert forall|k: int| 0 <= k < boxed.bands.len() implies #[trigger] boxed.band_end(k)
        == boxed.band_begin(k + 1) by {
        assert(v.band_end(k) == v.band_begin(k + 1));
    }
    assert(boxed.band_begin(0) == v.band_begin(0));
    lemma_with_bands(boxed, u, raw, NUM_BANDS as int);
    assert forall|k: int| 0 <= k < w.bands.len() implies #[trigger] w.band_end(k) == w.band_begin(
        k + 1,
    ) by {
        assert(banded.band_end(k) == banded.band_begin(k + 1));
    }
    assert(w.band_begin(0) == banded.band_begin(0));
    assert forall|k: int| 0 <= k < w.bands.len() implies #[trigger] w.band(k) == banded.band(k) by {
    }
    assert forall|k: int| 0 <= k < v.bands.len() implies #[trigger] v.band(k) == boxed.band(k) by {
    }
    assert forall|b: int| 0 <= b < NUM_BANDS implies #[trigger] w.band(v.bands.len() + b)
        == band_list(u, raw, b) by {
        assert(banded.band(v.bands.len() + b) == band_list(u, raw, b));
    }
    assert forall|c: u32| #[trigger] w.starts.contains_key(c) implies w.starts[c] + NUM_BANDS
        <= w.bands.len() by {
        if c != ch as u32 {
            assert(v.starts.contains_key(c));
        }
    }
}

/// A band holds a segment exactly if the glyph has it and it touches the band,
/// and no segment has a later one to its right. So a reader that meets a segment
/// left of a point may stop.
pub proof fn law_band_list<F: Fn(Op32) -> Real32>(u: &Fpu32<F>, raw: Seq<GpuSegment>, b: int)
    ensures
        forall|s: GpuSegment| #[trigger]
            band_list(u, raw, b).contains(s) <==> raw.contains(s) && touches(
                s,
                band_low(u, b),
                band_high(u, b),
            ),
        band_list(u, raw, b).len() == touching(raw, band_low(u, b), band_high(u, b)).len(),
        forall|i: int, j: int|
            0 <= i < j < band_list(u, raw, b).len() ==> !(#[trigger] band_list(u, raw, b)[i]).x_max.lt(
                (#[trigger] band_list(u, raw, b)[j]).x_max,
            ),
{
    let lo = band_low(u, b);
    let hi = band_high(u, b);
    let pred = |s: GpuSegment| touches(s, lo, hi);
    let list = touching(raw, lo, hi);
    let keys = x_max_ranks(list);
    let p = descending_order(keys);
    let sorted = band_list(u, raw, b);
    law_order_exists(keys);
    law_order_lists_every_item_once(keys, p);
    broadcast use vstd::seq_lib::group_filter_ensures;

    assert forall|s: GpuSegment| #[trigger] sorted.contains(s) <==> raw.contains(s) && touches(
        s,
        lo,
        hi,
    ) by {
        if sorted.contains(s) {
            let i = choose|i: int| 0 <= i < sorted.len() && sorted[i] == s;
            assert(list[p[i]] == s);
            assert(pred(list[p[i]]));
            assert(list.contains(s));
            raw.lemma_filter_contains_rev(pred, s);
        }
        if raw.contains(s) && touches(s, lo, hi) {
            assert(pred(s));
            let r = choose|r: int| 0 <= r < raw.len() && raw[r] == s;
            assert(list.contains(raw[r]));
            let a = choose|a: int| 0 <= a < list.len() && list[a] == s;
            assert(p.contains(a));
            let i = choose|i: int| 0 <= i < p.len() && p[i] == a;
            assert(sorted[i] == s);
        }
    }
    assert forall|i: int, j: int| 0 <= i < j < sorted.len() implies !(#[trigger] sorted[i]).x_max.lt(
        (#[trigger] sorted[j]).x_max,
    ) by {
        assert(before(keys, p[i], p[j]));
        assert(keys[p[i]] == rank(sorted[i].x_max));
        assert(keys[p[j]] == rank(sorted[j].x_max));
    }
}

} // verus!
