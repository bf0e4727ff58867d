//! Filling an arc atlas from a font.
use crate::arc::atlas::{
    band_list, law_glyph_reads_back, lemma_glyph_grows, ArcAtlas, AtlasView, NUM_BANDS,
};
use crate::arc::contour::{
    outline_pieces, outline_segments, points_of, ContourBuilder, Outline, Point,
};
use crate::arc::segment::GpuSegment;
use crate::font::{
    face_glyph_box, face_glyph_index, font_metrics, glyph_bounding_box, glyph_index,
    lemma_codes_differ, read_metrics, EmMetrics,
};
use crate::fpu::{Fpu32, Op32};
use crate::number::Real32;
use crate::sfnt::{boxes_readable, metrics_readable};
use crate::trace::{outlined, outlines_alike, outlines_all, trace};
use vstd::prelude::*;

verus! {

/// Where a box of design units `(x_min, y_min, x_max, y_max)` lies in the glyph
/// square.
pub open spec fn placed_box<F: Fn(Op32) -> Real32>(
    u: &Fpu32<F>,
    em: EmMetrics,
    b: (i16, i16, i16, i16),
) -> [Real32; 4] {
    [
        u.mul(u.from_int(b.0 as i64), em.scale_em),
        u.mul(u.sub(u.from_int(b.1 as i64), em.descender), em.scale_em),
        u.mul(u.from_int(b.2 as i64), em.scale_em),
        u.mul(u.sub(u.from_int(b.3 as i64), em.descender), em.scale_em),
    ]
}

pub fn place_box<F: Fn(Op32) -> Real32>(
    u: &Fpu32<F>,
    em: EmMetrics,
    b: (i16, i16, i16, i16),
) -> (r: [Real32; 4])
    ensures
        r == placed_box(u, em, b),
{
    [
        u.mul(u.from_int(b.0 as i64), em.scale_em),
        u.mul(u.sub(u.from_int(b.1 as i64), em.descender), em.scale_em),
        u.mul(u.from_int(b.2 as i64), em.scale_em),
        u.mul(u.sub(u.from_int(b.3 as i64), em.descender), em.scale_em),
    ]
}

impl AtlasView {
    /// The glyph of `ch` is added, with these contours and this box in design
    /// units.
    pub open spec fn with_outline<F: Fn(Op32) -> Real32>(
        self,
        u: &Fpu32<F>,
        em: EmMetrics,
        ch: char,
        contours: Seq<Seq<Point>>,
        bbox: Option<(i16, i16, i16, i16)>,
    ) -> AtlasView {
        self.with_glyph(
            u,
            ch,
            outline_pieces(u, contours, em.scale_em, em.descender),
            match bbox {
                Some(b) => Some(placed_box(u, em, b)),
                None => None,
            },
        )
    }

    /// The glyphs that the font has for `chars` are added one after the other.
    pub open spec fn with_chars<F: Fn(Op32) -> Real32, O: Fn(u16, ContourBuilder) -> ContourBuilder>(
        self,
        u: &Fpu32<F>,
        data: Seq<u8>,
        outline: O,
        em: EmMetrics,
        chars: Seq<char>,
    ) -> AtlasView
        decreases chars.len(),
    {
        if chars.len() == 0 {
            self
        } else {
            let v = self.with_chars(u, data, outline, em, chars.drop_last());
            match face_glyph_index(data, chars.last()) {
                Some(glyph) => v.with_outline(
                    u,
                    em,
                    chars.last(),
                    outlined(outline, glyph, Outline::empty()).contours,
                    face_glyph_box(data, glyph),
                ),
                None => v,
            }
        }
    }

    pub open spec fn empty() -> AtlasView {
        AtlasView {
            segments: seq![],
            bands: seq![],
            starts: Map::empty(),
            boxes: Map::empty(),
        }
    }
}

impl ArcAtlas {
    /// Adds the glyph of `ch`, which has these contours and this box in design
    /// units.
    pub fn add_outline<F: Fn(Op32) -> Real32>(
        &mut self,
        u: &Fpu32<F>,
        em: EmMetrics,
        ch: char,
        contours: &Vec<Vec<Point>>,
        bbox: Option<(i16, i16, i16, i16)>,
    )
        ensures
            final(self)@ == old(self)@.with_outline(u, em, ch, points_of(contours@), bbox),
    {
        let raw = outline_segments(u, contours, em.scale_em, em.descender);
        let placed = match bbox {
            Some(b) => Some(place_box(u, em, b)),
            None => None,
        };
        self.add_glyph(u, ch, &raw, placed);
    }
}

/// Builds the atlas of the characters `chars` in the font `data`, whose glyphs
/// `outline` draws. `None` where the font cannot be parsed.
pub fn build_arc_atlas<F: Fn(Op32) -> Real32, O: Fn(u16, ContourBuilder) -> ContourBuilder>(
    u: &Fpu32<F>,
    data: &[u8],
    outline: &O,
    chars: &Vec<char>,
) -> (r: Option<ArcAtlas>)
    requires
        metrics_readable(data@),
        boxes_readable(data@),
        outlines_all(*outline),
        outlines_alike(*outline),
    ensures
        match (r, font_metrics(u, data@)) {
            (Some(atlas), Some(em)) => atlas@ == AtlasView::empty().with_chars(
                u,
                data@,
                *outline,
                em,
                chars@,
            ),
            (None, None) => true,
            _ => false,
        },
{
    let em = match read_metrics(u, data) {
        Some(em) => em,
        None => {
            return None;
        },
    };
    let mut atlas = ArcAtlas::new();
    for i in 0..chars.len()
        invariant
            metrics_readable(data@),
            boxes_readable(data@),
            outlines_all(*outline),
            outlines_alike(*outline),
            font_metrics(u, data@) == Some(em),
            atlas@ == AtlasView::empty().with_chars(
                u,
                data@,
                *outline,
                em,
                chars@.take(i as int),
            ),
    {
        let ch = chars[i];
        assert(chars@.take(i + 1).drop_last() =~= chars@.take(i as int));
        if let Some(glyph) = glyph_index(data, ch) {
            let builder = trace(outline, glyph, ContourBuilder::default());
            let bbox = glyph_bounding_box(data, glyph);
            atlas.add_outline(u, em, ch, &builder.contours, bbox);
        }
    }
    assert(chars@.take(chars.len() as int) =~= chars@);
    Some(atlas)
}

/// The segments that the glyph is drawn with.
pub open spec fn glyph_pieces<F: Fn(Op32) -> Real32, O: Fn(u16, ContourBuilder) -> ContourBuilder>(
    u: &Fpu32<F>,
    outline: O,
    em: EmMetrics,
    glyph: u16,
) -> Seq<GpuSegment> {
    outline_pieces(u, outlined(outline, glyph, Outline::empty()).contours, em.scale_em, em.descender)
}

/// In a font's atlas exactly the characters that the font has a glyph for are
/// listed. As long as the indices fit, the bands tile the segments, and every
/// listed character's 32 bands hold exactly what its glyph puts there.
pub proof fn law_font_atlas<F: Fn(Op32) -> Real32, O: Fn(u16, ContourBuilder) -> ContourBuilder>(
    u: &Fpu32<F>,
    data: Seq<u8>,
    outline: O,
    em: EmMetrics,
    chars: Seq<char>,
)
    ensures
        ({
            let v = AtlasView::empty().with_chars(u, data, outline, em, chars);
            &&& forall|c: char| #[trigger]
                v.starts.contains_key(c as u32) <==> chars.contains(c) && face_glyph_index(
                    data,
                    c,
                ) is Some
            &&& v.fits() ==> v.tiled() && v.starts_in_range()
            &&& v.fits() ==> forall|c: char, b: int|
                #![trigger v.band(v.starts[c as u32] + b)]
                v.starts.contains_key(c as u32) && 0 <= b < NUM_BANDS ==> v.band(
                    v.starts[c as u32] + b,
                ) == band_list(
                    u,
                    glyph_pieces(u, outline, em, face_glyph_index(data, c)->0),
                    b,
                )
        }),
    decreases chars.len(),
{
    let v = AtlasView::empty().with_chars(u, data, outline, em, chars);
    if chars.len() > 0 {
        let w = AtlasView::empty().with_chars(u, data, outline, em, chars.drop_last());
        law_font_atlas(u, data, outline, em, chars.drop_last());
        let ch = chars.last();
        assert forall|c: char| chars.contains(c) <==> chars.drop_last().contains(c) || c == ch by {
            if chars.contains(c) {
                let i = choose|i: int| 0 <= i < chars.len() && chars[i] == c;
                if i < chars.len() - 1 {
                    assert(chars.drop_last()[i] == c);
                }
            }
            if chars.drop_last().contains(c) {
                let i = choose|i: int| 0 <= i < chars.len() - 1 && chars.drop_last()[i] == c;
                assert(chars[i] == c);
            }
            assert(chars[chars.len() - 1] == ch);
        }
        match face_glyph_index(data, ch) {
            Some(glyph) => {
                let raw = glyph_pieces(u, outline, em, glyph);
                let bbox = match face_glyph_box(data, glyph) {
                    Some(b) => Some(placed_box(u, em, b)),
                    None => None,
                };
                lemma_glyph_grows(w, u, ch, raw, bbox);
                assert forall|c: char| #[trigger] v.starts.contains_key(c as u32) <==> chars.contains(
                    c,
                ) && face_glyph_index(data, c) is Some by {
                    lemma_codes_differ(c, ch);
                    assert(w.starts.contains_key(c as u32) <==> chars.drop_last().contains(c)
                        && face_glyph_index(data, c) is Some);
                }
                if v.fits() {
                    law_glyph_reads_back(w, u, ch, raw, bbox);
                    assert forall|c: char, b: int|
                        #![trigger v.band(v.starts[c as u32] + b)]
                        v.starts.contains_key(c as u32) && 0 <= b < NUM_BANDS implies v.band(
                        v.starts[c as u32] + b,
                    ) == band_list(
                        u,
                        glyph_pieces(u, outline, em, face_glyph_index(data, c)->0),
                        b,
                    ) by {
                        lemma_codes_differ(c, ch);
                        if c == ch {
                            assert(v.band(w.bands.len() + b) == band_list(u, raw, b));
                        } else {
                            assert(w.starts.contains_key(c as u32));
                            assert(v.starts[c as u32] == w.starts[c as u32]);
                            assert(v.band(w.starts[c as u32] + b) == w.band(
                                w.starts[c as u32] + b,
                            ));
                        }
                    }
                }
            },
            None => {},
        }
    }
}

} // verus!
