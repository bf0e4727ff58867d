//! Filling a slug atlas from a font.
use crate::font::{
    face_glyph_index, font_metrics, glyph_index, lemma_codes_differ, read_metrics, EmMetrics,
};
use crate::fpu::{Fpu32, Op32};
use crate::literal::ZERO;
use crate::number::{lit, Real32};
use crate::sfnt::metrics_readable;
use crate::slug::atlas::{
    band_list, bounds, glyph_sortable, law_blank_reads_back, law_glyph_reads_back,
    lemma_glyph_grows, no_box, numbered, outline_sortable, SlugAtlas, SlugAtlasView,
    BANDS_PER_GLYPH,
};
use crate::slug::outline::{GpuCurve, SlugOutline, SlugOutlineBuilder};
use crate::trace::{outlined, outlines_alike, outlines_all, trace};
use vstd::prelude::*;

verus! {

/// Why an atlas cannot be built.
#[derive(Copy, Clone, PartialEq, Eq, Structural, Debug)]
pub enum SlugError {
    /// The font cannot be parsed.
    Unparsable,
    /// Two curves of a band cannot be compared, as a coordinate is not a number.
    Incomparable,
    /// The curves of all glyphs cannot be numbered with 32 bits.
    TooManyCurves,
}

impl SlugAtlasView {
    /// The glyph of `ch` is added with these curves, if it can be.
    pub open spec fn with_outline<F: Fn(Op32) -> Real32>(
        self,
        u: &Fpu32<F>,
        ch: char,
        curves: Seq<GpuCurve>,
    ) -> Result<SlugAtlasView, SlugError> {
        if self.curves.len() + curves.len() > 0x1_0000_0000 {
            Err(SlugError::TooManyCurves)
        } else if !glyph_sortable(u, curves) {
            Err(SlugError::Incomparable)
        } else {
            Ok(self.with_glyph(u, ch, curves))
        }
    }

    /// A glyph for each character is added, a blank one where the font has none;
    /// the first that cannot be added decides.
    pub open spec fn with_chars<
        F: Fn(Op32) -> Real32,
        O: Fn(u16, SlugOutlineBuilder) -> SlugOutlineBuilder,
    >(
        self,
        u: &Fpu32<F>,
        data: Seq<u8>,
        outline: O,
        em: EmMetrics,
        chars: Seq<char>,
    ) -> Result<SlugAtlasView, SlugError>
        decreases chars.len(),
    {
        if chars.len() == 0 {
            Ok(self)
        } else {
            match self.with_chars(u, data, outline, em, chars.drop_last()) {
                Ok(v) => match face_glyph_index(data, chars.last()) {
                    Some(glyph) => v.with_outline(
                        u,
                        chars.last(),
                        glyph_curves(outline, em, glyph),
                    ),
                    None => Ok(v.with_blank(chars.last())),
                },
                Err(e) => Err(e),
            }
        }
    }
}

/// An outline builder that nothing has been drawn with.
pub open spec fn fresh_outline(em: EmMetrics) -> SlugOutline {
    SlugOutline {
        current_pos: [lit(ZERO), lit(ZERO)],
        contour_start: [lit(ZERO), lit(ZERO)],
        scale_em: em.scale_em,
        descender: em.descender,
        curves: seq![],
    }
}

/// The curves that the glyph is drawn with.
pub open spec fn glyph_curves<O: Fn(u16, SlugOutlineBuilder) -> SlugOutlineBuilder>(
    outline: O,
    em: EmMetrics,
    glyph: u16,
) -> Seq<GpuCurve> {
    outlined(outline, glyph, fresh_outline(em)).curves
}

impl SlugAtlas {
    /// Adds the glyph of `ch` with these curves; where that cannot be, nothing
    /// changes.
    pub fn add_outline<F: Fn(Op32) -> Real32>(
        &mut self,
        u: &Fpu32<F>,
        ch: char,
        curves: &Vec<GpuCurve>,
    ) -> (r: Result<(), SlugError>)
        ensures
            match (r, old(self)@.with_outline(u, ch, curves@)) {
                (Ok(_), Ok(v)) => final(self)@ == v,
                (Err(e), Err(f)) => e == f && final(self)@ == old(self)@,
                _ => false,
            },
    {
        let limit: u64 = 0x1_0000_0000;
        let held: u64 = self.curves.len() as u64;
        let more: u64 = curves.len() as u64;
        if held > limit || more > limit - held {
            return Err(SlugError::TooManyCurves);
        }
        if !outline_sortable(u, curves) {
            return Err(SlugError::Incomparable);
        }
        self.add_glyph(u, ch, curves);
        Ok(())
    }
}

/// Builds the atlas of the characters `chars` in the font `data`, whose glyphs
/// `outline` draws.
pub fn build_slug_atlas<
    F: Fn(Op32) -> Real32,
    O: Fn(u16, SlugOutlineBuilder) -> SlugOutlineBuilder,
>(u: &Fpu32<F>, data: &[u8], outline: &O, chars: &Vec<char>) -> (r: Result<SlugAtlas, SlugError>)
    requires
        metrics_readable(data@),
        outlines_all(*outline),
        outlines_alike(*outline),
    ensures
        match font_metrics(u, data@) {
            None => r == Err::<SlugAtlas, SlugError>(SlugError::Unparsable),
            Some(em) => match (
                r,
                SlugAtlasView::empty().with_chars(u, data@, *outline, em, chars@),
            ) {
                (Ok(atlas), Ok(v)) => atlas@ == v,
                (Err(e), Err(f)) => e == f,
                _ => false,
            },
        },
{
    let em = match read_metrics(u, data) {
        Some(em) => em,
        None => {
            return Err(SlugError::Unparsable);
        },
    };
    let mut atlas = SlugAtlas::new();
    for i in 0..chars.len()
        invariant
            metrics_readable(data@),
            outlines_all(*outline),
            outlines_alike(*outline),
            font_metrics(u, data@) == Some(em),
            SlugAtlasView::empty().with_chars(u, data@, *outline, em, chars@.take(i as int)) == Ok::<
                SlugAtlasView,
                SlugError,
            >(atlas@),
    {
        let ch = chars[i];
        assert(chars@.take(i + 1).drop_last() =~= chars@.take(i as int));
        match glyph_index(data, ch) {
            Some(glyph) => {
                let start = SlugOutlineBuilder::new(em.scale_em, em.descender);
                assert(start@ == fresh_outline(em));
                let builder = trace(outline, glyph, start);
                if let Err(e) = atlas.add_outline(u, ch, &builder.curves) {
                    proof {
                        lemma_failure_stays(u, data@, *outline, em, chars@, i + 1);
                    }
                    return Err(e);
                }
            },
            None => {
                atlas.add_blank(ch);
            },
        }
    }
    assert(chars@.take(chars.len() as int) =~= chars@);
    Ok(atlas)
}

/// A character that cannot be added decides for all longer texts.
proof fn lemma_failure_stays<
    F: Fn(Op32) -> Real32,
    O: Fn(u16, SlugOutlineBuilder) -> SlugOutlineBuilder,
>(u: &Fpu32<F>, data: Seq<u8>, outline: O, em: EmMetrics, chars: Seq<char>, n: int)
    requires
        0 <= n <= chars.len(),
        SlugAtlasView::empty().with_chars(u, data, outline, em, chars.take(n)) is Err,
    ensures
        SlugAtlasView::empty().with_chars(u, data, outline, em, chars)
            == SlugAtlasView::empty().with_chars(u, data, outline, em, chars.take(n)),
    decreases chars.len() - n,
{
    if n == chars.len() {
        assert(chars.take(n) =~= chars);
    } else {
        assert(chars.take(n + 1).drop_last() =~= chars.take(n));
        lemma_failure_stays(u, data, outline, em, chars, n + 1);
    }
}

/// Glyph `g` of the atlas shows `curves`, which are numbered from `start`: they
/// stand there, its box is the box around them, and its bands list them.
pub open spec fn shows<F: Fn(Op32) -> Real32>(
    v: SlugAtlasView,
    u: &Fpu32<F>,
    g: int,
    start: int,
    curves: Seq<GpuCurve>,
) -> bool {
    &&& 0 <= g < v.boxes.len()
    &&& 0 <= start && start + curves.len() <= v.curves.len()
    &&& v.curves.subrange(start, start + curves.len()) == curves
    &&& v.boxes[g] == bounds(curves)
    &&& forall|k: int|
        0 <= k < BANDS_PER_GLYPH ==> #[trigger] v.band(BANDS_PER_GLYPH * g + k) == numbered(
            band_list(u, curves, k),
            start,
        )
}

/// Glyph `g` of the atlas shows `curves`, wherever they stand.
pub open spec fn is_shown<F: Fn(Op32) -> Real32>(
    v: SlugAtlasView,
    u: &Fpu32<F>,
    g: int,
    curves: Seq<GpuCurve>,
) -> bool {
    exists|start: int| shows(v, u, g, start, curves)
}

/// Glyph `g` of the atlas shows nothing: its box and its bands are empty.
pub open spec fn shows_nothing(v: SlugAtlasView, g: int) -> bool {
    &&& 0 <= g < v.boxes.len()
    &&& v.boxes[g] == no_box()
    &&& forall|k: int|
        0 <= k < BANDS_PER_GLYPH ==> #[trigger] v.band(BANDS_PER_GLYPH * g + k) == Seq::<
            u32,
        >::empty()
}

/// What is in `v` is in `r` too, at the same places.
spec fn kept(v: SlugAtlasView, r: SlugAtlasView) -> bool {
    &&& v.bands.len() == BANDS_PER_GLYPH * v.boxes.len()
    &&& v.boxes.is_prefix_of(r.boxes)
    &&& v.curves.is_prefix_of(r.curves)
    &&& forall|k: int| 0 <= k < v.bands.len() ==> #[trigger] r.band(k) == v.band(k)
}

proof fn lemma_kept_shows<F: Fn(Op32) -> Real32>(
    v: SlugAtlasView,
    r: SlugAtlasView,
    u: &Fpu32<F>,
    g: int,
    start: int,
    curves: Seq<GpuCurve>,
)
    requires
        kept(v, r),
    ensures
        shows(v, u, g, start, curves) ==> shows(r, u, g, start, curves),
        shows_nothing(v, g) ==> shows_nothing(r, g),
{
    if 0 <= g < v.boxes.len() {
        assert(r.boxes[g] == v.boxes[g]);
        assert forall|k: int| 0 <= k < BANDS_PER_GLYPH implies #[trigger] r.band(
            BANDS_PER_GLYPH * g + k,
        ) == v.band(BANDS_PER_GLYPH * g + k) by {
        }
        if shows(v, u, g, start, curves) {
            assert(r.curves.subrange(start, start + curves.len()) =~= v.curves.subrange(
                start,
                start + curves.len(),
            ));
        }
    }
}

/// In a font's atlas every character is listed, and no other. As long as the
/// numbers fit, every reference leads somewhere, a character that the font has
/// shows its curves, and any other shows nothing.
pub proof fn law_font_atlas<
    F: Fn(Op32) -> Real32,
    O: Fn(u16, SlugOutlineBuilder) -> SlugOutlineBuilder,
>(u: &Fpu32<F>, data: Seq<u8>, outline: O, em: EmMetrics, chars: Seq<char>)
    ensures
        match SlugAtlasView::empty().with_chars(u, data, outline, em, chars) {
            Ok(v) => {
                &&& forall|c: char| #[trigger] v.ids.contains_key(c as u32) <==> chars.contains(c)
                &&& v.fits() ==> v.well_formed()
                &&& v.fits() ==> forall|c: char|
                    #![trigger v.ids[c as u32]]
                    chars.contains(c) ==> match face_glyph_index(data, c) {
                        Some(glyph) => is_shown(
                            v,
                            u,
                            v.ids[c as u32] as int,
                            glyph_curves(outline, em, glyph),
                        ),
                        None => shows_nothing(v, v.ids[c as u32] as int),
                    }
            },
            Err(_) => true,
        },
    decreases chars.len(),
{
    let res = SlugAtlasView::empty().with_chars(u, data, outline, em, chars);
    if chars.len() == 0 {
        assert forall|c: char| #[trigger]
            SlugAtlasView::empty().ids.contains_key(c as u32) <==> chars.contains(c) by {
        }
    } else if res is Ok {
        law_font_atlas(u, data, outline, em, chars.drop_last());
        let w = SlugAtlasView::empty().with_chars(u, data, outline, em, chars.drop_last())->Ok_0;
        let v = res->Ok_0;
        let ch = chars.last();
        assert forall|c: char| chars.contains(c) <==> chars.drop_last().contains(c) || c == ch by {
            if chars.contains(c) {
                let i = choose|i: int| 0 <= i < chars.len() && chars[i] == c;
                if i < chars.len() - 1 {
                    assert(chars.drop_last()[i] == c);
                }
            }
            if chars.drop_last().contains(c) {
                let i = choose|i: int| 0 <= i < chars.len() - 1 && chars.drop_last()[i] == c;
                assert(chars[i] == c);
            }
            assert(chars[chars.len() - 1] == ch);
        }
        let found = face_glyph_index(data, ch);
        let curves = glyph_curves(outline, em, found->0);
        if found is Some {
            lemma_glyph_grows(w, u, ch, curves);
        }
        assert(v.ids == w.ids.insert(ch as u32, w.boxes.len() as u32));
        assert forall|c: char| #[trigger] v.ids.contains_key(c as u32) <==> chars.contains(c) by {
            lemma_codes_differ(c, ch);
            assert(w.ids.contains_key(c as u32) <==> chars.drop_last().contains(c));
        }
        if v.fits() {
            if found is Some {
                law_glyph_reads_back(w, u, ch, curves);
                assert(v.curves.subrange(
                    w.curves.len() as int,
                    (w.curves.len() + curves.len()) as int,
                ) =~= curves);
                assert(shows(v, u, w.boxes.len() as int, w.curves.len() as int, curves));
            } else {
                law_blank_reads_back(w, ch);
                assert(shows_nothing(v, w.boxes.len() as int));
            }
            assert(kept(w, v));
            assert forall|c: char|
                #![trigger v.ids[c as u32]]
                chars.contains(c) implies match face_glyph_index(data, c) {
                Some(glyph) => is_shown(
                    v,
                    u,
                    v.ids[c as u32] as int,
                    glyph_curves(outline, em, glyph),
                ),
                None => shows_nothing(v, v.ids[c as u32] as int),
            } by {
                lemma_codes_differ(c, ch);
                if c != ch {
                    assert(chars.drop_last().contains(c));
                    let g = w.ids[c as u32] as int;
                    match face_glyph_index(data, c) {
                        Some(glyph) => {
                            let drawn = glyph_curves(outline, em, glyph);
                            let start = choose|start: int| shows(w, u, g, start, drawn);
                            lemma_kept_shows(w, v, u, g, start, drawn);
                        },
                        None => {
                            lemma_kept_shows(w, v, u, g, 0, curves);
                        },
                    }
                }
            }
        }
    }
}

} // verus!
