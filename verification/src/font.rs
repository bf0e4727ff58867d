//! Reading a font file: its metrics, its character map and the boxes of its
//! glyphs come from the `ttf_parser` crate.
use crate::fpu::{Fpu32, Op32};
use crate::literal::{ONE, THOUSAND};
use crate::number::{lit, Real32};
use crate::sfnt::{
    boxes_readable, font_ascender, font_descender, metrics_fixed, metrics_readable, parsable, table,
    HHEA,
};
use vstd::prelude::*;

verus! {

/// `ttf_parser::Face::parse` takes these bytes, as face 0.
pub uninterp spec fn face_parses(data: Seq<u8>) -> bool;

/// What `ttf_parser::Face::glyph_index` returns for the face in these bytes.
pub uninterp spec fn face_glyph_index(data: Seq<u8>, ch: char) -> Option<u16>;

/// What `ttf_parser::Face::glyph_bounding_box` returns for the face in these
/// bytes, as `(x_min, y_min, x_max, y_max)`.
pub uninterp spec fn face_glyph_box(data: Seq<u8>, glyph: u16) -> Option<(i16, i16, i16, i16)>;

/// `ttf_parser::Face::ascender` on face 0 of `data`; `None` exactly where
/// `ttf_parser::Face::parse` rejects the bytes. A face that parses has an `hhea`
/// table. The value is one of up to three in it and in the `OS/2` table; of a
/// variable face without an `MVAR` table the crate adds an offset of zero to it.
///
/// The crate panics where a directory of 65535 tables overflows its counter
/// (`LazyArrayIter16::next`), and, with overflow checks, where the sums and
/// products of indices into varying metrics overflow
/// (`ItemVariationStore::parse_delta`). Such directories and faces with varying
/// metrics are left out. So are machines whose `usize` has fewer than 64 bits,
/// where the sizes of arrays in tables can overflow it (`Stream::read_array32`).
#[verifier::external_body]
pub(crate) fn ascender(data: &[u8]) -> (r: Option<i16>)
    requires
        parsable(data@),
        metrics_fixed(data@),
    ensures
        r is Some <==> face_parses(data@),
        r is Some ==> table(data@, HHEA) is Some,
        r is Some ==> r->0 == font_ascender(data@, table(data@, HHEA)->0),
{
    ttf_parser::Face::parse(data, 0).ok().map(|face| face.ascender())
}

/// `ttf_parser::Face::descender` on face 0 of `data`; `None` exactly where
/// `ttf_parser::Face::parse` rejects the bytes. The value is found as that of the
/// ascender is.
///
/// What is left out for the ascender is left out here too. Besides, the crate
/// negates the Windows descender where a face has no other one
/// (`os2::Table::windows_descender`), and panics where that overflows: such
/// faces are left out.
#[verifier::external_body]
pub(crate) fn descender(data: &[u8]) -> (r: Option<i16>)
    requires
        metrics_readable(data@),
    ensures
        r is Some <==> face_parses(data@),
        r is Some ==> table(data@, HHEA) is Some,
        r is Some ==> r->0 == font_descender(data@, table(data@, HHEA)->0),
{
    ttf_parser::Face::parse(data, 0).ok().map(|face| face.descender())
}

/// `ttf_parser::Face::glyph_index` on face 0 of `data`: the glyph that the
/// character map gives for `ch`, if any. `None` also where
/// `ttf_parser::Face::parse` rejects the bytes. Left out are a directory of 65535
/// tables, on which the parser panics, and machines whose `usize` has fewer than
/// 64 bits, as for the ascender.
#[verifier::external_body]
pub(crate) fn glyph_index(data: &[u8], ch: char) -> (r: Option<u16>)
    requires
        parsable(data@),
    ensures
        r == (if face_parses(data@) {
            face_glyph_index(data@, ch)
        } else {
            None
        }),
{
    ttf_parser::Face::parse(data, 0).ok().and_then(|face| face.glyph_index(ch)).map(|id| id.0)
}

/// `ttf_parser::Face::glyph_bounding_box` on face 0 of `data`, as
/// `(x_min, y_min, x_max, y_max)`. `None` also where `ttf_parser::Face::parse`
/// rejects the bytes.
///
/// The call outlines the glyph, from the `glyf` table where that and the `loca`
/// table parse (`Face::outline_glyph`). On other outlines the crate can panic: a
/// `CFF2` program that blends an empty stack (`ArgumentsStack::pop`), a `CFF `
/// program whose subroutines declare 2^32 stems (`_parse_char_string`), a `gvar`
/// table whose coordinates or sizes overflow (`gvar::Table::parse_variation_data`
/// and what it calls). Which programs and variations do so takes an interpreter
/// to tell, so faces for which the crate would run one are left out, as are a
/// directory of 65535 tables and machines whose `usize` has fewer than 64 bits.
#[verifier::external_body]
pub(crate) fn glyph_bounding_box(data: &[u8], glyph: u16) -> (r: Option<(i16, i16, i16, i16)>)
    requires
        boxes_readable(data@),
    ensures
        r == (if face_parses(data@) {
            face_glyph_box(data@, glyph)
        } else {
            None
        }),
{
    ttf_parser::Face::parse(data, 0)
        .ok()
        .and_then(|face| face.glyph_bounding_box(ttf_parser::GlyphId(glyph)))
        .map(|r| (r.x_min, r.y_min, r.x_max, r.y_max))
}

/// How design units are placed in the glyph square of side 1000.
#[derive(Copy, Clone, PartialEq, Eq, Structural, Debug)]
pub struct EmMetrics {
    /// The height, in design units, that becomes 0.
    pub descender: Real32,
    /// The length of one design unit.
    pub scale_em: Real32,
}

/// From descender to ascender, but at least one, is 1000 high.
pub open spec fn em_metrics_of<F: Fn(Op32) -> Real32>(
    u: &Fpu32<F>,
    ascender: i16,
    descender: i16,
) -> EmMetrics {
    let low = u.from_int(descender as i64);
    let em_height = u.sub(u.from_int(ascender as i64), low).max(lit(ONE));
    EmMetrics { descender: low, scale_em: u.div(lit(THOUSAND), em_height) }
}

pub fn em_metrics<F: Fn(Op32) -> Real32>(
    u: &Fpu32<F>,
    ascender: i16,
    descender: i16,
) -> (r: EmMetrics)
    ensures
        r == em_metrics_of(u, ascender, descender),
{
    let low = u.from_int(descender as i64);
    let high = u.from_int(ascender as i64);
    let em_height = u.sub(high, low).max(lit(ONE));
    EmMetrics { descender: low, scale_em: u.div(lit(THOUSAND), em_height) }
}

/// The metrics of the font in `data`; `None` where it cannot be parsed.
pub open spec fn font_metrics<F: Fn(Op32) -> Real32>(
    u: &Fpu32<F>,
    data: Seq<u8>,
) -> Option<EmMetrics> {
    if face_parses(data) {
        let hhea = table(data, HHEA)->0;
        Some(em_metrics_of(u, font_ascender(data, hhea) as i16, font_descender(data, hhea) as i16))
    } else {
        None
    }
}

pub fn read_metrics<F: Fn(Op32) -> Real32>(u: &Fpu32<F>, data: &[u8]) -> (r: Option<EmMetrics>)
    requires
        metrics_readable(data@),
    ensures
        r == font_metrics(u, data@),
{
    match (ascender(data), descender(data)) {
        (Some(a), Some(d)) => Some(em_metrics(u, a, d)),
        _ => None,
    }
}

/// Different characters have different codes.
pub proof fn lemma_codes_differ(a: char, b: char)
    ensures
        a != b ==> a as u32 != b as u32,
{
}

} // verus!
