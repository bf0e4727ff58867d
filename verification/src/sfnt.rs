//! The table directory of a font file, read to tell which questions the font
//! parser can be asked.
//!
//! The `ttf_parser` crate panics on some files, with overflow checks or without.
//! What is in the directory, and for two cases in the tables, rules these files
//! out. The metrics that the parser chooses stand in two tables and are stated
//! here too.
use vstd::prelude::*;
use vstd::slice::slice_subrange;

verus! {

/// `ttcf`: several fonts in one file.
pub const COLLECTION: u64 = 0x7474_6366;

/// `hhea`: the ordinary ascender and descender.
pub const HHEA: u64 = 0x6868_6561;

/// `head`: among others, how the places of glyphs are written.
pub const HEAD: u64 = 0x6865_6164;

/// `glyf`: outlines as points.
pub const GLYF: u64 = 0x676c_7966;

/// `loca`: where the outline of each glyph stands.
pub const LOCA: u64 = 0x6c6f_6361;

/// `OS/2`: the typographic and the Windows ascender and descender.
pub const OS2: u64 = 0x4f53_2f32;

/// `fvar`: the axes of a variable font.
pub const FVAR: u64 = 0x6676_6172;

/// `MVAR`: how the metrics vary.
pub const MVAR: u64 = 0x4d56_4152;

/// `gvar`: how the outlines vary.
pub const GVAR: u64 = 0x6776_6172;

/// `CFF `: outlines as programs.
pub const CFF: u64 = 0x4346_4620;

/// `CFF2`: outlines as programs, with variations.
pub const CFF2: u64 = 0x4346_4632;

/// The number in the two bytes at `at`, the most significant one first.
pub open spec fn be16(data: Seq<u8>, at: int) -> int {
    0x100 * data[at] + data[at + 1]
}

/// The number in the four bytes at `at`, the most significant one first.
pub open spec fn be32(data: Seq<u8>, at: int) -> int {
    0x1_0000 * be16(data, at) + be16(data, at + 2)
}

/// Where the first font of the file begins.
pub open spec fn font_at(data: Seq<u8>) -> int {
    if data.len() >= 16 && be32(data, 0) == COLLECTION {
        be32(data, 12)
    } else {
        0
    }
}

/// The number of tables of the font.
pub open spec fn table_count(data: Seq<u8>) -> int {
    if font_at(data) + 6 <= data.len() {
        be16(data, font_at(data) + 4)
    } else {
        0
    }
}

/// Where entry `k` of the table directory stands.
pub open spec fn entry_at(data: Seq<u8>, k: int) -> int {
    font_at(data) + 12 + 16 * k
}

/// The directory lies in the file.
pub open spec fn has_directory(data: Seq<u8>) -> bool {
    entry_at(data, table_count(data)) <= data.len()
}

/// Entry `k` names a table with this tag, at a place that an index can tell.
pub open spec fn names(data: Seq<u8>, tag: u64, k: int) -> bool {
    let at = entry_at(data, k);
    be32(data, at) == tag && be32(data, at + 8) + be32(data, at + 12) <= usize::MAX
}

/// The last of the first `n` entries that names a table with this tag, -1 where
/// none does.
pub open spec fn last_named(data: Seq<u8>, tag: u64, n: int) -> int
    decreases n,
{
    if n <= 0 {
        -1
    } else if names(data, tag, n - 1) {
        n - 1
    } else {
        last_named(data, tag, n - 1)
    }
}

/// The table with this tag. Of several entries the last one counts, and it has
/// to lie in the file.
pub open spec fn table(data: Seq<u8>, tag: u64) -> Option<Seq<u8>> {
    let k = last_named(data, tag, table_count(data));
    let start = be32(data, entry_at(data, k) + 8);
    let end = start + be32(data, entry_at(data, k) + 12);
    if has_directory(data) && k >= 0 && end <= data.len() {
        Some(data.subrange(start, end))
    } else {
        None
    }
}

/// The least size of an `OS/2` table of this version.
pub open spec fn os2_size(version: int) -> int {
    if version == 0 {
        78
    } else if version == 1 {
        86
    } else if version <= 4 {
        96
    } else {
        100
    }
}

/// The signed number in the two bytes at `at`, the most significant one first.
pub open spec fn signed16(data: Seq<u8>, at: int) -> int {
    if be16(data, at) < 0x8000 {
        be16(data, at)
    } else {
        be16(data, at) - 0x1_0000
    }
}

/// The `OS/2` table, where its version is known and it is large enough for it.
pub open spec fn usable_os2(data: Seq<u8>) -> Option<Seq<u8>> {
    match table(data, OS2) {
        Some(os2) => if os2.len() >= 78 && be16(os2, 0) <= 5 && os2.len() >= os2_size(
            be16(os2, 0),
        ) {
            Some(os2)
        } else {
            None
        },
        None => None,
    }
}

/// The `OS/2` table wants its typographic metrics to be used: it has a flag for
/// that from version 4 on.
pub open spec fn prefers_typographic(os2: Seq<u8>) -> bool {
    be16(os2, 0) >= 4 && be16(os2, 62) / 0x80 % 2 == 1
}

/// Which of three values a metric has: the typographic one where it is preferred,
/// else the first that is not zero.
pub open spec fn chosen_metric(
    preferred: bool,
    ordinary: int,
    typographic: int,
    windows: int,
) -> int {
    if preferred {
        typographic
    } else if ordinary != 0 {
        ordinary
    } else if typographic != 0 {
        typographic
    } else {
        windows
    }
}

/// The ascender of a font with this `hhea` table.
pub open spec fn font_ascender(data: Seq<u8>, hhea: Seq<u8>) -> int {
    match usable_os2(data) {
        Some(os2) => chosen_metric(
            prefers_typographic(os2),
            signed16(hhea, 4),
            signed16(os2, 68),
            signed16(os2, 74),
        ),
        None => signed16(hhea, 4),
    }
}

/// The descender of a font with this `hhea` table. Among the Windows metrics it
/// stands with the other sign.
pub open spec fn font_descender(data: Seq<u8>, hhea: Seq<u8>) -> int {
    match usable_os2(data) {
        Some(os2) => chosen_metric(
            prefers_typographic(os2),
            signed16(hhea, 6),
            signed16(os2, 70),
            -signed16(os2, 76),
        ),
        None => signed16(hhea, 6),
    }
}

/// The descender of the font is the opposite of the least 16-bit number, which
/// is none.
pub open spec fn descender_overflows(data: Seq<u8>) -> bool {
    match table(data, HHEA) {
        Some(hhea) => hhea.len() >= 36 && font_descender(data, hhea) > i16::MAX,
        None => false,
    }
}

/// The directory can be walked: its entries can be counted with 16 bits, and one
/// more. An index has 64 bits: with fewer, sizes that stand in the tables can
/// overflow it.
pub open spec fn parsable(data: Seq<u8>) -> bool {
    usize::MAX == u64::MAX && table_count(data) < 0xffff
}

/// The metrics of the font do not vary.
pub open spec fn metrics_fixed(data: Seq<u8>) -> bool {
    table(data, FVAR) is None || table(data, MVAR) is None
}

/// Ascender and descender can be asked for.
pub open spec fn metrics_readable(data: Seq<u8>) -> bool {
    parsable(data) && metrics_fixed(data) && !descender_overflows(data)
}

/// The glyphs are drawn from the `glyf` table: it is there, and so is a `loca`
/// table, with no more places than can be counted with 16 bits. The `head` table
/// tells whether a place takes two bytes or four.
pub open spec fn has_plain_outlines(data: Seq<u8>) -> bool {
    match (table(data, HEAD), table(data, LOCA)) {
        (Some(head), Some(loca)) => {
            &&& table(data, GLYF) is Some
            &&& head.len() >= 54
            &&& loca.len() / (if be16(head, 50) == 0 {
                2nat
            } else {
                4
            }) <= 0xffff
        },
        _ => false,
    }
}

/// The boxes of glyphs can be asked for: either the glyphs are drawn from the
/// `glyf` table, and that does not vary, or there are no programs to draw them
/// from.
pub open spec fn boxes_readable(data: Seq<u8>) -> bool {
    &&& parsable(data)
    &&& if has_plain_outlines(data) {
        table(data, GVAR) is None
    } else {
        table(data, CFF) is None && table(data, CFF2) is None
    }
}

fn read16(data: &[u8], at: u64) -> (r: u64)
    requires
        at + 2 <= data.len(),
    ensures
        r == be16(data@, at as int),
        r <= 0xffff,
{
    0x100 * data[at as usize] as u64 + data[at as usize + 1] as u64
}

fn read32(data: &[u8], at: u64) -> (r: u64)
    requires
        at + 4 <= data.len(),
    ensures
        r == be32(data@, at as int),
        r <= 0xffff_ffff,
{
    0x1_0000 * read16(data, at) + read16(data, at + 2)
}

fn find_font(data: &[u8]) -> (r: u64)
    ensures
        r == font_at(data@),
        r <= 0xffff_ffff,
{
    if data.len() >= 16 && read32(data, 0) == COLLECTION {
        read32(data, 12)
    } else {
        0
    }
}

fn count_tables(data: &[u8]) -> (r: u64)
    ensures
        r == table_count(data@),
        r <= 0xffff,
{
    let font: u64 = find_font(data);
    if font + 6 <= data.len() as u64 {
        read16(data, font + 4)
    } else {
        0
    }
}

/// Finds the table with this tag.
pub fn find_table(data: &[u8], tag: u64) -> (r: Option<&[u8]>)
    ensures
        match (r, table(data@, tag)) {
            (Some(found), Some(want)) => found@ == want,
            (None, None) => true,
            _ => false,
        },
{
    let len: u64 = data.len() as u64;
    let font: u64 = find_font(data);
    let count: u64 = count_tables(data);
    if font + 12 + 16 * count > len {
        return None;
    }
    let mut last: i64 = -1;
    let mut start: u64 = 0;
    let mut end: u64 = 0;
    for k in 0..count
        invariant
            len == data.len(),
            font == font_at(data@),
            count == table_count(data@),
            font <= 0xffff_ffff,
            count <= 0xffff,
            font + 12 + 16 * count <= len,
            last == last_named(data@, tag, k as int),
            -1 <= last < k,
            last >= 0 ==> start == be32(data@, entry_at(data@, last as int) + 8),
            last >= 0 ==> end == start + be32(data@, entry_at(data@, last as int) + 12),
    {
        let at: u64 = font + 12 + 16 * k;
        let from: u64 = read32(data, at + 8);
        let to: u64 = from + read32(data, at + 12);
        if read32(data, at) == tag && to <= usize::MAX as u64 {
            last = k as i64;
            start = from;
            end = to;
        }
    }
    if last >= 0 && end <= len {
        Some(slice_subrange(data, start as usize, end as usize))
    } else {
        None
    }
}

/// Finds the `OS/2` table, where it can be used.
fn find_os2(data: &[u8]) -> (r: Option<&[u8]>)
    ensures
        match (r, usable_os2(data@)) {
            (Some(found), Some(want)) => found@ == want,
            (None, None) => true,
            _ => false,
        },
{
    match find_table(data, OS2) {
        Some(os2) => {
            if os2.len() < 78 {
                return None;
            }
            let version: u64 = read16(os2, 0);
            let size: usize = if version == 0 {
                78
            } else if version == 1 {
                86
            } else if version <= 4 {
                96
            } else {
                100
            };
            if version <= 5 && os2.len() >= size {
                Some(os2)
            } else {
                None
            }
        },
        None => None,
    }
}

/// The font's descender does not overflow.
pub fn descender_exists(data: &[u8]) -> (r: bool)
    ensures
        r == !descender_overflows(data@),
{
    match (find_table(data, HHEA), find_os2(data)) {
        (Some(hhea), Some(os2)) => {
            if hhea.len() < 36 || read16(hhea, 6) != 0 {
                return true;
            }
            let preferred = read16(os2, 0) >= 4 && read16(os2, 62) / 0x80 % 2 == 1;
            preferred || read16(os2, 70) != 0 || read16(os2, 76) != 0x8000
        },
        _ => true,
    }
}

/// The directory can be walked.
fn can_parse(data: &[u8]) -> (r: bool)
    ensures
        r == parsable(data@),
{
    usize::MAX as u64 == u64::MAX && count_tables(data) < 0xffff
}

/// Ascender and descender can be asked for.
pub fn can_read_metrics(data: &[u8]) -> (r: bool)
    ensures
        r == metrics_readable(data@),
{
    can_parse(data) && (find_table(data, FVAR).is_none() || find_table(data, MVAR).is_none())
        && descender_exists(data)
}

/// The glyphs are drawn from the `glyf` table.
fn draws_plain_outlines(data: &[u8]) -> (r: bool)
    ensures
        r == has_plain_outlines(data@),
{
    match (find_table(data, HEAD), find_table(data, LOCA)) {
        (Some(head), Some(loca)) => {
            if find_table(data, GLYF).is_none() || head.len() < 54 {
                return false;
            }
            let size: usize = if read16(head, 50) == 0 {
                2
            } else {
                4
            };
            loca.len() / size <= 0xffff
        },
        _ => false,
    }
}

/// The boxes of glyphs can be asked for.
pub fn can_read_boxes(data: &[u8]) -> (r: bool)
    ensures
        r == boxes_readable(data@),
{
    if !can_parse(data) {
        false
    } else if draws_plain_outlines(data) {
        find_table(data, GVAR).is_none()
    } else {
        find_table(data, CFF).is_none() && find_table(data, CFF2).is_none()
    }
}

} // verus!
