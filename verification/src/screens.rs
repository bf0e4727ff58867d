//! What is written on the screen, and where.
use crate::fpu::{Fpu32, Op32};
use crate::literal::{ONE, THOUSAND};
use crate::number::{lit, Real32};
use vstd::prelude::*;
use vstd::string::StrSliceExecFns;

verus! {

/// The characters that the columns of text repeat.
pub const CHARSET: &'static str =
    "ABCDEFGHIJKLMNOPQRSTUVWXYZabcdefghijklmnopqrstuvwxyzАБВГДЕЁЖЗИЙКЛМНОПРСТУФХЦЧШЩЪЫЬЭЮЯабвгдеёжзийклмнопрстуфхцчшщъыьэюя0123456789!@#$%^&*()_+-=[]{}|;':\",.<>/?";

/// The characters of [`CHARSET`], in order.
pub fn charset() -> (chars: Vec<char>)
    ensures
        chars@ == CHARSET@,
{
    let mut chars: Vec<char> = Vec::new();
    let n: usize = CHARSET.unicode_len();
    for i in 0..n
        invariant
            n == CHARSET@.len(),
            chars@ == CHARSET@.take(i as int),
    {
        chars.push(CHARSET.get_char(i));
        assert(CHARSET@.take(i + 1) =~= CHARSET@.take(i as int).push(CHARSET@[i as int]));
    }
    assert(CHARSET@.take(n as int) =~= CHARSET@);
    chars
}

/// One column of text.
#[derive(Copy, Clone)]
pub struct SubScreenConfig {
    pub name: &'static str,
    pub font_size: Real32,
    pub char_count: usize,
    pub color: [Real32; 4],
}

/// 0.35
pub const C35: u32 = 0x3eb3_3333;

/// 0.45
pub const C45: u32 = 0x3ee6_6666;

/// 0.55
pub const C55: u32 = 0x3f0c_cccd;

/// 0.88
pub const C88: u32 = 0x3f61_47ae;

/// 0.9
pub const C90: u32 = 0x3f66_6666;

/// 4.0
pub const SIZE_4: u32 = 0x4080_0000;

/// 6.0
pub const SIZE_6: u32 = 0x40c0_0000;

/// 8.0
pub const SIZE_8: u32 = 0x4100_0000;

/// 12.0
pub const SIZE_12: u32 = 0x4140_0000;

/// 32.0
pub const SIZE_32: u32 = 0x4200_0000;

/// The columns, from left to right.
pub open spec fn screen_table() -> Seq<SubScreenConfig> {
    seq![
        SubScreenConfig {
            name: "11px",
            font_size: lit(SIZE_4),
            char_count: 25500,
            color: [lit(C35), lit(C90), lit(ONE), lit(ONE)],
        },
        SubScreenConfig {
            name: "13px",
            font_size: lit(SIZE_6),
            char_count: 10600,
            color: [lit(C45), lit(ONE), lit(C55), lit(ONE)],
        },
        SubScreenConfig {
            name: "20px",
            font_size: lit(SIZE_8),
            char_count: 6300,
            color: [lit(ONE), lit(C88), lit(C35), lit(ONE)],
        },
        SubScreenConfig {
            name: "32px",
            font_size: lit(SIZE_12),
            char_count: 2500,
            color: [lit(ONE), lit(C55), lit(C35), lit(ONE)],
        },
        SubScreenConfig {
            name: "72px",
            font_size: lit(SIZE_32),
            char_count: 400,
            color: [lit(C90), lit(C45), lit(ONE), lit(ONE)],
        },
    ]
}

pub fn screens() -> (r: Vec<SubScreenConfig>)
    ensures
        r@ == screen_table(),
{
    let one = lit(ONE);
    let mut r: Vec<SubScreenConfig> = Vec::new();
    r.push(
        SubScreenConfig {
            name: "11px",
            font_size: lit(SIZE_4),
            char_count: 25500,
            color: [lit(C35), lit(C90), one, one],
        },
    );
    r.push(
        SubScreenConfig {
            name: "13px",
            font_size: lit(SIZE_6),
            char_count: 10600,
            color: [lit(C45), one, lit(C55), one],
        },
    );
    r.push(
        SubScreenConfig {
            name: "20px",
            font_size: lit(SIZE_8),
            char_count: 6300,
            color: [one, lit(C88), lit(C35), one],
        },
    );
    r.push(
        SubScreenConfig {
            name: "32px",
            font_size: lit(SIZE_12),
            char_count: 2500,
            color: [one, lit(C55), lit(C35), one],
        },
    );
    r.push(
        SubScreenConfig {
            name: "72px",
            font_size: lit(SIZE_32),
            char_count: 400,
            color: [lit(C90), lit(C45), one, one],
        },
    );
    assert(r@ =~= screen_table());
    r
}

/// The number of characters in all columns.
pub open spec fn total_count(screens: Seq<SubScreenConfig>) -> nat
    decreases screens.len(),
{
    if screens.len() == 0 {
        0
    } else {
        total_count(screens.drop_last()) + screens.last().char_count as nat
    }
}

/// The first columns hold no more characters than all of them.
pub proof fn lemma_count_of_first(screens: Seq<SubScreenConfig>, n: int)
    requires
        0 <= n <= screens.len(),
    ensures
        total_count(screens.take(n)) <= total_count(screens),
        n < screens.len() ==> total_count(screens.take(n + 1)) == total_count(screens.take(n))
            + screens[n].char_count,
    decreases screens.len(),
{
    if n < screens.len() {
        assert(screens.take(n + 1).drop_last() =~= screens.take(n));
        assert(screens.take(n + 1).last() == screens[n]);
        if n + 1 < screens.len() {
            assert(screens.take(n) =~= screens.drop_last().take(n));
            lemma_count_of_first(screens.drop_last(), n);
        } else {
            assert(screens.take(n + 1) =~= screens);
        }
    } else {
        assert(screens.take(n) =~= screens);
    }
}

pub fn total_instances(screens: &Vec<SubScreenConfig>) -> (n: usize)
    requires
        total_count(screens@) <= usize::MAX,
    ensures
        n == total_count(screens@),
{
    let mut n: usize = 0;
    for i in 0..screens.len()
        invariant
            n == total_count(screens@.take(i as int)),
            total_count(screens@) <= usize::MAX,
    {
        proof {
            lemma_count_of_first(screens@, i as int);
            lemma_count_of_first(screens@, i + 1);
        }
        n = n + screens[i].char_count;
    }
    assert(screens@.take(screens.len() as int) =~= screens@);
    n
}

/// 1650.0: the width that the columns share.
pub const SCREEN_WIDTH: u32 = 0x44ce_4000;

/// 5.0: the number of columns.
pub const COLUMNS: u32 = 0x40a0_0000;

/// 12.0: the margin left of a column.
pub const MARGIN: u32 = 0x4140_0000;

/// 24.0: the margins at both sides of a column.
pub const MARGINS: u32 = 0x41c0_0000;

/// 20.0: the height of the first line.
pub const TOP: u32 = 0x41a0_0000;

/// 0.58: the advance of a character, in font sizes.
pub const ADVANCE: u32 = 0x3f14_7ae1;

/// 1.25: the height of a line, in font sizes.
pub const LEADING: u32 = 0x3fa0_0000;

/// The grid that a column's characters stand on.
#[derive(Copy, Clone, PartialEq, Eq, Structural, Debug)]
pub struct Column {
    pub x_start: Real32,
    pub scale: Real32,
    pub advance_x: Real32,
    pub line_height: Real32,
    /// The number of characters in a line, at least one.
    pub max_cols: usize,
}

/// Column `index` of a text in this size.
pub open spec fn column_of<F: Fn(Op32) -> Real32>(
    u: &Fpu32<F>,
    index: usize,
    font_size: Real32,
) -> Column {
    let width = u.div(lit(SCREEN_WIDTH), lit(COLUMNS));
    let advance_x = u.mul(font_size, lit(ADVANCE));
    let fitting = u.div(u.sub(width, lit(MARGINS)), advance_x).floor_usize();
    Column {
        x_start: u.add(u.mul(u.from_uint(index as u64), width), lit(MARGIN)),
        scale: u.div(font_size, lit(THOUSAND)),
        advance_x,
        line_height: u.mul(font_size, lit(LEADING)),
        max_cols: if fitting < 1 {
            1
        } else {
            fitting as usize
        },
    }
}

pub fn column<F: Fn(Op32) -> Real32>(u: &Fpu32<F>, index: usize, font_size: Real32) -> (c: Column)
    ensures
        c == column_of(u, index, font_size),
        c.max_cols >= 1,
{
    let width = u.div(lit(SCREEN_WIDTH), lit(COLUMNS));
    let advance_x = u.mul(font_size, lit(ADVANCE));
    let fitting = u.div(u.sub(width, lit(MARGINS)), advance_x).to_usize();
    Column {
        x_start: u.add(u.mul(u.from_uint(index as u64), width), lit(MARGIN)),
        scale: u.div(font_size, lit(THOUSAND)),
        advance_x,
        line_height: u.mul(font_size, lit(LEADING)),
        max_cols: if fitting < 1 {
            1
        } else {
            fitting
        },
    }
}

/// Where character number `i` of the column stands: lines are filled from the
/// left, one below the other.
pub open spec fn cell_of<F: Fn(Op32) -> Real32>(u: &Fpu32<F>, c: Column, i: int) -> [Real32; 2] {
    [
        u.add(c.x_start, u.mul(u.from_uint((i % c.max_cols as int) as u64), c.advance_x)),
        u.add(lit(TOP), u.mul(u.from_uint((i / c.max_cols as int) as u64), c.line_height)),
    ]
}

pub fn cell<F: Fn(Op32) -> Real32>(u: &Fpu32<F>, c: &Column, i: usize) -> (r: [Real32; 2])
    requires
        c.max_cols >= 1,
    ensures
        r == cell_of(u, *c, i as int),
{
    let col = u.from_uint((i % c.max_cols) as u64);
    let row = u.from_uint((i / c.max_cols) as u64);
    [u.add(c.x_start, u.mul(col, c.advance_x)), u.add(lit(TOP), u.mul(row, c.line_height))]
}

/// No two characters of a column share a cell: their line or their place in it
/// differs.
pub proof fn law_cells_are_distinct(c: Column, i: int, j: int)
    requires
        c.max_cols >= 1,
        i != j,
    ensures
        i % c.max_cols as int != j % c.max_cols as int || i / c.max_cols as int != j
            / c.max_cols as int,
{
    vstd::arithmetic::div_mod::lemma_fundamental_div_mod(i, c.max_cols as int);
    vstd::arithmetic::div_mod::lemma_fundamental_div_mod(j, c.max_cols as int);
}

} // verus!
