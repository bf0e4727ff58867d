//! Where the characters of a column stand, in numbers.
use crate::arc::scene::{padded, padding, MAX_PADDING, PADDING};
use crate::fpu::{Fpu32, Op32};
use crate::literal::THOUSAND;
use crate::number::{lit, Real32};
use crate::rounding::{
    faithful, is_whole, law_divided, law_literal, law_literals, law_mag_sum, law_mag_within,
    law_near_itself, law_near_sum, law_order, law_product, law_quotient, law_val, law_whole,
    law_whole_arithmetic, law_whole_result, mag, near, tiny, val,
};
use crate::screens::{
    cell_of, column_of, Column, ADVANCE, COLUMNS, LEADING, MARGIN, MARGINS, SCREEN_WIDTH, TOP,
};
use vstd::arithmetic::div_mod::{lemma_fundamental_div_mod, lemma_mod_bound};
use vstd::arithmetic::power2::{lemma2_to64, lemma_pow2_pos, pow2};
use vstd::prelude::*;

verus! {

/// The integer part of a value is the greatest integer that is not above it.
pub proof fn law_floor(a: Real32)
    requires
        a.is_finite(),
        !a.negative(),
        val(a) <= 8388608 as real,
    ensures
        a.floor_usize() as real <= val(a),
        val(a) < a.floor_usize() as real + 1 as real,
{
    lemma2_to64();
    let top = lit(0x4b00_0000);
    law_literal(0x4b00_0000, 0, 1);
    law_order(a, top);
    let k = (-a.exponent()) as nat;
    law_val(a, k);
    lemma_pow2_pos(k);
    let (m, p) = (a.significand(), pow2(k) as int);
    let n = m / p;
    lemma_fundamental_div_mod(m, p);
    lemma_mod_bound(m, p);
    assert(n * p <= m < (n + 1) * p) by (nonlinear_arith)
        requires
            m == p * n + m % p,
            0 <= m % p < p,
    ;
    let (v, x, y) = (val(a), p as real, n as real);
    lemma_real(n, p);
    lemma_real(n + 1, p);
    assert(y <= v && v < y + 1 as real) by (nonlinear_arith)
        requires
            x > 0 as real,
            y * x <= v * x,
            v * x < (y + 1 as real) * x,
    ;
    assert(0 <= n <= 8388608);
    if k == 0 {
        assert(m / 1 == m);
        assert(m * 1 == m);
    }
}

proof fn lemma_real(i: int, j: int)
    ensures
        (i * j) as real == i as real * j as real,
{
    let (x, y) = (i as real, j as real);
    assert((i * j) as real == x * y) by (nonlinear_arith)
        requires
            x == i as real,
            y == j as real,
    ;
}

proof fn lemma_literals()
    ensures
        is_whole(lit(SCREEN_WIDTH), 1650),
        is_whole(lit(COLUMNS), 5),
        is_whole(lit(MARGIN), 12),
        is_whole(lit(MARGINS), 24),
        is_whole(lit(TOP), 20),
        is_whole(lit(THOUSAND), 1000),
        is_whole(lit(PADDING), 600),
        is_whole(lit(MAX_PADDING), 100),
        lit(ADVANCE).is_finite(),
        mag(val(lit(ADVANCE)) - 58 as real / 100 as real) <= 1 as real / 10000000 as real,
        lit(LEADING).is_finite(),
        val(lit(LEADING)) == 5 as real / 4 as real,
{
    lemma2_to64();
    law_literal(SCREEN_WIDTH, 13, 0x2000);
    law_literal(COLUMNS, 21, 0x20_0000);
    law_literal(MARGIN, 20, 0x10_0000);
    law_literal(MARGINS, 19, 0x8_0000);
    law_literal(TOP, 19, 0x8_0000);
    law_literal(THOUSAND, 14, 0x4000);
    law_literal(PADDING, 14, 0x4000);
    law_literal(MAX_PADDING, 17, 0x2_0000);
    law_literal(ADVANCE, 24, 0x100_0000);
    law_literal(LEADING, 23, 0x80_0000);
    law_mag_within(val(lit(ADVANCE)) - 58 as real / 100 as real, 1 as real / 10000000 as real);
}

/// A font size between 1 and 300.
pub open spec fn is_size(s: Real32) -> bool {
    s.is_finite() && 1 as real <= val(s) <= 300 as real
}

/// Five columns share a width of 1650: each is 330 wide and begins after a margin of
/// 12. A character is 0.58 font sizes wide and 1.25 high, the glyph square of 1000 is
/// drawn in the font size, and a line holds as many characters as fit between the
/// margins, and one at least.
pub proof fn law_column<F: Fn(Op32) -> Real32>(u: &Fpu32<F>, index: usize, size: Real32)
    requires
        faithful(u),
        index < 1000,
        is_size(size),
    ensures
        ({
            let c = column_of(u, index, size);
            let s = val(size);
            let wide = c.max_cols as real * val(c.advance_x);
            &&& is_whole(c.x_start, 330 * index as int + 12)
            &&& c.scale.is_finite() && mag(1000 as real * val(c.scale) - s) <= 1 as real
                / 1000 as real
            &&& near(c.advance_x, s * 58 as real / 100 as real, 1 as real / 1000 as real)
            &&& near(c.line_height, s * 5 as real / 4 as real, 1 as real / 1000 as real)
            &&& c.max_cols >= 1
            &&& val(c.advance_x) <= 300 as real ==> wide <= 306 as real + 1 as real / 1000 as real
            &&& wide + val(c.advance_x) >= 306 as real - 1 as real / 1000 as real
        }),
{
    let s = val(size);
    lemma_literals();
    let width = u.div(lit(SCREEN_WIDTH), lit(COLUMNS));
    law_quotient(u, lit(SCREEN_WIDTH), lit(COLUMNS));
    assert(1650 as real / 5 as real == 330 as real);
    law_whole_result(330, width);
    law_whole(u, index as u64);
    law_whole_result(index as int, u.from_uint(index as u64));
    law_whole_arithmetic(u, u.from_uint(index as u64), width, index as int, 330);
    law_whole_arithmetic(u, u.mul(u.from_uint(index as u64), width), lit(MARGIN), index * 330, 12);
    law_quotient(u, size, lit(THOUSAND));
    let z = s / 1000 as real;
    law_mag_within(z, 1 as real);
    let scale = val(u.div(size, lit(THOUSAND)));
    law_mag_within(scale - z, 1 as real / 1000000 as real);
    law_mag_within(1000 as real * scale - s, 1 as real / 1000 as real);
    // The advance.
    let k = val(lit(ADVANCE));
    law_mag_within(k - 58 as real / 100 as real, 1 as real / 10000000 as real);
    let p = s * k;
    let g = k - 58 as real / 100 as real;
    assert(p == s * 58 as real / 100 as real + s * g) by (nonlinear_arith)
        requires
            p == s * k,
            g == k - 58 as real / 100 as real,
    ;
    assert(-(3 as real / 100000 as real) <= s * g <= 3 as real / 100000 as real)
        by (nonlinear_arith)
        requires
            0 as real <= s <= 300 as real,
            -(1 as real / 10000000 as real) <= g <= 1 as real / 10000000 as real,
    ;
    law_mag_within(p, 200 as real);
    law_product(u, size, lit(ADVANCE));
    let advance = u.mul(size, lit(ADVANCE));
    law_mag_within(val(advance) - p, 1 as real / 10000 as real);
    law_mag_within(val(advance) - s * 58 as real / 100 as real, 1 as real / 1000 as real);
    // The line height.
    let q = s * val(lit(LEADING));
    assert(q == s * 5 as real / 4 as real) by (nonlinear_arith)
        requires
            val(lit(LEADING)) == 5 as real / 4 as real,
            q == s * val(lit(LEADING)),
    ;
    law_mag_within(q, 400 as real);
    law_product(u, size, lit(LEADING));
    law_mag_within(val(u.mul(size, lit(LEADING))) - q, 1 as real / 1000 as real);
    // What fits.
    law_whole_arithmetic(u, width, lit(MARGINS), 330, 24);
    let usable = u.sub(width, lit(MARGINS));
    let a = val(advance);
    let w = 306 as real / a;
    law_divided(306 as real, a);
    assert((0 as real) < w <= 1000 as real) by (nonlinear_arith)
        requires
            w * a == 306 as real,
            a * 2 as real >= 1 as real,
    ;
    law_mag_sum(w, w);
    law_quotient(u, usable, advance);
    let fit = u.div(usable, advance);
    law_mag_within(val(fit) - w, 1 as real / 5000 as real);
    law_mag_within(val(fit) - w, w / 8388608 as real + tiny());
    law_literals();
    crate::rounding::law_at_least(w, fit, lit(0));
    law_order(lit(0), fit);
    let e = val(fit) - w;
    let v = val(fit) * a;
    let b = w / 8388608 as real + tiny();
    assert(v == 306 as real + e * a) by (nonlinear_arith)
        requires
            w * a == 306 as real,
            e == val(fit) - w,
            v == val(fit) * a,
    ;
    assert(-(1 as real / 10000 as real) <= e * a <= 1 as real / 10000 as real) by {
        assert(b * a == 306 as real / 8388608 as real + a / 1152921504606846976 as real)
            by (nonlinear_arith)
            requires
                w * a == 306 as real,
                b == w / 8388608 as real + 1 as real / 1152921504606846976 as real,
        ;
        assert(-(b * a) <= e * a <= b * a) by (nonlinear_arith)
            requires
                -b <= e <= b,
                a > 0 as real,
        ;
    }
    let n = fit.floor_usize();
    if fit.negative() {
        assert(fit.key() == 0);
        assert(val(fit) == 0 as real);
        assert(false) by (nonlinear_arith)
            requires
                v == val(fit) * a,
                val(fit) == 0 as real,
                v >= 305 as real,
        ;
    }
    law_floor(fit);
    let c = column_of(u, index, size);
    let x = n as real;
    assert(x * a <= v && v <= (x + 1 as real) * a) by (nonlinear_arith)
        requires
            v == val(fit) * a,
            a > 0 as real,
            x <= val(fit) < x + 1 as real,
    ;
    assert((x + 1 as real) * a == x * a + a) by (nonlinear_arith);
    if n < 1 {
        assert(n == 0);
        assert(0 as real * a == 0 as real) by (nonlinear_arith);
        assert(1 as real * a == a) by (nonlinear_arith);
    }
}

/// A character stands so many advances right of the column's start and so many line
/// heights below the first line, at 20: places in a line are filled from the left, and
/// then the next line.
pub proof fn law_cell<F: Fn(Op32) -> Real32>(u: &Fpu32<F>, c: Column, i: int, place: int, line: int)
    requires
        faithful(u),
        c.x_start.is_finite() && mag(val(c.x_start)) <= 8000 as real,
        c.advance_x.is_finite() && 0 as real <= val(c.advance_x),
        c.line_height.is_finite() && 0 as real <= val(c.line_height),
        0 <= place < c.max_cols,
        0 <= line,
        i == line * c.max_cols + place,
        place <= 100000,
        line <= 100000,
        place as real * val(c.advance_x) <= 8000 as real,
        line as real * val(c.line_height) <= 16000 as real,
    ensures
        near(
            cell_of(u, c, i)[0],
            val(c.x_start) + place as real * val(c.advance_x),
            1 as real / 100 as real,
        ),
        near(
            cell_of(u, c, i)[1],
            20 as real + line as real * val(c.line_height),
            1 as real / 100 as real,
        ),
{
    lemma_literals();
    let n = c.max_cols as int;
    vstd::arithmetic::div_mod::lemma_fundamental_div_mod_converse(i, n, line, place);
    lemma_offset(u, c.x_start, c.advance_x, place);
    law_mag_within(20 as real, 8000 as real);
    lemma_offset(u, lit(TOP), c.line_height, line);
}

/// So many steps from a place.
proof fn lemma_offset<F: Fn(Op32) -> Real32>(u: &Fpu32<F>, a: Real32, step: Real32, k: int)
    requires
        faithful(u),
        a.is_finite() && mag(val(a)) <= 8000 as real,
        step.is_finite() && 0 as real <= val(step),
        0 <= k <= 100000,
        k as real * val(step) <= 16000 as real,
    ensures
        near(
            u.add(a, u.mul(u.from_uint(k as u64), step)),
            val(a) + k as real * val(step),
            1 as real / 100 as real,
        ),
{
    let n = u.from_uint(k as u64);
    law_whole(u, k as u64);
    law_whole_result(k, n);
    let p = k as real * val(step);
    assert(p >= 0 as real) by (nonlinear_arith)
        requires
            p == k as real * val(step),
            k >= 0,
            val(step) >= 0 as real,
    ;
    law_mag_sum(p, p);
    law_product(u, n, step);
    let r = u.mul(n, step);
    law_near_itself(a);
    law_near_sum(u, a, r, val(a), p, 0 as real, 1 as real / 500 as real);
}

/// The box of an instance is that of its glyph with the same margin on all sides: 600
/// by the font size, and at most 100.
pub proof fn law_padded<F: Fn(Op32) -> Real32>(u: &Fpu32<F>, b: [Real32; 4], size: Real32)
    requires
        faithful(u),
        is_size(size),
        forall|i: int| 0 <= i < 4 ==> (#[trigger] b[i]).is_finite() && mag(val(b[i])) <= 8000 as real,
    ensures
        ({
            let pad = padding(u, size);
            let r = padded(u, b, pad);
            let e = 1 as real / 100 as real;
            let p = val(pad);
            &&& pad.is_finite() && (0 as real) < p <= 100 as real
            &&& 600 as real >= 100 as real * val(size) ==> p == 100 as real
            &&& 600 as real <= 100 as real * val(size) ==> mag(p * val(size) - 600 as real)
                <= 1 as real / 100 as real
            &&& near(r[0], val(b[0]) - p, e) && near(r[1], val(b[1]) - p, e)
            &&& near(r[2], val(b[2]) + p, e) && near(r[3], val(b[3]) + p, e)
        }),
{
    lemma_literals();
    let s = val(size);
    let q = 600 as real / s;
    law_divided(600 as real, s);
    assert((0 as real) < q <= 600 as real) by (nonlinear_arith)
        requires
            q * s == 600 as real,
            s >= 1 as real,
    ;
    law_mag_sum(q, q);
    law_quotient(u, lit(PADDING), size);
    let d = u.div(lit(PADDING), size);
    let e = val(d) - q;
    law_mag_within(e, q / 8388608 as real + tiny());
    let max = lit(MAX_PADDING);
    law_order(max, d);
    assert(q >= 100 as real || q <= 100 as real);
    if 600 as real >= 100 as real * s {
        assert(q >= 100 as real) by (nonlinear_arith)
            requires
                q * s == 600 as real,
                (1 as real) <= s,
                100 as real * s <= 600 as real,
        ;
        crate::rounding::law_at_least(q, d, max);
        law_order(d, max);
    }
    if 600 as real <= 100 as real * s {
        assert(q <= 100 as real && q * 2 as real >= 1 as real) by (nonlinear_arith)
            requires
                q * s == 600 as real,
                100 as real * s >= 600 as real,
                s <= 300 as real,
        ;
        crate::rounding::law_at_most(q, d, max);
        law_order(d, max);
        assert(-(1 as real / 100 as real) <= val(d) * s - 600 as real <= 1 as real / 100 as real)
            by (nonlinear_arith)
            requires
                q * s == 600 as real,
                (0 as real) <= s <= 300 as real,
                -(1 as real / 50000 as real) <= val(d) - q <= 1 as real / 50000 as real,
        ;
        law_mag_within(val(d) * s - 600 as real, 1 as real / 100 as real);
        law_order(max, d);
    }
    let pad = padding(u, size);
    let p = val(pad);
    law_near_itself(pad);
    law_mag_sum(p, p);
    let z = 0 as real;
    law_near_itself(b[0]);
    law_near_itself(b[1]);
    law_near_itself(b[2]);
    law_near_itself(b[3]);
    law_near_sum(u, b[0], pad, val(b[0]), p, z, z);
    law_near_sum(u, b[1], pad, val(b[1]), p, z, z);
    law_near_sum(u, b[2], pad, val(b[2]), p, z, z);
    law_near_sum(u, b[3], pad, val(b[3]), p, z, z);
}

} // verus!
