//! Which bands list a curve, in numbers.
use crate::fpu::{Fpu32, Op32};
use crate::literal::{ONE_TENTH, ONE_TWENTIETH};
use crate::number::{lit, Real32};
use crate::rounding::{
    faithful, huge, law_difference, law_exact, law_literal, law_mag, law_mag_sum, law_mag_within,
    law_order, law_product, law_quotient, law_sum, law_whole, mag, tiny, val,
};
use crate::slug::atlas::{
    band_axis, band_high, band_list, band_low, band_slack, band_step, bounds, has_coordinate,
    law_band_list, law_bounds, BANDS_PER_GLYPH, MIN_RISE, MIN_SIZE, NUM_BANDS,
};
use crate::slug::outline::GpuCurve;
use vstd::arithmetic::power2::{lemma2_to64, lemma_pow2_adds};
use vstd::prelude::*;

verus! {

/// A number that a coordinate of a glyph can have: at most 65536.
pub open spec fn in_square(x: Real32) -> bool {
    x.is_finite() && mag(val(x)) <= 65536 as real
}

/// Where part `b` of eight begins, of the way from `lo` on over `span`.
pub open spec fn part_begin(lo: real, span: real, b: int) -> real {
    lo + b as real * span / 8 as real
}

/// A step is an eighth of the extent, up to rounding.
proof fn lemma_step<F: Fn(Op32) -> Real32>(u: &Fpu32<F>, lo: Real32, hi: Real32)
    requires
        faithful(u),
        in_square(lo),
        in_square(hi),
        val(lo) <= val(hi),
    ensures
        ({
            let span = val(hi) - val(lo);
            let step = band_step(u, lo, hi);
            let near = span / 4000000 as real + 1 as real / 4000 as real;
            &&& step.is_finite()
            &&& span / 8 as real - near <= val(step) <= span / 8 as real + near
            &&& val(step) >= 0 as real
        }),
{
    lemma2_to64();
    lemma_pow2_adds(5, 28);
    lemma_pow2_adds(3, 30);
    law_literal(MIN_SIZE, 33, 0x2_0000_0000);
    law_literal(0x4100_0000, 20, 0x10_0000);
    let min = lit(MIN_SIZE);
    let span = val(hi) - val(lo);
    law_mag_within(val(lo), 65536 as real);
    law_mag_within(val(hi), 65536 as real);
    law_mag_within(span, 131072 as real);
    law_mag_sum(span, span);
    law_difference(u, hi, lo);
    let d = u.sub(hi, lo);
    let e = span / 8388608 as real + tiny();
    law_mag_within(val(d) - span, e);
    let w = d.max(min);
    law_order(d, min);
    law_order(min, d);
    law_whole(u, NUM_BANDS as u64);
    let eight = u.from_uint(NUM_BANDS as u64);
    law_exact(8 as real, eight, lit(0x4100_0000));
    let q = val(w) / val(eight);
    assert(q == val(w) / 8 as real);
    law_mag_sum(q, q);
    law_quotient(u, w, eight);
    let step = u.div(w, eight);
    law_mag_within(val(step) - q, q / 8388608 as real + tiny());
}

/// How far a band reaches into its neighbours, up to rounding.
proof fn lemma_slack<F: Fn(Op32) -> Real32>(u: &Fpu32<F>, step: Real32)
    requires
        faithful(u),
        step.is_finite(),
        0 as real <= val(step) <= 20000 as real,
    ensures
        ({
            let slack = band_slack(u, step);
            let want = val(step) / 20 as real + 1 as real / 10 as real;
            &&& slack.is_finite()
            &&& want - want / 1000000 as real <= val(slack) <= want + want / 1000000 as real
        }),
{
    lemma2_to64();
    law_literal(ONE_TWENTIETH, 28, 0x1000_0000);
    law_literal(ONE_TENTH, 27, 0x800_0000);
    let c = val(lit(ONE_TWENTIETH));
    let s = val(step);
    let p = s * c;
    assert(p == s * 13421773 as real / 268435456 as real) by (nonlinear_arith)
        requires
            c == 13421773 as real / 268435456 as real,
            p == s * c,
    ;
    law_mag_sum(p, p);
    law_product(u, step, lit(ONE_TWENTIETH));
    let r = u.mul(step, lit(ONE_TWENTIETH));
    law_mag_within(val(r) - p, p / 8388608 as real + tiny());
    let t = val(r) + val(lit(ONE_TENTH));
    law_mag_sum(t, t);
    law_sum(u, r, lit(ONE_TENTH));
    law_mag_within(val(u.add(r, lit(ONE_TENTH))) - t, t / 8388608 as real + tiny());
}

/// Where a band begins without its slack, up to rounding.
proof fn lemma_edge<F: Fn(Op32) -> Real32>(u: &Fpu32<F>, lo: Real32, step: Real32, b: int)
    requires
        faithful(u),
        in_square(lo),
        step.is_finite(),
        0 as real <= val(step) <= 20000 as real,
        0 <= b <= 8,
    ensures
        ({
            let edge = u.add(lo, u.mul(u.from_uint(b as u64), step));
            let want = val(lo) + b as real * val(step);
            let near = val(step) / 100000 as real + 1 as real / 100 as real;
            &&& edge.is_finite()
            &&& want - near <= val(edge) <= want + near
        }),
{
    let s = val(step);
    let x = b as real;
    let n = u.from_uint(b as u64);
    law_mag_within(x, 8 as real);
    law_whole(u, b as u64);
    let e = 1 as real / 1000000 as real;
    law_mag_within(val(n) - x, e);
    let f = val(n) - x;
    let p = val(n) * s;
    let want = x * s;
    assert(p == want + f * s) by (nonlinear_arith)
        requires
            p == val(n) * s,
            want == x * s,
            f == val(n) - x,
    ;
    assert(-(s / 1000000 as real) <= f * s <= s / 1000000 as real) by (nonlinear_arith)
        requires
            s >= 0 as real,
            -(1 as real / 1000000 as real) <= f <= 1 as real / 1000000 as real,
    ;
    assert(0 as real <= want <= 8 as real * s) by (nonlinear_arith)
        requires
            want == x * s,
            0 as real <= x <= 8 as real,
            s >= 0 as real,
    ;
    law_mag_within(p, 9 as real * s);
    law_product(u, n, step);
    let r = u.mul(n, step);
    law_mag_within(val(r) - p, 9 as real * s / 8388608 as real + tiny());
    law_mag_within(val(lo), 65536 as real);
    let t = val(lo) + val(r);
    law_mag_within(t, 65537 as real + 10 as real * s);
    law_sum(u, lo, r);
    law_mag_within(
        val(u.add(lo, r)) - t,
        (65537 as real + 10 as real * s) / 8388608 as real + tiny(),
    );
}

/// The eight bands of an axis cut the box into equal parts: band `b` begins at the
/// `b`-th of them and ends at the next, and reaches beyond both by a twentieth of a
/// part and a tenth of a unit, give or take a fifth of that.
pub proof fn law_band_reach<F: Fn(Op32) -> Real32>(u: &Fpu32<F>, lo: Real32, hi: Real32, b: int)
    requires
        faithful(u),
        in_square(lo),
        in_square(hi),
        val(lo) <= val(hi),
        0 <= b < NUM_BANDS,
    ensures
        ({
            let span = val(hi) - val(lo);
            let slack = span / 160 as real + 1 as real / 10 as real;
            let (low, high) = (band_low(u, lo, hi, b), band_high(u, lo, hi, b));
            let from = part_begin(val(lo), span, b);
            let to = part_begin(val(lo), span, b + 1);
            &&& low.is_finite() && high.is_finite()
            &&& from - slack - slack / 5 as real <= val(low) <= from - slack + slack / 5 as real
            &&& to + slack - slack / 5 as real <= val(high) <= to + slack + slack / 5 as real
        }),
{
    let span = val(hi) - val(lo);
    let step = band_step(u, lo, hi);
    law_mag_within(val(lo), 65536 as real);
    law_mag_within(val(hi), 65536 as real);
    lemma_step(u, lo, hi);
    lemma_slack(u, step);
    lemma_edge(u, lo, step, b);
    lemma_edge(u, lo, step, b + 1);
    lemma_parts(span, val(step), b);
    lemma_parts(span, val(step), b + 1);
    let slack = band_slack(u, step);
    let lower = u.add(lo, u.mul(u.from_uint(b as u64), step));
    let upper = u.add(lo, u.mul(u.from_uint((b + 1) as u64), step));
    let (x, y) = (val(lower) - val(slack), val(upper) + val(slack));
    law_difference(u, lower, slack);
    law_sum(u, upper, slack);
    law_mag_within(x, huge());
    law_mag_within(y, huge());
    lemma_within(x, 65536 as real + 3 as real + 3 as real * span / 2 as real);
    lemma_within(y, 65536 as real + 3 as real + 3 as real * span / 2 as real);
    let near = (65539 as real + 3 as real * span / 2 as real) / 8388608 as real + tiny();
    law_mag_within(val(band_low(u, lo, hi, b)) - x, near);
    law_mag_within(val(band_high(u, lo, hi, b)) - y, near);
}

proof fn lemma_within(x: real, e: real)
    ensures
        -e <= x <= e ==> mag(x) <= e,
{
    law_mag_within(x, e);
}

/// So many steps are so many eighths, up to the rounding of a step.
proof fn lemma_parts(span: real, step: real, b: int)
    requires
        span >= 0 as real,
        0 <= b <= 8,
        span / 8 as real - (span / 4000000 as real + 1 as real / 4000 as real) <= step,
        step <= span / 8 as real + (span / 4000000 as real + 1 as real / 4000 as real),
    ensures
        ({
            let want = b as real * span / 8 as real;
            let near = span / 500000 as real + 1 as real / 500 as real;
            want - near <= b as real * step <= want + near
        }),
        0 as real <= b as real * span / 8 as real <= span,
{
    let x = b as real;
    let near = span / 4000000 as real + 1 as real / 4000 as real;
    let d = step - span / 8 as real;
    let xs = x * span;
    let xt = x * step;
    assert(xt == xs / 8 as real + x * d) by (nonlinear_arith)
        requires
            xs == x * span,
            xt == x * step,
            d == step - span / 8 as real,
    ;
    assert(-(8 as real * near) <= x * d <= 8 as real * near) by (nonlinear_arith)
        requires
            0 as real <= x <= 8 as real,
            -near <= d <= near,
    ;
    assert(0 as real <= xs <= 8 as real * span) by (nonlinear_arith)
        requires
            xs == x * span,
            0 as real <= x <= 8 as real,
            span >= 0 as real,
    ;
}

/// The curve extends along the axis: one of its two legs does, by a thousandth.
pub open spec fn extends(c: GpuCurve, axis: int) -> bool {
    ||| mag(val(c.p12[axis]) - val(c.p12[2 + axis])) * 1000 as real >= 1 as real
    ||| mag(val(c.p12[2 + axis]) - val(c.p3[axis])) * 1000 as real >= 1 as real
}

/// All coordinates along the axis are those of a glyph.
pub open spec fn curve_in_square(c: GpuCurve, axis: int) -> bool {
    in_square(c.p12[axis]) && in_square(c.p12[2 + axis]) && in_square(c.p3[axis])
}

/// A leg that extends by a thousandth is not taken for flat.
proof fn lemma_leg<F: Fn(Op32) -> Real32>(u: &Fpu32<F>, a: Real32, b: Real32)
    requires
        faithful(u),
        in_square(a),
        in_square(b),
    ensures
        mag(val(a) - val(b)) * 1000 as real >= 1 as real ==> !u.sub(a, b).abs().lt(lit(MIN_RISE)),
        mag(val(a) - val(b)) * 20000 as real <= 1 as real ==> u.sub(a, b).abs().lt(lit(MIN_RISE)),
{
    lemma2_to64();
    lemma_pow2_adds(5, 32);
    lemma_pow2_adds(4, 32);
    law_literal(MIN_RISE, 37, 0x20_0000_0000);
    let d = u.sub(a, b);
    let x = val(a) - val(b);
    law_mag_sum(val(a), val(b));
    law_difference(u, a, b);
    law_mag_sum(x, val(d));
    law_mag_sum(val(d), x);
    law_mag_sum(val(d) - x, x);
    assert(-(val(d) - x) == x - val(d));
    law_mag(d);
    law_order(d.abs(), lit(MIN_RISE));
}

/// Band `k` of a glyph covers this place along its axis: of the eight equal parts of
/// the box, it is the one in which the place lies.
pub open spec fn covers(curves: Seq<GpuCurve>, k: int, y: Real32) -> bool {
    let axis = band_axis(k);
    let lo = val(bounds(curves)[axis]);
    let span = val(bounds(curves)[2 + axis]) - lo;
    let b = k % 8;
    y.is_finite() && part_begin(lo, span, b) <= val(y) <= part_begin(lo, span, b + 1)
}

/// All curves lie in the square of glyphs along the axis of the band.
pub open spec fn all_in_square(curves: Seq<GpuCurve>, axis: int) -> bool {
    curves.len() > 0 && forall|i: int|
        0 <= i < curves.len() ==> curve_in_square(#[trigger] curves[i], axis)
}

/// The sides of the box are coordinates, in order.
proof fn lemma_box(curves: Seq<GpuCurve>, axis: int)
    requires
        all_in_square(curves, axis),
        0 <= axis < 2,
    ensures
        in_square(bounds(curves)[axis]),
        in_square(bounds(curves)[2 + axis]),
        val(bounds(curves)[axis]) <= val(bounds(curves)[2 + axis]),
{
    law_bounds(curves, axis);
    let c = curves[0];
    let x = c.p12[axis];
    assert(curve_in_square(c, axis));
    assert(has_coordinate(c, axis, x));
    assert(crate::slug::atlas::is_coordinate(curves, axis, x));
    let (lo, hi) = (bounds(curves)[axis], bounds(curves)[2 + axis]);
    let i = choose|i: int| 0 <= i < curves.len() && #[trigger] has_coordinate(curves[i], axis, lo);
    let j = choose|j: int| 0 <= j < curves.len() && #[trigger] has_coordinate(curves[j], axis, hi);
    assert(curve_in_square(curves[i], axis));
    assert(curve_in_square(curves[j], axis));
    law_order(lo, x);
    law_order(x, hi);
}

/// A reader finds in the band of a place every curve of the glyph that extends along
/// the axis and reaches the place: has control points on both sides of it.
pub proof fn law_band_lists_what_reaches<F: Fn(Op32) -> Real32>(
    u: &Fpu32<F>,
    curves: Seq<GpuCurve>,
    k: int,
    i: int,
    below: Real32,
    y: Real32,
    above: Real32,
)
    requires
        faithful(u),
        0 <= k < BANDS_PER_GLYPH,
        0 <= i < curves.len(),
        all_in_square(curves, band_axis(k)),
        covers(curves, k, y),
        extends(curves[i], band_axis(k)),
        has_coordinate(curves[i], band_axis(k), below),
        has_coordinate(curves[i], band_axis(k), above),
        val(below) <= val(y) <= val(above),
    ensures
        band_list(u, curves, k).contains(i),
{
    let axis = band_axis(k);
    let (lo, hi) = (bounds(curves)[axis], bounds(curves)[2 + axis]);
    let b = k % (NUM_BANDS as int);
    let c = curves[i];
    law_band_list(u, curves, k);
    lemma_box(curves, axis);
    law_band_reach(u, lo, hi, b);
    assert(curve_in_square(c, axis));
    lemma_leg(u, c.p12[axis], c.p12[2 + axis]);
    lemma_leg(u, c.p12[2 + axis], c.p3[axis]);
    law_order(band_low(u, lo, hi, b), y);
    law_order(y, band_high(u, lo, hi, b));
    law_order(y, above);
    law_order(below, y);
}

/// A band lists only curves that extend along its axis, by 0.00005 at least, and none
/// that lies beyond the band by more than an eighth of a unit and a hundredth of the
/// box.
pub proof fn law_band_lists_nothing_else<F: Fn(Op32) -> Real32>(
    u: &Fpu32<F>,
    curves: Seq<GpuCurve>,
    k: int,
    i: int,
)
    requires
        faithful(u),
        0 <= k < BANDS_PER_GLYPH,
        all_in_square(curves, band_axis(k)),
        band_list(u, curves, k).contains(i),
    ensures
        ({
            let axis = band_axis(k);
            let lo = val(bounds(curves)[axis]);
            let span = val(bounds(curves)[2 + axis]) - lo;
            let c = curves[i];
            let (x0, x1, x2) = (val(c.p12[axis]), val(c.p12[2 + axis]), val(c.p3[axis]));
            let beyond = span / 100 as real + 1 as real / 8 as real;
            let from = part_begin(lo, span, k % 8) - beyond;
            let to = part_begin(lo, span, k % 8 + 1) + beyond;
            &&& 0 <= i < curves.len()
            &&& mag(x0 - x1) * 20000 as real > 1 as real || mag(x1 - x2) * 20000 as real > 1 as real
            &&& x0 >= from || x1 >= from || x2 >= from
            &&& x0 <= to || x1 <= to || x2 <= to
        }),
{
    let axis = band_axis(k);
    let (lo, hi) = (bounds(curves)[axis], bounds(curves)[2 + axis]);
    let b = k % (NUM_BANDS as int);
    let c = curves[i];
    law_band_list(u, curves, k);
    lemma_box(curves, axis);
    law_band_reach(u, lo, hi, b);
    assert(curve_in_square(c, axis));
    lemma_leg(u, c.p12[axis], c.p12[2 + axis]);
    lemma_leg(u, c.p12[2 + axis], c.p3[axis]);
    let (low, high) = (band_low(u, lo, hi, b), band_high(u, lo, hi, b));
    law_order(low, c.p12[axis]);
    law_order(low, c.p12[2 + axis]);
    law_order(low, c.p3[axis]);
    law_order(c.p12[axis], high);
    law_order(c.p12[2 + axis], high);
    law_order(c.p3[axis], high);
}

} // verus!
