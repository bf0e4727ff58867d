//! Which bands hold a segment, in numbers.
use crate::arc::atlas::{band_high, band_list, band_low, law_band_list, BAND_HEIGHT, NUM_BANDS};
use crate::arc::segment::{crossing, GpuSegment, KIND_ARC, KIND_FLAT, KIND_LINE};
use crate::fpu::{Fpu32, Op32};
use crate::literal::ONE;
use crate::number::{lit, Real32};
use crate::rounding::{
    faithful, law_difference, law_literal, law_literals, law_mag_within, law_order, law_product,
    law_sum, law_whole, mag, val,
};
use vstd::arithmetic::power2::lemma2_to64;
use vstd::prelude::*;

verus! {

/// The height at which band `b` begins: the square of 1000 is cut into 32 of them.
pub open spec fn band_begin(b: int) -> real {
    b as real * 1000 as real / 32 as real
}

/// Every band reaches one unit beyond its place both ways, up to a hundredth.
pub proof fn law_band_reach<F: Fn(Op32) -> Real32>(u: &Fpu32<F>, b: int)
    requires
        faithful(u),
        0 <= b < NUM_BANDS,
    ensures
        band_low(u, b).is_finite(),
        band_high(u, b).is_finite(),
        mag(val(band_low(u, b)) - (band_begin(b) - 1 as real)) <= 1 as real / 100 as real,
        mag(val(band_high(u, b)) - (band_begin(b + 1) + 1 as real)) <= 1 as real / 100 as real,
{
    lemma_edge(u, b);
    lemma_edge(u, b + 1);
    law_literals();
    let lower = u.mul(u.from_uint(b as u64), lit(BAND_HEIGHT));
    let upper = u.mul(u.from_uint((b + 1) as u64), lit(BAND_HEIGHT));
    let low = band_low(u, b);
    let high = band_high(u, b);
    law_mag_within(val(lower) - 1 as real, 1100 as real);
    law_mag_within(val(upper) + 1 as real, 1100 as real);
    law_difference(u, lower, lit(ONE));
    law_sum(u, upper, lit(ONE));
    law_mag_within(val(low) - (val(lower) - 1 as real), 1 as real / 1000 as real);
    law_mag_within(val(high) - (val(upper) + 1 as real), 1 as real / 1000 as real);
    law_mag_within(
        val(low) - (band_begin(b) - 1 as real),
        1 as real / 100 as real,
    );
    law_mag_within(
        val(high) - (band_begin(b + 1) + 1 as real),
        1 as real / 100 as real,
    );
}

/// The multiples of the band height, rounded.
proof fn lemma_edge<F: Fn(Op32) -> Real32>(u: &Fpu32<F>, b: int)
    requires
        faithful(u),
        0 <= b <= 32,
    ensures
        ({
            let edge = u.mul(u.from_uint(b as u64), lit(BAND_HEIGHT));
            &&& edge.is_finite()
            &&& -(1 as real / 1000 as real) <= val(edge) - band_begin(b) <= 1 as real / 1000 as real
        }),
{
    lemma2_to64();
    law_literal(BAND_HEIGHT, 19, 0x8_0000);
    let h = val(lit(BAND_HEIGHT));
    assert(h == 125 as real / 4 as real);
    let n = u.from_uint(b as u64);
    let x = b as real;
    law_mag_within(x, 32 as real);
    law_whole(u, b as u64);
    law_mag_within(val(n) - x, 1 as real / 100000 as real);
    let p = val(n) * h;
    assert(p == val(n) * 125 as real / 4 as real) by (nonlinear_arith)
        requires
            h == 125 as real / 4 as real,
            p == val(n) * h,
    ;
    law_mag_within(p, 1001 as real);
    law_product(u, n, lit(BAND_HEIGHT));
    law_mag_within(val(u.mul(n, lit(BAND_HEIGHT))) - p, 2 as real / 10000 as real);
}

/// The height lies in band `b`.
pub open spec fn in_band(y: Real32, b: int) -> bool {
    y.is_finite() && band_begin(b) <= val(y) <= band_begin(b + 1)
}

/// A reader finds in the band of a height every segment of the glyph that crosses
/// the height, and every flat one that lies there or up to 0.9 units away.
pub proof fn law_band_holds_what_crosses<F: Fn(Op32) -> Real32>(
    u: &Fpu32<F>,
    raw: Seq<GpuSegment>,
    s: GpuSegment,
    b: int,
    y: Real32,
)
    requires
        faithful(u),
        0 <= b < NUM_BANDS,
        raw.contains(s),
        in_band(y, b),
        crossing(s, y) != 0 || (s.kind == KIND_FLAT && s.param0[1].is_finite() && mag(
            val(s.param0[1]) - val(y),
        ) <= 9 as real / 10 as real),
    ensures
        band_list(u, raw, b).contains(s),
{
    law_band_list(u, raw, b);
    law_band_reach(u, b);
    let (lo, hi) = (band_low(u, b), band_high(u, b));
    law_mag_within(val(lo) - (band_begin(b) - 1 as real), 1 as real / 100 as real);
    law_mag_within(val(hi) - (band_begin(b + 1) + 1 as real), 1 as real / 100 as real);
    law_order(lo, y);
    law_order(y, hi);
    if s.kind == KIND_FLAT {
        law_mag_within(val(s.param0[1]) - val(y), 9 as real / 10 as real);
        law_order(lo, s.param0[1]);
        law_order(s.param0[1], hi);
    }
}

/// A band holds only segments of the glyph, and none that ends more than 1.01 units
/// below it or begins more than 1.01 units above it.
pub proof fn law_band_holds_nothing_else<F: Fn(Op32) -> Real32>(
    u: &Fpu32<F>,
    raw: Seq<GpuSegment>,
    s: GpuSegment,
    b: int,
)
    requires
        faithful(u),
        0 <= b < NUM_BANDS,
        band_list(u, raw, b).contains(s),
    ensures
        raw.contains(s),
        s.kind == KIND_LINE && s.param0[2].is_finite() ==> val(s.param0[2]) * 100 as real
            <= band_begin(b + 1) * 100 as real + 101 as real,
        s.kind == KIND_LINE && s.param0[3].is_finite() ==> val(s.param0[3]) * 100 as real
            >= band_begin(b) * 100 as real - 101 as real,
        s.kind == KIND_ARC && s.param0[3].is_finite() ==> val(s.param0[3]) * 100 as real
            <= band_begin(b + 1) * 100 as real + 101 as real,
        s.kind == KIND_ARC && s.param1[0].is_finite() ==> val(s.param1[0]) * 100 as real
            >= band_begin(b) * 100 as real - 101 as real,
        s.kind == KIND_FLAT && s.param0[1].is_finite() ==> band_begin(b) * 100 as real - 101 as real
            <= val(s.param0[1]) * 100 as real <= band_begin(b + 1) * 100 as real + 101 as real,
{
    law_band_list(u, raw, b);
    law_band_reach(u, b);
    let (lo, hi) = (band_low(u, b), band_high(u, b));
    law_mag_within(val(lo) - (band_begin(b) - 1 as real), 1 as real / 100 as real);
    law_mag_within(val(hi) - (band_begin(b + 1) + 1 as real), 1 as real / 100 as real);
    if s.kind == KIND_LINE {
        if s.param0[2].is_finite() {
            law_order(s.param0[2], hi);
        }
        if s.param0[3].is_finite() {
            law_order(lo, s.param0[3]);
        }
    } else if s.kind == KIND_ARC {
        if s.param0[3].is_finite() {
            law_order(s.param0[3], hi);
        }
        if s.param1[0].is_finite() {
            law_order(lo, s.param1[0]);
        }
    } else if s.param0[1].is_finite() {
        law_order(lo, s.param0[1]);
        law_order(s.param0[1], hi);
    }
}

} // verus!
