use vector_bench::arc::atlas as arc_atlas;
use vector_bench::arc::scene as arc_scene;
use vector_bench::arc::segment;
use vector_bench::literal;
use vector_bench::number::{lit, wide_lit, Real32, Real64};
use vector_bench::order::{rank, sort_descending};
use vector_bench::screens;
use vector_bench::slug::atlas as slug_atlas;
use vector_bench::slug::outline;
use vector_bench::slug::scene as slug_scene;
use vector_bench::stats;

fn r(x: f32) -> Real32 {
    Real32 { bits: x.to_bits() }
}

fn samples() -> Vec<f32> {
    vec![
        0.0,
        -0.0,
        1.0,
        -1.0,
        0.5,
        1.5,
        -2.75,
        1e-45,
        -1e-45,
        1.17e-38,
        3.0e38,
        -3.0e38,
        1000.25,
        f32::INFINITY,
        f32::NEG_INFINITY,
        f32::NAN,
    ]
}

#[test]
fn literals_are_the_numbers_they_are_named_after() {
    let narrow: Vec<(u32, f32)> = vec![
        (literal::ZERO, 0.0),
        (literal::MINUS_ZERO, -0.0),
        (literal::ONE_TWENTIETH, 0.05),
        (literal::ONE_TENTH, 0.1),
        (literal::ONE_EIGHTH, 0.125),
        (literal::QUARTER, 0.25),
        (literal::HALF, 0.5),
        (literal::ONE, 1.0),
        (literal::MINUS_ONE, -1.0),
        (literal::TWO, 2.0),
        (literal::THREE, 3.0),
        (literal::THOUSAND, 1000.0),
        (literal::INFINITY, f32::INFINITY),
        (literal::NEG_INFINITY, f32::NEG_INFINITY),
        (segment::MIN_EXTENT, 0.2),
        (segment::MIN_SPEED_CHANGE, 1e-5),
        (segment::LAST_SPLIT, 0.95),
        (segment::MIN_TURN, 1e-3),
        (segment::MAX_RADIUS, 4000.0),
        (segment::MIN_RADIUS, 1e-2),
        (arc_atlas::BAND_HEIGHT, 31.25),
        (arc_atlas::BAND_HEIGHT, 1000.0 / arc_atlas::NUM_BANDS as f32),
        (arc_scene::PADDING, 600.0),
        (arc_scene::MAX_PADDING, 100.0),
        (slug_atlas::MIN_RISE, 1e-4),
        (slug_atlas::MIN_SIZE, 1e-3),
        (outline::CLOSE_ENOUGH, 1e-4),
        (screens::C35, 0.35),
        (screens::C45, 0.45),
        (screens::C55, 0.55),
        (screens::C88, 0.88),
        (screens::C90, 0.90),
        (screens::SIZE_4, 4.0),
        (screens::SIZE_6, 6.0),
        (screens::SIZE_8, 8.0),
        (screens::SIZE_12, 12.0),
        (screens::SIZE_32, 32.0),
        (screens::SCREEN_WIDTH, 1650.0),
        (screens::COLUMNS, 5.0),
        (screens::MARGIN, 12.0),
        (screens::MARGINS, 24.0),
        (screens::TOP, 20.0),
        (screens::ADVANCE, 0.58),
        (screens::LEADING, 1.25),
        (lit(7).bits, f32::from_bits(7)),
    ];
    for (bits, x) in narrow {
        assert_eq!(bits, x.to_bits(), "{x}");
    }
    let wide: Vec<(u64, f64)> = vec![
        (literal::WIDE_ZERO, 0.0),
        (literal::WIDE_THOUSAND, 1000.0),
        (literal::WIDE_KIBI, 1024.0),
        (literal::WIDE_MILLION, 1e6),
        (literal::WIDE_BILLION, 1e9),
        (stats::PERCENTILE, 0.99),
        (slug_scene::TESTS_PER_FRAGMENT, 2.5),
        (wide_lit(9).bits, f64::from_bits(9)),
    ];
    for (bits, x) in wide {
        assert_eq!(bits, x.to_bits(), "{x}");
    }
}

#[test]
fn comparisons_agree_with_the_machine() {
    for a in samples() {
        for b in samples() {
            assert_eq!(r(a).lt(r(b)), a < b, "{a} {b}");
            assert_eq!(r(a).le(r(b)), a <= b, "{a} {b}");
            assert_eq!(r(a).is_nan(), a.is_nan());
        }
    }
}

#[test]
fn minimum_and_maximum_agree_with_the_machine() {
    for a in samples() {
        for b in samples() {
            let lo = f32::from_bits(r(a).min(r(b)).bits);
            let hi = f32::from_bits(r(a).max(r(b)).bits);
            assert!(lo == a.min(b) || (lo.is_nan() && a.min(b).is_nan()), "{a} {b}");
            assert!(hi == a.max(b) || (hi.is_nan() && a.max(b).is_nan()), "{a} {b}");
        }
    }
}

#[test]
fn absolute_value_and_clamp_agree_with_the_machine() {
    for a in samples() {
        assert_eq!(r(a).abs().bits, a.abs().to_bits());
        let c = f32::from_bits(r(a).clamp(r(0.0), r(1.0)).bits);
        assert!(c == a.clamp(0.0, 1.0) || (c.is_nan() && a.is_nan()), "{a}");
    }
}

#[test]
fn truncation_agrees_with_the_machine() {
    for a in samples() {
        assert_eq!(r(a).to_usize(), a.floor() as usize, "{a}");
    }
    for a in [130.99, 8388607.5, 8388609.0, 1.0e10, 1.8446744e19, 2.0e19] {
        assert_eq!(r(a).to_usize(), a as usize, "{a}");
    }
    for a in [0.0, 0.99, 99.0, 98.99999, 1e15, 1e19, 1e300, -5.0, f64::NAN, f64::INFINITY, 5e-324] {
        assert_eq!(Real64 { bits: a.to_bits() }.to_usize(), a as usize, "{a}");
    }
}

#[test]
fn positive_wide_numbers() {
    for a in [1.0, 5e-324, f64::INFINITY] {
        assert!(Real64 { bits: a.to_bits() }.is_positive());
    }
    for a in [0.0, -0.0, -1.0, f64::NAN, f64::NEG_INFINITY] {
        assert!(!Real64 { bits: a.to_bits() }.is_positive());
    }
    assert!(Real64 { bits: f64::NAN.to_bits() }.is_nan());
    assert!(!Real64 { bits: f64::INFINITY.to_bits() }.is_nan());
}

#[test]
fn sorts_descending_and_stably() {
    assert_eq!(sort_descending(&vec![1, 3, 2, 3]), vec![1, 3, 2, 0]);
    assert_eq!(sort_descending(&vec![]), Vec::<usize>::new());
    assert_eq!(sort_descending(&vec![5, 5, 5]), vec![0, 1, 2]);
    assert_eq!(sort_descending(&vec![-1, i64::MAX, i64::MIN, 0]), vec![1, 3, 0, 2]);
}

#[test]
fn ranks_follow_the_order() {
    let rising = [f32::NEG_INFINITY, -3.0e38, -1.0, -1e-45, 0.0, 1e-45, 0.5, 1.0, f32::INFINITY];
    for i in 1..rising.len() {
        assert!(rank(r(rising[i - 1])) < rank(r(rising[i])));
    }
    assert_eq!(rank(r(-0.0)), rank(r(0.0)));
    assert!(rank(r(f32::NAN)) < rank(r(f32::NEG_INFINITY)));
}
