use vector_bench::fpu::{Fpu32, Fpu64, Op32, Op64};
use vector_bench::number::{Real32, Real64};
use vector_bench::screens::SubScreenConfig;
use vector_bench::slug::atlas::{curve_bounds, outline_sortable, SlugAtlas};
use vector_bench::slug::fill::{build_slug_atlas, SlugError};
use vector_bench::slug::outline::{curve, GpuCurve, SlugOutlineBuilder};
use vector_bench::slug::scene::{all_glyphs_exist, slug_scene};

fn r(x: f32) -> Real32 {
    Real32 { bits: x.to_bits() }
}

fn f(x: Real32) -> f32 {
    f32::from_bits(x.bits)
}

fn host32(op: Op32) -> Real32 {
    let x = match op {
        Op32::Add(a, b) => f(a) + f(b),
        Op32::Sub(a, b) => f(a) - f(b),
        Op32::Mul(a, b) => f(a) * f(b),
        Op32::Div(a, b) => f(a) / f(b),
        Op32::Sqrt(a) => f(a).sqrt(),
        Op32::FromUint(n) => n as f32,
        Op32::FromInt(n) => n as f32,
        Op32::Narrow(a) => f64::from_bits(a.bits) as f32,
    };
    r(if x.is_nan() { f32::NAN } else { x })
}

fn w(x: f64) -> Real64 {
    Real64 { bits: x.to_bits() }
}

fn d(x: Real64) -> f64 {
    f64::from_bits(x.bits)
}

fn host64(op: Op64) -> Real64 {
    let x = match op {
        Op64::Add(a, b) => d(a) + d(b),
        Op64::Mul(a, b) => d(a) * d(b),
        Op64::Div(a, b) => d(a) / d(b),
        Op64::FromUint(n) => n as f64,
        Op64::Widen(a) => f(a) as f64,
    };
    w(if x.is_nan() { f64::NAN } else { x })
}

fn put16(out: &mut Vec<u8>, v: i32) {
    out.push((v >> 8) as u8);
    out.push(v as u8);
}

/// A simple glyph with one contour; an entry is a point and whether it is on
/// the curve.
fn glyph(points: &[(i32, i32, bool)]) -> Vec<u8> {
    let mut out = Vec::new();
    put16(&mut out, 1);
    for v in [0, 0, 0, 0] {
        put16(&mut out, v);
    }
    put16(&mut out, points.len() as i32 - 1);
    put16(&mut out, 0);
    for p in points {
        out.push(p.2 as u8);
    }
    let mut last = 0;
    for p in points {
        put16(&mut out, p.0 - last);
        last = p.0;
    }
    last = 0;
    for p in points {
        put16(&mut out, p.1 - last);
        last = p.1;
    }
    if out.len() % 2 == 1 {
        out.push(0);
    }
    out
}

/// A font with a box for A, a curved glyph for B, an empty one for C, and
/// nothing else: ascender 800, descender -200.
fn font() -> Vec<u8> {
    let mut head = vec![0u8; 54];
    head[18] = 0x03;
    head[19] = 0xe8;
    let mut hhea = vec![0u8; 36];
    hhea[4..6].copy_from_slice(&800i16.to_be_bytes());
    hhea[6..8].copy_from_slice(&(-200i16).to_be_bytes());
    let maxp = vec![0, 0, 0x50, 0, 0, 4];
    let glyphs = [
        Vec::new(),
        glyph(&[(100, 0, true), (100, 500, true), (600, 500, true), (600, 0, true)]),
        glyph(&[(0, 0, true), (250, 700, false), (500, 0, true)]),
        Vec::new(),
    ];
    let mut glyf = Vec::new();
    let mut loca = Vec::new();
    for g in &glyphs {
        put16(&mut loca, glyf.len() as i32 / 2);
        glyf.extend(g);
    }
    put16(&mut loca, glyf.len() as i32 / 2);
    let mut cmap = Vec::new();
    for v in [0, 1, 3, 1, 0, 12, 6, 16, 0, 65, 3, 1, 2, 3] {
        put16(&mut cmap, v);
    }
    let tables: [(&[u8; 4], Vec<u8>); 6] = [
        (b"cmap", cmap),
        (b"glyf", glyf),
        (b"head", head),
        (b"hhea", hhea),
        (b"loca", loca),
        (b"maxp", maxp),
    ];
    let mut out = vec![0, 1, 0, 0];
    for v in [6, 64, 2, 32] {
        put16(&mut out, v);
    }
    let mut offset = 12 + 16 * 6;
    for (tag, data) in &tables {
        out.extend(&tag[..]);
        out.extend(0u32.to_be_bytes());
        out.extend((offset as u32).to_be_bytes());
        out.extend((data.len() as u32).to_be_bytes());
        offset += data.len();
    }
    for (_, data) in &tables {
        out.extend(data);
    }
    out
}

struct Adapter<'a> {
    builder: &'a mut SlugOutlineBuilder,
}

impl ttf_parser::OutlineBuilder for Adapter<'_> {
    fn move_to(&mut self, x: f32, y: f32) {
        self.builder.move_to(&Fpu32::new(host32), r(x), r(y));
    }
    fn line_to(&mut self, x: f32, y: f32) {
        self.builder.line_to(&Fpu32::new(host32), r(x), r(y));
    }
    fn quad_to(&mut self, x1: f32, y1: f32, x: f32, y: f32) {
        self.builder.quad_to(&Fpu32::new(host32), r(x1), r(y1), r(x), r(y));
    }
    fn curve_to(&mut self, x1: f32, y1: f32, x2: f32, y2: f32, x: f32, y: f32) {
        self.builder.curve_to(&Fpu32::new(host32), r(x1), r(y1), r(x2), r(y2), r(x), r(y));
    }
    fn close(&mut self) {
        self.builder.close(&Fpu32::new(host32));
    }
}

fn outline(glyph: u16, mut builder: SlugOutlineBuilder) -> SlugOutlineBuilder {
    let data = font();
    let face = ttf_parser::Face::parse(&data, 0).unwrap();
    face.outline_glyph(ttf_parser::GlyphId(glyph), &mut Adapter { builder: &mut builder });
    builder
}

fn pt(x: f32, y: f32) -> [Real32; 2] {
    [r(x), r(y)]
}

fn floats(a: &[Real32]) -> Vec<f32> {
    a.iter().map(|x| f(*x)).collect()
}

fn points(c: &GpuCurve) -> Vec<f32> {
    let mut v = floats(&c.p12);
    v.extend(floats(&c.p3));
    v
}

#[test]
fn lines_and_curves_are_placed_in_the_glyph_square() {
    let u = Fpu32::new(host32);
    let mut b = SlugOutlineBuilder::new(r(2.0), r(-10.0));
    assert_eq!(floats(&b.transform(&u, r(3.0), r(5.0))), [6.0, 30.0]);
    b.move_to(&u, r(0.0), r(-10.0));
    b.line_to(&u, r(10.0), r(10.0));
    b.quad_to(&u, r(20.0), r(0.0), r(30.0), r(5.0));
    assert_eq!(b.curves.len(), 2);
    assert_eq!(points(&b.curves[0]), [0.0, 0.0, 10.0, 20.0, 20.0, 40.0, 0.0, 0.0]);
    assert_eq!(points(&b.curves[1]), [20.0, 40.0, 40.0, 20.0, 60.0, 30.0, 0.0, 0.0]);
    assert_eq!(floats(&b.current_pos), [60.0, 30.0]);
    assert_eq!(floats(&b.contour_start), [0.0, 0.0]);
}

#[test]
fn a_cubic_curve_becomes_two_quadratic_ones() {
    let u = Fpu32::new(host32);
    let mut b = SlugOutlineBuilder::new(r(1.0), r(0.0));
    b.move_to(&u, r(0.0), r(0.0));
    b.curve_to(&u, r(0.0), r(8.0), r(16.0), r(8.0), r(16.0), r(0.0));
    assert_eq!(b.curves.len(), 2);
    assert_eq!(points(&b.curves[0]), [0.0, 0.0, 0.0, 12.0, 8.0, 6.0, 0.0, 0.0]);
    assert_eq!(points(&b.curves[1]), [8.0, 6.0, 16.0, 12.0, 16.0, 0.0, 0.0, 0.0]);
    assert_eq!(floats(&b.current_pos), [16.0, 0.0]);
}

#[test]
fn closing_draws_the_missing_line_once() {
    let u = Fpu32::new(host32);
    let mut b = SlugOutlineBuilder::new(r(1.0), r(0.0));
    b.move_to(&u, r(2.0), r(2.0));
    b.line_to(&u, r(4.0), r(2.0));
    b.close(&u);
    assert_eq!(points(&b.curves[1]), [4.0, 2.0, 3.0, 2.0, 2.0, 2.0, 0.0, 0.0]);
    b.close(&u);
    assert_eq!(b.curves.len(), 2);
    b.line_to(&u, r(2.00005), r(2.0));
    b.close(&u);
    assert_eq!(b.curves.len(), 3);
    b.line_to(&u, r(2.0), r(2.5));
    b.close(&u);
    assert_eq!(b.curves.len(), 5);
}

#[test]
fn a_line_is_the_curve_with_its_middle_as_control() {
    let u = Fpu32::new(host32);
    let mut a = SlugOutlineBuilder::new(r(1.0), r(0.0));
    let mut b = SlugOutlineBuilder::new(r(1.0), r(0.0));
    a.move_to(&u, r(3.5), r(-7.25));
    b.move_to(&u, r(3.5), r(-7.25));
    a.line_to(&u, r(11.0), r(0.1));
    b.quad_to(&u, r((3.5 + 11.0) * 0.5), r((-7.25 + 0.1) * 0.5), r(11.0), r(0.1));
    assert_eq!(points(&a.curves[0]), points(&b.curves[0]));
    assert_eq!(a.current_pos, b.current_pos);
    assert_eq!(a.contour_start, b.contour_start);
}

#[test]
fn a_second_close_changes_nothing() {
    let u = Fpu32::new(host32);
    for (x, y) in [(4.0, 2.0), (2.0, 2.0), (f32::INFINITY, 2.0), (f32::NAN, 2.0)] {
        let mut b = SlugOutlineBuilder::new(r(1.0), r(0.0));
        b.move_to(&u, r(x), r(y));
        b.line_to(&u, r(2.0), r(2.0));
        b.close(&u);
        let (n, at) = (b.curves.len(), b.current_pos);
        b.close(&u);
        assert_eq!((b.curves.len(), b.current_pos), (n, at));
    }
}

#[test]
fn nothing_is_drawn_behind_the_last_control_point() {
    let u = Fpu32::new(host32);
    let mut b = SlugOutlineBuilder::new(r(3.0), r(-1.0));
    b.quad_to(&u, r(1.0), r(2.0), r(3.0), r(4.0));
    b.move_to(&u, r(5.0), r(f32::NAN));
    b.line_to(&u, r(6.0), r(7.0));
    b.curve_to(&u, r(1.0), r(8.0), r(16.0), r(8.0), r(16.0), r(1.0));
    b.close(&u);
    assert!(b.curves.len() >= 4);
    for c in &b.curves {
        assert_eq!(c.p3[2..], [r(0.0), r(0.0)]);
    }
}

#[test]
fn the_box_reaches_around_all_control_points() {
    let curves =
        vec![curve(pt(0.0, 5.0), pt(-3.0, 9.0), pt(4.0, 1.0)), curve(pt(4.0, 1.0), pt(2.0, -7.0), pt(1.0, 1.0))];
    assert_eq!(floats(&curve_bounds(&curves)), [-3.0, -7.0, 4.0, 9.0]);
    assert_eq!(floats(&curve_bounds(&Vec::new())), [0.0; 4]);
    let holed = vec![curve(pt(f32::NAN, 5.0), pt(1.0, 6.0), pt(2.0, 7.0))];
    assert_eq!(floats(&curve_bounds(&holed)), [1.0, 5.0, 2.0, 7.0]);
    // One number is both sides of its axis.
    let one = vec![curve(pt(f32::NAN, 5.0), pt(1.0, f32::INFINITY), pt(f32::NAN, 7.0))];
    assert_eq!(floats(&curve_bounds(&one)), [1.0, 5.0, 1.0, f32::INFINITY]);
}

fn numbers(atlas: &SlugAtlas, band: usize) -> Vec<u32> {
    let [start, count] = atlas.bands[band];
    atlas.indices[start as usize..(start + count) as usize].to_vec()
}

/// The outline of a square of side 80.
fn square() -> Vec<GpuCurve> {
    vec![
        curve(pt(0.0, 0.0), pt(40.0, 0.0), pt(80.0, 0.0)),
        curve(pt(80.0, 0.0), pt(80.0, 40.0), pt(80.0, 80.0)),
        curve(pt(80.0, 80.0), pt(40.0, 80.0), pt(0.0, 80.0)),
        curve(pt(0.0, 80.0), pt(0.0, 40.0), pt(0.0, 0.0)),
    ]
}

#[test]
fn bands_list_the_curves_that_cross_them() {
    let u = Fpu32::new(host32);
    let mut atlas = SlugAtlas::new();
    atlas.add_blank('z');
    assert!(atlas.add_outline(&u, 'q', &square()).is_ok());
    assert!(atlas.add_outline(&u, 'r', &square()).is_ok());
    assert_eq!(atlas.curves.len(), 8);
    assert_eq!(atlas.boxes.len(), 3);
    assert_eq!(atlas.bands.len(), 48);
    assert_eq!(floats(&atlas.boxes[0]), [0.0; 4]);
    assert_eq!(floats(&atlas.boxes[1]), [0.0, 0.0, 80.0, 80.0]);
    for k in 0..16 {
        assert_eq!(atlas.bands[k], [0, 0]);
    }
    // A horizontal band meets the sides, the right one first; a vertical one
    // meets bottom and top, the top first.
    for k in 0..8 {
        assert_eq!(numbers(&atlas, 16 + k), [1, 3]);
        assert_eq!(numbers(&atlas, 24 + k), [2, 0]);
        assert_eq!(numbers(&atlas, 32 + k), [5, 7]);
        assert_eq!(numbers(&atlas, 40 + k), [6, 4]);
    }
    assert_eq!(atlas.ids[&('z' as u32)], 0);
    assert_eq!(atlas.ids[&('q' as u32)], 1);
    assert_eq!(atlas.ids[&('r' as u32)], 2);
}

#[test]
fn a_short_curve_is_listed_in_its_own_bands_only() {
    let u = Fpu32::new(host32);
    let mut curves = square();
    curves.push(curve(pt(30.0, 32.0), pt(30.0, 34.0), pt(30.0, 36.0)));
    let mut atlas = SlugAtlas::new();
    atlas.add_glyph(&u, 'q', &curves);
    assert_eq!(numbers(&atlas, 2), [1, 3]);
    assert_eq!(numbers(&atlas, 3), [1, 4, 3]);
    assert_eq!(numbers(&atlas, 4), [1, 3]);
    // It has no width, so no vertical band lists it.
    assert_eq!(numbers(&atlas, 8 + 2), [2, 0]);
}

#[test]
fn curves_without_numbers_cannot_be_compared() {
    let u = Fpu32::new(host32);
    let n = f32::NAN;
    let lone = vec![curve(pt(n, 0.0), pt(n, 40.0), pt(n, 80.0))];
    assert!(outline_sortable(&u, &lone));
    let mut two = square();
    two.extend(&lone);
    assert!(!outline_sortable(&u, &two));
    let mut atlas = SlugAtlas::new();
    assert_eq!(atlas.add_outline(&u, 'q', &two), Err(SlugError::Incomparable));
    assert_eq!(atlas.curves.len(), 0);
    assert_eq!(atlas.ids.len(), 0);
}

#[test]
fn a_font_gives_a_slug_atlas() {
    let u = Fpu32::new(host32);
    let chars = vec!['!', 'A', 'B', 'C'];
    let atlas = build_slug_atlas(&u, &font(), &outline, &chars).ok().unwrap();
    assert_eq!(atlas.ids.len(), 4);
    assert_eq!(atlas.ids[&('!' as u32)], 0);
    assert_eq!(atlas.ids[&('C' as u32)], 3);
    assert_eq!(floats(&atlas.boxes[0]), [0.0; 4]);
    assert_eq!(floats(&atlas.boxes[1]), [100.0, 200.0, 600.0, 700.0]);
    assert_eq!(floats(&atlas.boxes[2]), [0.0, 200.0, 500.0, 900.0]);
    assert_eq!(floats(&atlas.boxes[3]), [0.0; 4]);
    assert_eq!(atlas.bands.len(), 64);
    assert_eq!(points(&atlas.curves[0]), [100.0, 200.0, 100.0, 450.0, 100.0, 700.0, 0.0, 0.0]);
    // Of the box, the horizontal bands list the right side, then the left one.
    assert_eq!(numbers(&atlas, 16), [2, 0]);
    assert_eq!(numbers(&atlas, 63), Vec::<u32>::new());
    let failed = build_slug_atlas(&u, &[0; 40], &outline, &chars);
    assert_eq!(failed.err(), Some(SlugError::Unparsable));
}

#[test]
fn a_font_whose_points_are_no_numbers_is_refused() {
    let u = Fpu32::new(host32);
    let broken = |_glyph: u16, mut b: SlugOutlineBuilder| {
        b.curves = square();
        b.curves.push(curve(pt(f32::NAN, 0.0), pt(f32::NAN, 40.0), pt(f32::NAN, 80.0)));
        b
    };
    let failed = build_slug_atlas(&u, &font(), &broken, &vec!['!', 'A']);
    assert_eq!(failed.err(), Some(SlugError::Incomparable));
}

#[test]
fn a_slug_scene_counts_pixels_and_tests() {
    let u = Fpu32::new(host32);
    let v = Fpu64::new(host64);
    let chars = vec!['A', '?'];
    let atlas = build_slug_atlas(&u, &font(), &outline, &vec!['C', 'A']).ok().unwrap();
    assert!(all_glyphs_exist(&atlas, &chars));
    assert!(!all_glyphs_exist(&SlugAtlas::new(), &chars));
    assert!(all_glyphs_exist(&SlugAtlas::new(), &Vec::new()));
    let color = [r(0.1), r(0.2), r(0.3), r(1.0)];
    let screens = vec![
        SubScreenConfig { name: "a", font_size: r(4.0), char_count: 3, color },
        SubScreenConfig { name: "b", font_size: r(200.0), char_count: 1, color },
    ];
    let scene = slug_scene(&u, &v, &atlas, &chars, &screens);
    let glyphs: Vec<u32> = scene.instances.iter().map(|x| x.glyph_id).collect();
    assert_eq!(glyphs, [1, 0, 1, 1]);
    assert_eq!(floats(&scene.instances[1].pos), [12.0 + 4.0 * 0.58f32, 20.0]);
    assert_eq!(floats(&scene.instances[3].pos), [342.0, 20.0]);
    assert_eq!(f(scene.instances[3].scale), 0.2);
    assert_eq!(floats(&scene.instances[3].color), [0.1, 0.2, 0.3, 1.0]);
    let small = (500.0 * 0.004f32 as f64) * (500.0 * 0.004f32 as f64);
    let large = (500.0 * 0.2f32 as f64) * (500.0 * 0.2f32 as f64);
    assert_eq!(d(scene.fragments), small + small + large);
    assert_eq!(d(scene.tests), small * 2.5 + small * 2.5 + large * 2.5);
}
