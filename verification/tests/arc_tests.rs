use vector_bench::arc::atlas::{ArcAtlas, NUM_BANDS};
use vector_bench::arc::contour::{
    control, on_curve, outline_segments, ContourBuilder, Point, PointType,
};
use vector_bench::arc::fill::{build_arc_atlas, place_box};
use vector_bench::arc::scene::{arc_scene, mean_segments};
use vector_bench::arc::segment::{
    fit_arc_segment, process_quad_bezier, push_line_segment, GpuSegment, KIND_ARC, KIND_FLAT,
    KIND_LINE,
};
use vector_bench::font::{em_metrics, read_metrics, EmMetrics};
use vector_bench::fpu::{Fpu32, Fpu64, Op32, Op64};
use vector_bench::number::{Real32, Real64};
use vector_bench::screens::{cell, charset, screens, total_instances, SubScreenConfig};
use vector_bench::sfnt::{can_read_boxes, can_read_metrics, descender_exists, find_table, HHEA, OS2};
use vector_bench::trace::trace;

fn r(x: f32) -> Real32 {
    Real32 { bits: x.to_bits() }
}

fn f(x: Real32) -> f32 {
    f32::from_bits(x.bits)
}

fn host32(op: Op32) -> Real32 {
    let x = match op {
        Op32::Add(a, b) => f(a) + f(b),
        Op32::Sub(a, b) => f(a) - f(b),
        Op32::Mul(a, b) => f(a) * f(b),
        Op32::Div(a, b) => f(a) / f(b),
        Op32::Sqrt(a) => f(a).sqrt(),
        Op32::FromUint(n) => n as f32,
        Op32::FromInt(n) => n as f32,
        Op32::Narrow(a) => f64::from_bits(a.bits) as f32,
    };
    r(if x.is_nan() { f32::NAN } else { x })
}

fn w(x: f64) -> Real64 {
    Real64 { bits: x.to_bits() }
}

fn d(x: Real64) -> f64 {
    f64::from_bits(x.bits)
}

fn host64(op: Op64) -> Real64 {
    let x = match op {
        Op64::Add(a, b) => d(a) + d(b),
        Op64::Mul(a, b) => d(a) * d(b),
        Op64::Div(a, b) => d(a) / d(b),
        Op64::FromUint(n) => n as f64,
        Op64::Widen(a) => f(a) as f64,
    };
    w(if x.is_nan() { f64::NAN } else { x })
}

fn put16(out: &mut Vec<u8>, v: i32) {
    out.push((v >> 8) as u8);
    out.push(v as u8);
}

/// A simple glyph with one contour; an entry is a point and whether it is on
/// the curve.
fn glyph(points: &[(i32, i32, bool)]) -> Vec<u8> {
    let mut out = Vec::new();
    put16(&mut out, 1);
    for v in [0, 0, 0, 0] {
        put16(&mut out, v);
    }
    put16(&mut out, points.len() as i32 - 1);
    put16(&mut out, 0);
    for p in points {
        out.push(p.2 as u8);
    }
    let mut last = 0;
    for p in points {
        put16(&mut out, p.0 - last);
        last = p.0;
    }
    last = 0;
    for p in points {
        put16(&mut out, p.1 - last);
        last = p.1;
    }
    if out.len() % 2 == 1 {
        out.push(0);
    }
    out
}

/// A font with a box for A, a curved glyph for B, an empty one for C, and
/// nothing else: ascender 800, descender -200.
fn font() -> Vec<u8> {
    let mut head = vec![0u8; 54];
    head[18] = 0x03;
    head[19] = 0xe8;
    let mut hhea = vec![0u8; 36];
    hhea[4..6].copy_from_slice(&800i16.to_be_bytes());
    hhea[6..8].copy_from_slice(&(-200i16).to_be_bytes());
    let maxp = vec![0, 0, 0x50, 0, 0, 4];
    let glyphs = [
        Vec::new(),
        glyph(&[(100, 0, true), (100, 500, true), (600, 500, true), (600, 0, true)]),
        glyph(&[(0, 0, true), (250, 700, false), (500, 0, true)]),
        Vec::new(),
    ];
    let mut glyf = Vec::new();
    let mut loca = Vec::new();
    for g in &glyphs {
        put16(&mut loca, glyf.len() as i32 / 2);
        glyf.extend(g);
    }
    put16(&mut loca, glyf.len() as i32 / 2);
    let mut cmap = Vec::new();
    for v in [0, 1, 3, 1, 0, 12, 6, 16, 0, 65, 3, 1, 2, 3] {
        put16(&mut cmap, v);
    }
    let tables: [(&[u8; 4], Vec<u8>); 6] = [
        (b"cmap", cmap),
        (b"glyf", glyf),
        (b"head", head),
        (b"hhea", hhea),
        (b"loca", loca),
        (b"maxp", maxp),
    ];
    let mut out = vec![0, 1, 0, 0];
    for v in [6, 64, 2, 32] {
        put16(&mut out, v);
    }
    let mut offset = 12 + 16 * 6;
    for (tag, data) in &tables {
        out.extend(&tag[..]);
        out.extend(0u32.to_be_bytes());
        out.extend((offset as u32).to_be_bytes());
        out.extend((data.len() as u32).to_be_bytes());
        offset += data.len();
    }
    for (_, data) in &tables {
        out.extend(data);
    }
    out
}

struct Adapter<'a> {
    builder: &'a mut ContourBuilder,
}

impl ttf_parser::OutlineBuilder for Adapter<'_> {
    fn move_to(&mut self, x: f32, y: f32) {
        self.builder.move_to(r(x), r(y));
    }
    fn line_to(&mut self, x: f32, y: f32) {
        self.builder.line_to(r(x), r(y));
    }
    fn quad_to(&mut self, x1: f32, y1: f32, x: f32, y: f32) {
        self.builder.quad_to(r(x1), r(y1), r(x), r(y));
    }
    fn curve_to(&mut self, x1: f32, y1: f32, x2: f32, y2: f32, x: f32, y: f32) {
        self.builder.curve_to(&Fpu32::new(host32), r(x1), r(y1), r(x2), r(y2), r(x), r(y));
    }
    fn close(&mut self) {
        self.builder.close();
    }
}

fn outline(glyph: u16, mut builder: ContourBuilder) -> ContourBuilder {
    let data = font();
    let face = ttf_parser::Face::parse(&data, 0).unwrap();
    face.outline_glyph(ttf_parser::GlyphId(glyph), &mut Adapter { builder: &mut builder });
    builder
}

fn pt(x: f32, y: f32) -> [Real32; 2] {
    [r(x), r(y)]
}

fn floats(a: &[Real32]) -> Vec<f32> {
    a.iter().map(|x| f(*x)).collect()
}

fn line(x0: f32, y0: f32, x1: f32, y1: f32) -> Vec<GpuSegment> {
    let mut out = Vec::new();
    push_line_segment(&Fpu32::new(host32), pt(x0, y0), pt(x1, y1), &mut out);
    out
}

#[test]
fn a_slanted_line_keeps_its_slope_and_heights() {
    let s = line(0.0, 0.0, 10.0, 20.0);
    assert_eq!(s.len(), 1);
    assert_eq!(s[0].kind, KIND_LINE);
    assert_eq!(f(s[0].sign), 0.0);
    assert_eq!(f(s[0].direction), 1.0);
    assert_eq!(f(s[0].x_max), 10.0);
    assert_eq!(floats(&s[0].param0), [0.5, 0.0, 0.0, 20.0]);
    assert_eq!(floats(&s[0].param1), [1.0 / 1.25f32.sqrt(), 0.0, 0.0, 0.0]);
    let t = line(10.0, 20.0, 0.0, 0.0);
    assert_eq!(f(t[0].direction), -1.0);
    assert_eq!(floats(&t[0].param0), [0.5, 0.0, 0.0, 20.0]);
}

#[test]
fn a_flat_line_lies_at_the_mean_height() {
    let s = line(30.0, 5.0, 10.0, 5.5);
    assert_eq!(s.len(), 1);
    assert_eq!(s[0].kind, KIND_FLAT);
    assert_eq!(f(s[0].direction), 0.0);
    assert_eq!(f(s[0].x_max), 30.0);
    assert_eq!(floats(&s[0].param0), [0.0, 5.25, 10.0, 30.0]);
    assert_eq!(floats(&s[0].param1), [0.0; 4]);
}

#[test]
fn a_tiny_line_is_dropped() {
    assert_eq!(line(1.0, 1.0, 1.1, 1.1).len(), 0);
    assert_eq!(line(1.0, 1.0, 1.0, 1.0).len(), 0);
    assert_eq!(line(1.0, 1.0, 1.3, 1.0).len(), 1);
    assert_eq!(line(1.0, 1.0, 1.0, 2.0)[0].kind, KIND_LINE);
    assert_eq!(line(1.0, 1.0, 1.0, 1.99)[0].kind, KIND_FLAT);
}

#[test]
fn a_curve_becomes_the_arc_through_its_ends_and_middle() {
    let mut s = Vec::new();
    let u = Fpu32::new(host32);
    fit_arc_segment(&u, pt(0.0, 0.0), pt(0.0, 100.0), pt(100.0, 100.0), &mut s);
    assert_eq!(s.len(), 1);
    assert_eq!(s[0].kind, KIND_ARC);
    assert_eq!(f(s[0].sign), -1.0);
    assert_eq!(f(s[0].direction), 1.0);
    assert_eq!(f(s[0].x_max), 100.0);
    assert_eq!(floats(&s[0].param0), [87.5, 12.5, 7812.5, 0.0]);
    assert_eq!(floats(&s[0].param1), [100.0, 1.0 / 7812.5f32.sqrt(), 0.0, 0.0]);

    s.clear();
    fit_arc_segment(&u, pt(0.0, 100.0), pt(60.0, 50.0), pt(0.0, 0.0), &mut s);
    assert_eq!(f(s[0].sign), 1.0);
    assert_eq!(f(s[0].direction), -1.0);
    let (center_x, r2) = (f(s[0].param0[0]), f(s[0].param0[2]));
    assert_eq!(f(s[0].x_max), center_x + r2.sqrt());
    assert_eq!(floats(&s[0].param0)[1], 50.0);
}

#[test]
fn a_curve_that_fits_no_arc_is_drawn_as_a_line() {
    let u = Fpu32::new(host32);
    for (p0, p1, p2) in [
        // The points are collinear.
        (pt(0.0, 0.0), pt(50.0, 50.0), pt(100.0, 100.0)),
        // The radius is too large.
        (pt(0.0, 0.0), pt(50.0, 50.5), pt(100.0, 100.0)),
        // The ends are level.
        (pt(0.0, 0.0), pt(50.0, 60.0), pt(100.0, 0.25)),
    ] {
        let mut s = Vec::new();
        fit_arc_segment(&u, p0, p1, p2, &mut s);
        assert_eq!(s.len(), 1);
        assert_ne!(s[0].kind, KIND_ARC);
    }
    let mut s = Vec::new();
    fit_arc_segment(&u, pt(0.0, 0.0), pt(0.0, 0.0), pt(0.0, 0.0), &mut s);
    assert_eq!(s.len(), 0);
}

#[test]
fn a_curve_with_a_summit_is_split_there() {
    let u = Fpu32::new(host32);
    let mut s = Vec::new();
    process_quad_bezier(&u, pt(0.0, 0.0), pt(50.0, 100.0), pt(100.0, 0.0), &mut s);
    assert_eq!(s.len(), 2);
    assert_eq!(floats(&s[0].param0), [68.75, -18.75, 5078.125, 0.0]);
    assert_eq!(f(s[0].param1[0]), 50.0);
    assert_eq!(f(s[0].direction), 1.0);
    assert_eq!(f(s[1].direction), -1.0);
    assert_eq!(f(s[1].param1[0]), 50.0);

    let mut whole = Vec::new();
    process_quad_bezier(&u, pt(0.0, 0.0), pt(0.0, 100.0), pt(100.0, 100.0), &mut whole);
    assert_eq!(whole.len(), 1);
    // The summit is too close to the start to split there.
    let mut early = Vec::new();
    process_quad_bezier(&u, pt(0.0, 0.0), pt(50.0, 1.0), pt(100.0, -100.0), &mut early);
    assert_eq!(early.len(), 1);
}

fn xy(p: &Point) -> (f32, f32, bool) {
    (f(p.x), f(p.y), p.p_type == PointType::OnCurve)
}

#[test]
fn contours_end_at_a_move_or_a_close() {
    let u = Fpu32::new(host32);
    let mut b = ContourBuilder::default();
    b.close();
    assert_eq!(b.contours.len(), 0);
    b.move_to(r(1.0), r(2.0));
    b.line_to(r(3.0), r(4.0));
    b.quad_to(r(5.0), r(6.0), r(7.0), r(8.0));
    b.move_to(r(0.0), r(0.0));
    assert_eq!(b.contours.len(), 1);
    b.curve_to(&u, r(3.0), r(6.0), r(9.0), r(6.0), r(12.0), r(0.0));
    b.close();
    b.close();
    assert_eq!(b.contours.len(), 2);
    assert_eq!(b.current_contour.len(), 0);
    let first: Vec<_> = b.contours[0].iter().map(xy).collect();
    assert_eq!(first, [(1.0, 2.0, true), (3.0, 4.0, true), (5.0, 6.0, false), (7.0, 8.0, true)]);
    let second: Vec<_> = b.contours[1].iter().map(xy).collect();
    assert_eq!(
        second,
        [
            (0.0, 0.0, true),
            (2.0, 4.0, false),
            (6.0, 6.0, true),
            (10.0, 4.0, false),
            (12.0, 0.0, true)
        ]
    );
    let mut c = ContourBuilder::default();
    c.curve_to(&u, r(3.0), r(6.0), r(9.0), r(6.0), r(12.0), r(0.0));
    assert_eq!(xy(&c.current_contour[0]), (2.0, 4.0, false));
}

#[test]
fn a_closed_contour_is_walked_round() {
    let u = Fpu32::new(host32);
    let square = vec![
        on_curve(r(0.0), r(-10.0)),
        on_curve(r(100.0), r(-10.0)),
        on_curve(r(100.0), r(90.0)),
        on_curve(r(0.0), r(90.0)),
    ];
    let s = outline_segments(&u, &vec![square.clone()], r(2.0), r(-10.0));
    let kinds: Vec<u32> = s.iter().map(|s| s.kind).collect();
    assert_eq!(kinds, [KIND_FLAT, KIND_LINE, KIND_FLAT, KIND_LINE]);
    assert_eq!(floats(&s[1].param0), [0.0, 200.0, 0.0, 200.0]);
    assert_eq!(f(s[1].direction), 1.0);
    assert_eq!(f(s[3].direction), -1.0);

    // The last piece is a curve whose end is the first point.
    let drop = vec![on_curve(r(0.0), r(0.0)), on_curve(r(0.0), r(100.0)), control(r(80.0), r(50.0))];
    let t = outline_segments(&u, &vec![drop, vec![square[0]]], r(1.0), r(0.0));
    let kinds: Vec<u32> = t.iter().map(|s| s.kind).collect();
    assert_eq!(kinds, [KIND_LINE, KIND_ARC]);
    assert_eq!(outline_segments(&u, &vec![], r(1.0), r(0.0)).len(), 0);
}

#[test]
fn bands_hold_what_touches_them_right_to_left() {
    let u = Fpu32::new(host32);
    let mut raw = line(10.0, 0.0, 10.0, 40.0);
    raw.extend(line(50.0, 0.0, 50.0, 20.0));
    raw.extend(line(30.0, 33.0, 30.0, 60.0));
    raw.extend(line(30.0, 33.0, 30.0, 1000.0));
    let mut atlas = ArcAtlas::new();
    atlas.add_glyph(&u, 'x', &raw, Some([r(1.0), r(2.0), r(3.0), r(4.0)]));
    atlas.add_glyph(&u, 'y', &Vec::new(), None);
    assert_eq!(atlas.bands.len(), 2 * NUM_BANDS);
    assert_eq!(atlas.bands[0], [0, 2]);
    assert_eq!(atlas.bands[1], [2, 3]);
    assert_eq!(atlas.bands[2], [5, 1]);
    assert_eq!(atlas.bands[31], [34, 1]);
    assert_eq!(atlas.bands[32], [35, 0]);
    assert_eq!(atlas.segments.len(), 35);
    let reach: Vec<f32> = atlas.segments[0..5].iter().map(|s| f(s.x_max)).collect();
    assert_eq!(reach, [50.0, 10.0, 30.0, 30.0, 10.0]);
    // Equal ones keep their order.
    assert_eq!(f(atlas.segments[2].param0[3]), 60.0);
    assert_eq!(f(atlas.segments[3].param0[3]), 1000.0);
    assert_eq!(atlas.starts.get(&('x' as u32)), Some(&0));
    assert_eq!(atlas.starts.get(&('y' as u32)), Some(&32));
    assert_eq!(floats(&atlas.boxes[&('x' as u32)]), [1.0, 2.0, 3.0, 4.0]);
    assert_eq!(atlas.boxes.get(&('y' as u32)), None);
    assert_eq!(mean_segments(&atlas), 17);
    assert_eq!(mean_segments(&ArcAtlas::new()), 0);
}

#[test]
fn flat_and_curved_pieces_fall_into_the_bands_of_their_heights() {
    let u = Fpu32::new(host32);
    let mut raw = line(0.0, 93.0, 40.0, 93.0);
    fit_arc_segment(&u, pt(0.0, 0.0), pt(0.0, 100.0), pt(100.0, 100.0), &mut raw);
    let mut atlas = ArcAtlas::new();
    atlas.add_glyph(&u, 'x', &raw, None);
    let counts: Vec<u32> = atlas.bands.iter().take(5).map(|b| b[1]).collect();
    assert_eq!(counts, [1, 1, 2, 2, 0]);
}

#[test]
fn metrics_of_a_font() {
    let u = Fpu32::new(host32);
    let em = read_metrics(&u, &font()).unwrap();
    assert_eq!(f(em.descender), -200.0);
    assert_eq!(f(em.scale_em), 1.0);
    assert_eq!(read_metrics(&u, &[1, 2, 3]), None);
    assert_eq!(f(em_metrics(&u, 1536, -512).scale_em), 1000.0 / 2048.0);
    assert_eq!(f(em_metrics(&u, -5, 5).scale_em), 1000.0);
}

/// A font file with these tables, in this order.
fn with_tables(tables: &[(&[u8; 4], &[u8])]) -> Vec<u8> {
    let mut out = vec![0, 1, 0, 0];
    put16(&mut out, tables.len() as i32);
    out.extend([0; 6]);
    let mut offset = 12 + 16 * tables.len();
    for (tag, data) in tables {
        out.extend(*tag);
        out.extend([0; 4]);
        out.extend((offset as u32).to_be_bytes());
        out.extend((data.len() as u32).to_be_bytes());
        offset += data.len();
    }
    for (_, data) in tables {
        out.extend(*data);
    }
    out
}

fn metrics_font(hhea: &[u8], os2: &[u8]) -> Vec<u8> {
    with_tables(&[(b"OS/2", os2), (b"hhea", hhea)])
}

#[test]
fn a_descender_without_an_opposite_is_found() {
    assert!(descender_exists(&[]));
    assert!(descender_exists(&font()));
    let hhea = vec![0u8; 36];
    let mut os2 = vec![0u8; 78];
    assert!(descender_exists(&metrics_font(&hhea, &os2)));
    os2[76] = 0x80;
    assert!(!descender_exists(&metrics_font(&hhea, &os2)));
    assert!(!can_read_metrics(&metrics_font(&hhea, &os2)));
    let mut own = hhea.clone();
    own[7] = 1;
    assert!(descender_exists(&metrics_font(&own, &os2)));
    let mut typographic = os2.clone();
    typographic[71] = 1;
    assert!(descender_exists(&metrics_font(&hhea, &typographic)));
    let mut preferred = os2.clone();
    preferred.extend([0; 18]);
    preferred[1] = 4;
    assert!(!descender_exists(&metrics_font(&hhea, &preferred)));
    preferred[63] = 0x80;
    assert!(descender_exists(&metrics_font(&hhea, &preferred)));
    // A table too short for its version, or of an unknown one, is not used.
    assert!(descender_exists(&metrics_font(&hhea, &os2[..77])));
    let mut later = os2.clone();
    later[1] = 1;
    assert!(descender_exists(&metrics_font(&hhea, &later)));
    later.extend([0; 30]);
    assert!(!descender_exists(&metrics_font(&hhea, &later)));
    later[1] = 6;
    assert!(descender_exists(&metrics_font(&hhea, &later)));
}

#[test]
fn of_several_tables_the_last_one_counts() {
    let hhea = vec![0u8; 36];
    let mut own = hhea.clone();
    own[7] = 1;
    let mut os2 = vec![0u8; 78];
    os2[76] = 0x80;
    let first = with_tables(&[(b"hhea", &hhea), (b"hhea", &own), (b"OS/2", &os2)]);
    assert!(descender_exists(&first));
    assert_eq!(find_table(&first, HHEA), Some(&own[..]));
    assert_eq!(find_table(&first, OS2), Some(&os2[..]));
    let second = with_tables(&[(b"hhea", &own), (b"hhea", &hhea), (b"OS/2", &os2)]);
    assert!(!descender_exists(&second));
    // An entry that points behind the file hides the earlier ones.
    let mut cut = second.clone();
    cut[12 + 16 + 8] = 0x7f;
    assert_eq!(find_table(&cut, HHEA), None);
    // A collection's first font is read.
    let mut collection = b"ttcf".to_vec();
    collection.extend([0, 1, 0, 0, 0, 0, 0, 1, 0, 0, 0, 16]);
    collection.extend([0, 1, 0, 0, 0, 1, 0, 0, 0, 0, 0, 0]);
    collection.extend(b"hhea");
    collection.extend([0, 0, 0, 0, 0, 0, 0, 44, 0, 0, 0, 2, 7, 8]);
    assert_eq!(find_table(&collection, HHEA), Some(&[7, 8][..]));
    assert_eq!(find_table(&collection[..40], HHEA), None);
    assert_eq!(find_table(&[], HHEA), None);
}

#[test]
fn fonts_beyond_the_parser_are_told_apart() {
    assert!(can_read_metrics(&font()) && can_read_boxes(&font()));
    assert!(can_read_metrics(&[]) && can_read_boxes(&[]));
    // So many tables that their counter overflows.
    let mut many = vec![0u8; 12 + 16 * 65535];
    many[1] = 1;
    many[4] = 0xff;
    many[5] = 0xff;
    assert!(!can_read_metrics(&many) && !can_read_boxes(&many));
    many[5] = 0xfe;
    assert!(can_read_metrics(&many) && can_read_boxes(&many));
    // Varying metrics.
    assert!(!can_read_metrics(&with_tables(&[(b"MVAR", &[0]), (b"fvar", &[0])])));
    assert!(can_read_metrics(&with_tables(&[(b"fvar", &[0])])));
    assert!(can_read_metrics(&with_tables(&[(b"MVAR", &[0])])));
    assert!(can_read_boxes(&with_tables(&[(b"MVAR", &[0]), (b"fvar", &[0])])));
    // Outlines that are programs, or vary.
    for tag in [b"CFF ", b"CFF2"] {
        assert!(!can_read_boxes(&with_tables(&[(tag, &[0])])));
        assert!(can_read_metrics(&with_tables(&[(tag, &[0])])));
    }
    assert!(can_read_boxes(&with_tables(&[(b"gvar", &[0])])));
    assert!(!can_read_boxes(&font_and(&[(b"gvar", &[0])])));
    assert!(can_read_metrics(&font_and(&[(b"gvar", &[0])])));
}

/// The font with further tables.
fn font_and(extra: &[(&'static [u8; 4], &[u8])]) -> Vec<u8> {
    let base = font();
    let mut tables: Vec<(&[u8; 4], &[u8])> = Vec::new();
    for tag in [b"cmap", b"glyf", b"head", b"hhea", b"loca", b"maxp"] {
        tables.push((tag, find_table(&base, u32::from_be_bytes(*tag) as u64).unwrap()));
    }
    tables.extend(extra);
    with_tables(&tables)
}

#[test]
fn programs_beside_plain_outlines_are_not_run() {
    let u = Fpu32::new(host32);
    let draw = |g: u16, b: ContourBuilder| outline(g, b);
    let chars: Vec<char> = "AB".chars().collect();
    let want = build_arc_atlas(&u, &font(), &draw, &chars).unwrap();
    for tag in [b"CFF ", b"CFF2"] {
        let both = font_and(&[(tag, &[0])]);
        assert!(can_read_boxes(&both));
        let atlas = build_arc_atlas(&u, &both, &draw, &chars).unwrap();
        assert_eq!(atlas.segments.len(), want.segments.len());
        assert_eq!(atlas.bands, want.bands);
    }
    // So many places that the parser drops them, unless each takes four bytes.
    let places = vec![0u8; 2 * 65536];
    let mut head = vec![0u8; 54];
    let parts = |head: &[u8]| {
        with_tables(&[(b"glyf", &[0]), (b"loca", &places), (b"head", head), (b"CFF ", &[0])])
    };
    assert!(!can_read_boxes(&parts(&head)));
    assert!(!can_read_boxes(&parts(&head[..53])));
    head[51] = 1;
    assert!(can_read_boxes(&parts(&head)));
}

fn put_at(table: &mut [u8], at: usize, v: i16) {
    table[at..at + 2].copy_from_slice(&v.to_be_bytes());
}

/// Metrics of a font with these values, and with an `OS/2` table of this version.
fn choose_metrics(
    ordinary: (i16, i16),
    typographic: (i16, i16),
    windows: (i16, i16),
    version: i16,
    flags: i16,
    varies: bool,
) -> (f32, f32) {
    let mut head = vec![0u8; 54];
    put_at(&mut head, 18, 1000);
    let mut hhea = vec![0u8; 36];
    put_at(&mut hhea, 4, ordinary.0);
    put_at(&mut hhea, 6, ordinary.1);
    let mut os2 = vec![0u8; if version < 2 { 78 } else { 96 }];
    put_at(&mut os2, 0, version);
    put_at(&mut os2, 62, flags);
    put_at(&mut os2, 68, typographic.0);
    put_at(&mut os2, 70, typographic.1);
    put_at(&mut os2, 74, windows.0);
    put_at(&mut os2, 76, windows.1);
    let mut fvar = vec![0, 1, 0, 0, 0, 16, 0, 2, 0, 1, 0, 20, 0, 0, 0, 0];
    fvar.extend([0; 20]);
    let mut tables: Vec<(&[u8; 4], &[u8])> = vec![
        (b"head", &head),
        (b"hhea", &hhea),
        (b"maxp", &[0, 0, 0x50, 0, 0, 4]),
        (b"OS/2", &os2),
    ];
    if varies {
        tables.push((b"fvar", &fvar));
    }
    let data = with_tables(&tables);
    assert!(can_read_metrics(&data));
    assert_eq!(ttf_parser::Face::parse(&data, 0).unwrap().is_variable(), varies);
    let em = read_metrics(&Fpu32::new(host32), &data).unwrap();
    (f(em.descender) + 1000.0 / f(em.scale_em), f(em.descender))
}

#[test]
fn metrics_are_chosen_among_three() {
    let (own, typo, win) = ((800, -200), (375, -125), (1700, 300));
    assert_eq!(choose_metrics(own, typo, win, 0, 0, false), (800.0, -200.0));
    assert_eq!(choose_metrics(own, typo, win, 4, 0x80, false), (375.0, -125.0));
    assert_eq!(choose_metrics(own, typo, win, 4, 0x7f, false), (800.0, -200.0));
    assert_eq!(choose_metrics(own, typo, win, 3, 0x80, false), (800.0, -200.0));
    assert_eq!(choose_metrics((0, 0), typo, win, 3, 0, false), (375.0, -125.0));
    assert_eq!(choose_metrics((0, 0), (0, 0), win, 3, 0, false), (1700.0, -300.0));
    assert_eq!(choose_metrics((0, -125), (0, -7), (875, 9), 0, 0, false), (875.0, -125.0));
    assert_eq!(choose_metrics(own, (1000, 0), win, 4, 0x80, false), (1000.0, 0.0));
    // Tables too small for their version, or of an unknown one, are not asked.
    assert_eq!(choose_metrics((800, 0), typo, win, 1, 0, false), (800.0, 0.0));
    assert_eq!(choose_metrics((800, 0), typo, win, 6, 0, false), (800.0, 0.0));
    // Axes without varying metrics change nothing.
    assert_eq!(choose_metrics(own, typo, win, 4, 0x80, true), (375.0, -125.0));
    assert_eq!(choose_metrics((0, 0), (0, 0), win, 3, 0, true), (1700.0, -300.0));
}

#[test]
fn the_machine_obeys_the_laws_of_arithmetic() {
    let u = Fpu32::new(host32);
    let samples = [
        0.0,
        -0.0,
        1.0,
        -1.0,
        0.1,
        -2.75,
        1e-45,
        -1e-45,
        1.17e-38,
        3.0e38,
        -3.0e38,
        f32::INFINITY,
        f32::NEG_INFINITY,
        f32::NAN,
    ];
    let alike = |a: Real32, b: f32| f(a) == b || (f(a).is_nan() && b.is_nan());
    for x in samples {
        let a = r(x);
        if !x.is_nan() {
            assert_eq!(u.mul(a, r(1.0)), a);
            assert_eq!(u.sub(a, r(0.0)), a);
        }
        for y in samples {
            let b = r(y);
            assert_eq!(u.add(a, b), u.add(b, a));
            assert!(alike(u.sub(a, b), -f(u.sub(b, a))));
            if x.is_finite() && y.is_finite() {
                assert!(!f(u.sub(a, b)).is_nan());
                assert_eq!(f(u.sub(a, b)) > 0.0, y < x);
                assert_eq!(f(u.sub(a, b)) < 0.0, x < y);
            }
            if y != 0.0 {
                assert!(alike(u.div(a, b), f(u.div(r(-x), r(-y)))));
            }
        }
    }
    assert_eq!(u.mul(r(-0.0), r(-0.0)), u.mul(r(0.0), r(0.0)));
    assert!(alike(u.add(r(-0.0), r(-0.0)), f(u.add(r(0.0), r(0.0)))));
}

#[test]
fn a_curve_whose_ends_coincide_is_dropped() {
    let u = Fpu32::new(host32);
    for p1 in [pt(50.0, 60.0), pt(-3.0, 1e30), pt(f32::INFINITY, f32::NAN)] {
        let mut s = Vec::new();
        fit_arc_segment(&u, pt(7.5, -2.0), p1, pt(7.5, -2.0), &mut s);
        fit_arc_segment(&u, pt(0.0, 0.0), p1, pt(-0.0, -0.0), &mut s);
        fit_arc_segment(&u, pt(3.0e38, -3.0e38), p1, pt(3.0e38, -3.0e38), &mut s);
        assert_eq!(s.len(), 0);
    }
}

/// How often the pieces cross a height, by their ends and directions.
fn crossings(s: &[GpuSegment], y: f32) -> i32 {
    let mut n = 0;
    for p in s {
        let (lo, hi) = if p.kind == KIND_LINE {
            (f(p.param0[2]), f(p.param0[3]))
        } else {
            (f(p.param0[3]), f(p.param1[0]))
        };
        if p.kind != KIND_FLAT && lo <= y && y < hi {
            n += f(p.direction) as i32;
        }
    }
    n
}

#[test]
fn the_pieces_of_a_curve_wind_like_its_ends() {
    let u = Fpu32::new(host32);
    for (p0, p1, p2) in [
        (pt(0.0, 0.0), pt(50.0, 100.0), pt(100.0, 0.0)),
        (pt(0.0, 0.0), pt(50.0, 100.0), pt(90.0, 20.0)),
        (pt(0.0, 40.0), pt(50.0, -100.0), pt(90.0, 20.0)),
        (pt(0.0, 0.0), pt(0.0, 100.0), pt(100.0, 100.0)),
        (pt(100.0, 100.0), pt(50.0, 50.0), pt(0.0, 0.0)),
    ] {
        let mut s = Vec::new();
        process_quad_bezier(&u, p0, p1, p2, &mut s);
        assert!(s.len() > 0);
        let (a, b) = (f(p0[1]), f(p2[1]));
        for i in -120..240 {
            let y = i as f32 * 0.5;
            let want = if a <= y && y < b {
                1
            } else if b <= y && y < a {
                -1
            } else {
                0
            };
            assert_eq!(crossings(&s, y), want);
        }
    }
}

#[test]
fn a_contour_opened_by_a_curve_ends_on_it() {
    let u = Fpu32::new(host32);
    let mut b = ContourBuilder::default();
    b.quad_to(r(1.0), r(2.0), r(3.0), r(4.0));
    b.close();
    b.curve_to(&u, r(3.0), r(6.0), r(9.0), r(6.0), r(12.0), r(0.0));
    b.quad_to(r(1.0), r(2.0), r(3.0), r(4.0));
    b.move_to(r(0.0), r(0.0));
    b.close();
    let lens: Vec<usize> = b.contours.iter().map(|c| c.len()).collect();
    assert_eq!(lens, [2, 6, 1]);
    for c in &b.contours {
        assert!(c[c.len() - 1].p_type == PointType::OnCurve);
        for pair in c.windows(2) {
            assert!(pair.iter().any(|p| p.p_type == PointType::OnCurve));
        }
    }
}

#[test]
fn an_exact_line_keeps_its_intercept_when_reversed() {
    for (x0, y0, x1, y1, intercept) in
        [(4.0, 2.0, 8.0, 10.0, 3.0), (0.0, 0.0, 10.0, 20.0, 0.0), (7.0, 16.0, -1.0, 0.0, -1.0)]
    {
        assert_eq!(f(line(x0, y0, x1, y1)[0].param0[1]), intercept);
        assert_eq!(f(line(x1, y1, x0, y0)[0].param0[1]), intercept);
    }
}

fn same(a: Real32, b: Real32) -> bool {
    f(a) == f(b)
}

#[test]
fn a_reversed_line_only_turns_round() {
    for (x0, y0, x1, y1) in [
        (0.0, 0.0, 10.0, 20.0),
        (3.7, -8.25, 91.3, 44.125),
        (30.0, 5.0, 10.0, 5.5),
        (5.0, 1.0, 5.0, 90.0),
        (0.0, 7.0, -0.0, 70.0),
        (1.0, 1.0, 1.1, 1.1),
    ] {
        let a = line(x0, y0, x1, y1);
        let b = line(x1, y1, x0, y0);
        assert_eq!(a.len(), b.len());
        if let (Some(a), Some(b)) = (a.first(), b.first()) {
            assert_eq!(a.kind, b.kind);
            assert_eq!(f(b.direction), -f(a.direction));
            assert!(same(a.x_max, b.x_max));
            for i in [0, 2, 3] {
                assert!(same(a.param0[i], b.param0[i]));
            }
            assert!(a.kind != KIND_FLAT || a.param0[1] == b.param0[1]);
            assert_eq!(a.param1, b.param1);
        }
    }
}

#[test]
fn a_reversed_arc_only_turns_round() {
    let u = Fpu32::new(host32);
    for (p0, p1, p2) in [
        (pt(0.0, 0.0), pt(0.0, 100.0), pt(100.0, 100.0)),
        (pt(0.0, 100.0), pt(64.0, 50.0), pt(0.0, 0.0)),
        (pt(0.0, 0.0), pt(8.0, 4.0), pt(0.0, 8.0)),
        (pt(16.0, 0.0), pt(8.0, 4.0), pt(16.0, 8.0)),
    ] {
        let mut s = Vec::new();
        fit_arc_segment(&u, p0, p1, p2, &mut s);
        fit_arc_segment(&u, p2, p1, p0, &mut s);
        let (a, b) = (s[0], s[1]);
        assert_eq!((a.kind, b.kind), (KIND_ARC, KIND_ARC));
        assert_eq!(f(b.direction), -f(a.direction));
        assert_eq!(a.sign, b.sign);
        assert!(same(a.x_max, b.x_max));
        assert_eq!(floats(&a.param0), floats(&b.param0));
        assert_eq!(floats(&a.param1), floats(&b.param1));
    }
}

#[test]
fn a_box_is_placed_like_the_points() {
    let u = Fpu32::new(host32);
    let em = EmMetrics { descender: r(-200.0), scale_em: r(0.5) };
    assert_eq!(floats(&place_box(&u, em, (-10, 0, 300, 700))), [-5.0, 100.0, 150.0, 450.0]);
}

#[test]
fn a_font_gives_an_arc_atlas() {
    let u = Fpu32::new(host32);
    let chars = vec!['A', '!', 'B', 'C'];
    let atlas = build_arc_atlas(&u, &font(), &outline, &chars).unwrap();
    assert_eq!(atlas.starts.len(), 3);
    assert_eq!(atlas.starts[&('A' as u32)], 0);
    assert_eq!(atlas.starts[&('B' as u32)], 32);
    assert_eq!(atlas.starts[&('C' as u32)], 64);
    assert_eq!(atlas.starts.get(&('!' as u32)), None);
    assert_eq!(atlas.bands.len(), 96);
    assert_eq!(floats(&atlas.boxes[&('A' as u32)]), [100.0, 200.0, 600.0, 700.0]);
    assert_eq!(floats(&atlas.boxes[&('B' as u32)])[2], 500.0);
    assert_eq!(atlas.boxes.get(&('C' as u32)), None);
    // The bottom of the box lies at 200, in band 6; its sides go up to 700.
    assert_eq!(atlas.bands[5][1], 0);
    assert_eq!(atlas.bands[6][1], 3);
    assert_eq!(atlas.bands[7][1], 2);
    assert_eq!(atlas.bands[22][1], 3);
    assert_eq!(atlas.bands[23][1], 0);
    let first = atlas.segments[atlas.bands[7][0] as usize];
    assert_eq!(f(first.x_max), 600.0);
    assert_eq!(f(first.direction), -1.0);
    // The curve rises and falls.
    let b = atlas.bands[32 + 8];
    assert_eq!(b[1], 2);
    assert!(build_arc_atlas(&u, &[], &outline, &chars).is_none());
}

#[test]
fn a_glyph_is_traced_into_the_builder() {
    let b = trace(&outline, 1, ContourBuilder::default());
    assert_eq!(b.contours.len(), 1);
    assert_eq!(xy(&b.contours[0][1]), (100.0, 500.0, true));
    assert_eq!(trace(&outline, 3, ContourBuilder::default()).contours.len(), 0);
}

#[test]
fn the_characters_and_columns() {
    let chars = charset();
    let text = "ABCDEFGHIJKLMNOPQRSTUVWXYZabcdefghijklmnopqrstuvwxyzАБВГДЕЁЖЗИЙКЛМНОПРСТУФХЦЧШЩЪЫЬЭЮЯабвгдеёжзийклмнопрстуфхцчшщъыьэюя0123456789!@#$%^&*()_+-=[]{}|;':\",.<>/?";
    assert_eq!(chars, text.chars().collect::<Vec<char>>());
    let mut seen = chars.clone();
    seen.sort();
    seen.dedup();
    assert_eq!(seen.len(), chars.len());
    let all = screens();
    assert_eq!(all.len(), 5);
    assert_eq!(total_instances(&all), 45300);
    let table: Vec<(&str, f32, usize, Vec<f32>)> =
        all.iter().map(|s| (s.name, f(s.font_size), s.char_count, floats(&s.color))).collect();
    assert_eq!(table[0], ("11px", 4.0, 25500, vec![0.35, 0.90, 1.00, 1.0]));
    assert_eq!(table[1], ("13px", 6.0, 10600, vec![0.45, 1.00, 0.55, 1.0]));
    assert_eq!(table[2], ("20px", 8.0, 6300, vec![1.00, 0.88, 0.35, 1.0]));
    assert_eq!(table[3], ("32px", 12.0, 2500, vec![1.00, 0.55, 0.35, 1.0]));
    assert_eq!(table[4], ("72px", 32.0, 400, vec![0.90, 0.45, 1.00, 1.0]));
}

#[test]
fn cells_fill_the_lines_of_a_column() {
    let u = Fpu32::new(host32);
    let c = vector_bench::screens::column(&u, 2, r(8.0));
    assert_eq!(f(c.x_start), 2.0 * 330.0 + 12.0);
    assert_eq!(f(c.scale), 0.008);
    assert_eq!(f(c.advance_x), 8.0 * 0.58);
    assert_eq!(f(c.line_height), 10.0);
    assert_eq!(c.max_cols, 65);
    assert_eq!(floats(&cell(&u, &c, 0)), [672.0, 20.0]);
    assert_eq!(floats(&cell(&u, &c, 64)), [672.0 + 64.0 * (8.0f32 * 0.58), 20.0]);
    assert_eq!(floats(&cell(&u, &c, 65)), [672.0, 30.0]);
    // A font too large for the column still gets one character a line.
    assert_eq!(vector_bench::screens::column(&u, 0, r(4000.0)).max_cols, 1);
}

fn small_screens() -> Vec<SubScreenConfig> {
    let color = [r(0.1), r(0.2), r(0.3), r(1.0)];
    vec![
        SubScreenConfig { name: "a", font_size: r(4.0), char_count: 3, color },
        SubScreenConfig { name: "b", font_size: r(200.0), char_count: 2, color },
    ]
}

#[test]
fn a_scene_repeats_the_characters_in_every_column() {
    let u = Fpu32::new(host32);
    let v = Fpu64::new(host64);
    let chars = vec!['A', '!'];
    let atlas = build_arc_atlas(&u, &font(), &outline, &vec!['C', 'A']).unwrap();
    let scene = arc_scene(&u, &v, &atlas, &chars, &small_screens());
    assert_eq!(scene.instances.len(), 5);
    let starts: Vec<u32> = scene.instances.iter().map(|x| x.band_start).collect();
    assert_eq!(starts, [32, 0, 32, 32, 0]);
    // The padding is at most 100, and 600 over the font size.
    assert_eq!(floats(&scene.instances[0].bbox), [0.0, 100.0, 700.0, 800.0]);
    assert_eq!(floats(&scene.instances[1].bbox), [0.0; 4]);
    assert_eq!(floats(&scene.instances[3].bbox), [97.0, 197.0, 603.0, 703.0]);
    assert_eq!(floats(&scene.instances[3].pos), [342.0, 20.0]);
    assert_eq!(floats(&scene.instances[4].pos), [342.0 + 200.0 * 0.58f32, 20.0]);
    assert_eq!(floats(&scene.instances[0].color), [0.1, 0.2, 0.3, 1.0]);
    assert_eq!(f(scene.instances[0].scale), 0.004);
    assert_eq!(scene.segments, 5 * mean_segments(&atlas));
    let small = (700.0 * 0.004f32 as f64) * (700.0 * 0.004f32 as f64);
    let large = (506.0 * 0.2f32 as f64) * (506.0 * 0.2f32 as f64);
    assert_eq!(d(scene.fragments), small + small + large);
    let none = arc_scene(&u, &v, &atlas, &Vec::new(), &Vec::new());
    assert_eq!(none.instances.len(), 0);
}
