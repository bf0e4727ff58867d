//! Placing the glyphs of an arc atlas on the screen.
use crate::arc::atlas::{ArcAtlas, AtlasView, NUM_BANDS};
use crate::fpu::{Fpu32, Fpu64, Op32, Op64};
use crate::literal::{WIDE_ZERO, ZERO};
use crate::number::{lit, wide_lit, Real32, Real64};
use crate::screens::{
    cell, cell_of, column, column_of, lemma_count_of_first, total_count, Column, SubScreenConfig,
};
use vstd::arithmetic::mul::lemma_mul_inequality;
use vstd::prelude::*;

verus! {

broadcast use vstd::std_specs::hash::group_hash_axioms;

/// 600.0: the padding around a glyph of font size one.
pub const PADDING: u32 = 0x4416_0000;

/// 100.0: the widest padding.
pub const MAX_PADDING: u32 = 0x42c8_0000;

/// One character on the screen, as the vertex shader reads it.
#[derive(Copy, Clone)]
pub struct InstanceData {
    pub pos: [Real32; 2],
    pub scale: Real32,
    /// The first of the glyph's bands.
    pub band_start: u32,
    pub color: [Real32; 4],
    /// The glyph's box with its padding: `[x_min, y_min, x_max, y_max]`.
    pub bbox: [Real32; 4],
}

/// The padding around a glyph, in units of the glyph square.
pub open spec fn padding<F: Fn(Op32) -> Real32>(u: &Fpu32<F>, font_size: Real32) -> Real32 {
    u.div(lit(PADDING), font_size).min(lit(MAX_PADDING))
}

/// The box with `pad` added on all sides.
pub open spec fn padded<F: Fn(Op32) -> Real32>(
    u: &Fpu32<F>,
    b: [Real32; 4],
    pad: Real32,
) -> [Real32; 4] {
    [u.sub(b[0], pad), u.sub(b[1], pad), u.add(b[2], pad), u.add(b[3], pad)]
}

/// Character `ch` at cell `i` of a column. A character that the atlas does not
/// list gets band 0, one without a box an empty box.
pub open spec fn instance_of<F: Fn(Op32) -> Real32>(
    u: &Fpu32<F>,
    atlas: AtlasView,
    ch: char,
    cfg: SubScreenConfig,
    column: Column,
    i: int,
) -> InstanceData {
    InstanceData {
        pos: cell_of(u, column, i),
        scale: column.scale,
        band_start: if atlas.starts.contains_key(ch as u32) {
            atlas.starts[ch as u32]
        } else {
            0
        },
        color: cfg.color,
        bbox: if atlas.boxes.contains_key(ch as u32) {
            padded(u, atlas.boxes[ch as u32], padding(u, cfg.font_size))
        } else {
            [lit(ZERO), lit(ZERO), lit(ZERO), lit(ZERO)]
        },
    }
}

/// The number of pixels that an instance covers: the sides of its box, each at
/// least 0, times its scale.
pub open spec fn coverage<F: Fn(Op32) -> Real32, G: Fn(Op64) -> Real64>(
    u: &Fpu32<F>,
    w: &Fpu64<G>,
    x: InstanceData,
) -> Real64 {
    let scale = w.widen(x.scale);
    let bw = w.mul(w.widen(u.sub(x.bbox[2], x.bbox[0]).max(lit(ZERO))), scale);
    let bh = w.mul(w.widen(u.sub(x.bbox[3], x.bbox[1]).max(lit(ZERO))), scale);
    w.mul(bw, bh)
}

/// The instances placed so far and the pixels they cover.
#[verifier::ext_equal]
pub struct SceneView {
    pub instances: Seq<InstanceData>,
    pub fragments: Real64,
}

impl SceneView {
    pub open spec fn empty() -> SceneView {
        SceneView { instances: seq![], fragments: wide_lit(WIDE_ZERO) }
    }

    pub open spec fn with_instance<F: Fn(Op32) -> Real32, G: Fn(Op64) -> Real64>(
        self,
        u: &Fpu32<F>,
        w: &Fpu64<G>,
        x: InstanceData,
    ) -> SceneView {
        SceneView {
            instances: self.instances.push(x),
            fragments: w.add(self.fragments, coverage(u, w, x)),
        }
    }

    /// The first `n` characters of a column are placed; the characters repeat.
    pub open spec fn with_cells<F: Fn(Op32) -> Real32, G: Fn(Op64) -> Real64>(
        self,
        u: &Fpu32<F>,
        w: &Fpu64<G>,
        atlas: AtlasView,
        chars: Seq<char>,
        cfg: SubScreenConfig,
        column: Column,
        n: int,
    ) -> SceneView
        decreases n,
    {
        if n <= 0 {
            self
        } else {
            let ch = chars[(n - 1) % chars.len() as int];
            self.with_cells(u, w, atlas, chars, cfg, column, n - 1).with_instance(
                u,
                w,
                instance_of(u, atlas, ch, cfg, column, n - 1),
            )
        }
    }

    /// All columns are filled, from left to right.
    pub open spec fn with_screens<F: Fn(Op32) -> Real32, G: Fn(Op64) -> Real64>(
        self,
        u: &Fpu32<F>,
        w: &Fpu64<G>,
        atlas: AtlasView,
        chars: Seq<char>,
        screens: Seq<SubScreenConfig>,
    ) -> SceneView
        decreases screens.len(),
    {
        if screens.len() == 0 {
            self
        } else {
            let cfg = screens.last();
            self.with_screens(u, w, atlas, chars, screens.drop_last()).with_cells(
                u,
                w,
                atlas,
                chars,
                cfg,
                column_of(u, (screens.len() - 1) as usize, cfg.font_size),
                cfg.char_count as int,
            )
        }
    }
}

/// The mean number of segments per listed character, rounded down.
pub open spec fn segments_per_glyph(atlas: AtlasView) -> int {
    atlas.segments.len() as int / (if atlas.starts.len() < 1 {
        1
    } else {
        atlas.starts.len() as int
    })
}

pub fn mean_segments(atlas: &ArcAtlas) -> (r: u64)
    ensures
        r == segments_per_glyph(atlas@),
{
    let listed: usize = atlas.starts.len();
    let glyphs: usize = if listed < 1 {
        1
    } else {
        listed
    };
    (atlas.segments.len() / glyphs) as u64
}

pub struct ArcScene {
    pub instances: Vec<InstanceData>,
    /// The pixels that all boxes cover in one frame.
    pub fragments: Real64,
    /// The segments that all instances hold in one frame, on average.
    pub segments: u64,
}

impl View for ArcScene {
    type V = SceneView;

    open spec fn view(&self) -> SceneView {
        SceneView { instances: self.instances@, fragments: self.fragments }
    }
}

fn place<F: Fn(Op32) -> Real32>(
    u: &Fpu32<F>,
    atlas: &ArcAtlas,
    ch: char,
    cfg: &SubScreenConfig,
    column: &Column,
    i: usize,
) -> (r: InstanceData)
    requires
        column.max_cols >= 1,
    ensures
        r == instance_of(u, atlas@, ch, *cfg, *column, i as int),
{
    let code: u32 = ch as u32;
    let zero = lit(ZERO);
    let pad = u.div(lit(PADDING), cfg.font_size).min(lit(MAX_PADDING));
    let band_start: u32 = match atlas.starts.get(&code) {
        Some(start) => *start,
        None => 0,
    };
    let bbox: [Real32; 4] = match atlas.boxes.get(&code) {
        Some(b) => [u.sub(b[0], pad), u.sub(b[1], pad), u.add(b[2], pad), u.add(b[3], pad)],
        None => [zero, zero, zero, zero],
    };
    InstanceData { pos: cell(u, column, i), scale: column.scale, band_start, color: cfg.color, bbox }
}

fn covered<F: Fn(Op32) -> Real32, G: Fn(Op64) -> Real64>(
    u: &Fpu32<F>,
    w: &Fpu64<G>,
    x: &InstanceData,
) -> (r: Real64)
    ensures
        r == coverage(u, w, *x),
{
    let scale = w.widen(x.scale);
    let bw = w.mul(w.widen(u.sub(x.bbox[2], x.bbox[0]).max(lit(ZERO))), scale);
    let bh = w.mul(w.widen(u.sub(x.bbox[3], x.bbox[1]).max(lit(ZERO))), scale);
    w.mul(bw, bh)
}

/// Fills all columns with the characters `chars`, over and over.
pub fn arc_scene<F: Fn(Op32) -> Real32, G: Fn(Op64) -> Real64>(
    u: &Fpu32<F>,
    w: &Fpu64<G>,
    atlas: &ArcAtlas,
    chars: &Vec<char>,
    screens: &Vec<SubScreenConfig>,
) -> (r: ArcScene)
    requires
        total_count(screens@) > 0 ==> chars.len() > 0,
        total_count(screens@) * segments_per_glyph(atlas@) <= u64::MAX,
    ensures
        r@ == SceneView::empty().with_screens(u, w, atlas@, chars@, screens@),
        r.segments == total_count(screens@) * segments_per_glyph(atlas@),
{
    let per: u64 = mean_segments(atlas);
    let mut scene = ArcScene {
        instances: Vec::new(),
        fragments: wide_lit(WIDE_ZERO),
        segments: 0,
    };
    assert(scene@ =~= SceneView::empty());
    let ghost total = total_count(screens@);
    assert(total_count(screens@.take(0)) * per == 0) by {
        assert(total_count(screens@.take(0)) == 0);
    }
    for p in 0..screens.len()
        invariant
            total == total_count(screens@),
            total > 0 ==> chars.len() > 0,
            per == segments_per_glyph(atlas@),
            total * per <= u64::MAX,
            scene@ == SceneView::empty().with_screens(
                u,
                w,
                atlas@,
                chars@,
                screens@.take(p as int),
            ),
            scene.segments == total_count(screens@.take(p as int)) * per,
    {
        let cfg = screens[p];
        let column = column(u, p, cfg.font_size);
        let ghost start = scene@;
        let ghost placed = total_count(screens@.take(p as int));
        proof {
            lemma_count_of_first(screens@, p as int);
            lemma_count_of_first(screens@, p + 1);
            assert(screens@.take(p + 1).drop_last() =~= screens@.take(p as int));
            assert(placed * per + 0 * per == (placed + 0) * per) by (nonlinear_arith);
        }
        for i in 0..cfg.char_count
            invariant
                cfg.char_count > 0 ==> chars.len() > 0,
                column.max_cols >= 1,
                placed + cfg.char_count <= total,
                total * per <= u64::MAX,
                scene@ == start.with_cells(u, w, atlas@, chars@, cfg, column, i as int),
                scene.segments == (placed + i) * per,
        {
            let x = place(u, atlas, chars[i % chars.len()], &cfg, &column, i);
            let pixels = covered(u, w, &x);
            proof {
                lemma_mul_inequality(placed + i + 1, total as int, per as int);
                assert((placed + i) * per + per == (placed + i + 1) * per) by (nonlinear_arith);
            }
            scene.instances.push(x);
            scene.fragments = w.add(scene.fragments, pixels);
            scene.segments = scene.segments + per;
        }
    }
    assert(screens@.take(screens.len() as int) =~= screens@);
    scene
}

proof fn lemma_with_cells<F: Fn(Op32) -> Real32, G: Fn(Op64) -> Real64>(
    v: SceneView,
    u: &Fpu32<F>,
    w: &Fpu64<G>,
    atlas: AtlasView,
    chars: Seq<char>,
    cfg: SubScreenConfig,
    column: Column,
    n: int,
)
    requires
        0 <= n,
    ensures
        ({
            let r = v.with_cells(u, w, atlas, chars, cfg, column, n);
            &&& r.instances.len() == v.instances.len() + n
            &&& forall|k: int|
                0 <= k < v.instances.len() ==> #[trigger] r.instances[k] == v.instances[k]
            &&& forall|i: int|
                0 <= i < n ==> #[trigger] r.instances[v.instances.len() + i] == instance_of(
                    u,
                    atlas,
                    chars[i % chars.len() as int],
                    cfg,
                    column,
                    i,
                )
        }),
    decreases n,
{
    if n > 0 {
        lemma_with_cells(v, u, w, atlas, chars, cfg, column, n - 1);
    }
}

/// Every column holds as many instances as it asks for, one column behind the
/// other, and instance `i` of a column shows the `i`-th character, counted round
/// and round, in the `i`-th cell.
pub proof fn law_scene_instances<F: Fn(Op32) -> Real32, G: Fn(Op64) -> Real64>(
    u: &Fpu32<F>,
    w: &Fpu64<G>,
    atlas: AtlasView,
    chars: Seq<char>,
    screens: Seq<SubScreenConfig>,
)
    ensures
        ({
            let v = SceneView::empty().with_screens(u, w, atlas, chars, screens);
            &&& v.instances.len() == total_count(screens)
            &&& forall|p: int, i: int|
                #![trigger v.instances[total_count(screens.take(p)) + i]]
                0 <= p < screens.len() && 0 <= i < screens[p].char_count
                    ==> v.instances[total_count(screens.take(p)) + i] == instance_of(
                    u,
                    atlas,
                    chars[i % chars.len() as int],
                    screens[p],
                    column_of(u, p as usize, screens[p].font_size),
                    i,
                )
        }),
    decreases screens.len(),
{
    if screens.len() > 0 {
        let q = screens.len() - 1;
        let front = screens.drop_last();
        let cfg = screens.last();
        let column = column_of(u, q as usize, cfg.font_size);
        let w0 = SceneView::empty().with_screens(u, w, atlas, chars, front);
        let v = SceneView::empty().with_screens(u, w, atlas, chars, screens);
        law_scene_instances(u, w, atlas, chars, front);
        lemma_with_cells(w0, u, w, atlas, chars, cfg, column, cfg.char_count as int);
        assert forall|p: int, i: int|
            #![trigger v.instances[total_count(screens.take(p)) + i]]
            0 <= p < screens.len() && 0 <= i < screens[p].char_count implies v.instances[total_count(
            screens.take(p),
        ) + i] == instance_of(
            u,
            atlas,
            chars[i % chars.len() as int],
            screens[p],
            column_of(u, p as usize, screens[p].font_size),
            i,
        ) by {
            if p < q {
                assert(screens.take(p) =~= front.take(p));
                lemma_count_of_first(front, p);
                lemma_count_of_first(front, p + 1);
                assert(w0.instances[total_count(front.take(p)) + i] == instance_of(
                    u,
                    atlas,
                    chars[i % chars.len() as int],
                    front[p],
                    column_of(u, p as usize, front[p].font_size),
                    i,
                ));
            } else {
                assert(screens.take(p) =~= front);
            }
        }
    }
}

/// As long as the atlas lists a glyph at all, every instance refers to bands
/// that exist.
pub proof fn law_scene_bands_in_range<F: Fn(Op32) -> Real32, G: Fn(Op64) -> Real64>(
    u: &Fpu32<F>,
    w: &Fpu64<G>,
    atlas: AtlasView,
    chars: Seq<char>,
    screens: Seq<SubScreenConfig>,
)
    requires
        atlas.starts_in_range(),
        atlas.bands.len() >= NUM_BANDS,
    ensures
        ({
            let v = SceneView::empty().with_screens(u, w, atlas, chars, screens);
            forall|k: int|
                0 <= k < v.instances.len() ==> (#[trigger] v.instances[k]).band_start + NUM_BANDS
                    <= atlas.bands.len()
        }),
    decreases screens.len(),
{
    if screens.len() > 0 {
        let front = screens.drop_last();
        let cfg = screens.last();
        let column = column_of(u, (screens.len() - 1) as usize, cfg.font_size);
        let w0 = SceneView::empty().with_screens(u, w, atlas, chars, front);
        let v = SceneView::empty().with_screens(u, w, atlas, chars, screens);
        law_scene_bands_in_range(u, w, atlas, chars, front);
        lemma_with_cells(w0, u, w, atlas, chars, cfg, column, cfg.char_count as int);
        let n = w0.instances.len();
        assert forall|k: int| 0 <= k < v.instances.len() implies (
        #[trigger] v.instances[k]).band_start + NUM_BANDS <= atlas.bands.len() by {
            if k >= n {
                assert(v.instances[n + (k - n)] == instance_of(
                    u,
                    atlas,
                    chars[(k - n) % chars.len() as int],
                    cfg,
                    column,
                    k - n,
                ));
            }
        }
    }
}

} // verus!
