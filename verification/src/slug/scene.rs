//! Placing the glyphs of a slug atlas on the screen.
use crate::fpu::{Fpu32, Fpu64, Op32, Op64};
use crate::literal::{WIDE_ZERO, ZERO};
use crate::number::{lit, wide_lit, Real32, Real64};
use crate::screens::{
    cell, cell_of, column, column_of, lemma_count_of_first, total_count, Column, SubScreenConfig,
};
use crate::slug::atlas::{SlugAtlas, SlugAtlasView};
use vstd::prelude::*;

verus! {

broadcast use vstd::std_specs::hash::group_hash_axioms;

/// 2.5, in binary64: the curves that a pixel tests, on average.
pub const TESTS_PER_FRAGMENT: u64 = 0x4004_0000_0000_0000;

/// One character on the screen, as the vertex shader reads it.
#[derive(Copy, Clone)]
pub struct InstanceData {
    pub pos: [Real32; 2],
    pub scale: Real32,
    pub glyph_id: u32,
    pub color: [Real32; 4],
}

/// The glyph of a character; glyph 0 for one that the atlas does not list.
pub open spec fn glyph_of(atlas: SlugAtlasView, ch: char) -> u32 {
    if atlas.ids.contains_key(ch as u32) {
        atlas.ids[ch as u32]
    } else {
        0
    }
}

/// Character `ch` at cell `i` of a column.
pub open spec fn instance_of<F: Fn(Op32) -> Real32>(
    u: &Fpu32<F>,
    atlas: SlugAtlasView,
    ch: char,
    cfg: SubScreenConfig,
    column: Column,
    i: int,
) -> InstanceData {
    InstanceData {
        pos: cell_of(u, column, i),
        scale: column.scale,
        glyph_id: glyph_of(atlas, ch),
        color: cfg.color,
    }
}

/// The number of pixels that an instance covers: the sides of its glyph's box,
/// each at least 0, times its scale.
pub open spec fn coverage<F: Fn(Op32) -> Real32, G: Fn(Op64) -> Real64>(
    u: &Fpu32<F>,
    w: &Fpu64<G>,
    atlas: SlugAtlasView,
    x: InstanceData,
) -> Real64 {
    let bbox = atlas.boxes[x.glyph_id as int];
    let scale = w.widen(x.scale);
    let bw = w.mul(w.widen(u.sub(bbox[2], bbox[0]).max(lit(ZERO))), scale);
    let bh = w.mul(w.widen(u.sub(bbox[3], bbox[1]).max(lit(ZERO))), scale);
    w.mul(bw, bh)
}

/// The instances placed so far, the pixels they cover and the curve tests these
/// take.
#[verifier::ext_equal]
pub struct SlugSceneView {
    pub instances: Seq<InstanceData>,
    pub fragments: Real64,
    pub tests: Real64,
}

impl SlugSceneView {
    pub open spec fn empty() -> SlugSceneView {
        SlugSceneView {
            instances: seq![],
            fragments: wide_lit(WIDE_ZERO),
            tests: wide_lit(WIDE_ZERO),
        }
    }

    pub open spec fn with_instance<F: Fn(Op32) -> Real32, G: Fn(Op64) -> Real64>(
        self,
        u: &Fpu32<F>,
        w: &Fpu64<G>,
        atlas: SlugAtlasView,
        x: InstanceData,
    ) -> SlugSceneView {
        let pixels = coverage(u, w, atlas, x);
        SlugSceneView {
            instances: self.instances.push(x),
            fragments: w.add(self.fragments, pixels),
            tests: w.add(self.tests, w.mul(pixels, wide_lit(TESTS_PER_FRAGMENT))),
        }
    }

    /// The first `n` characters of a column are placed; the characters repeat.
    pub open spec fn with_cells<F: Fn(Op32) -> Real32, G: Fn(Op64) -> Real64>(
        self,
        u: &Fpu32<F>,
        w: &Fpu64<G>,
        atlas: SlugAtlasView,
        chars: Seq<char>,
        cfg: SubScreenConfig,
        column: Column,
        n: int,
    ) -> SlugSceneView
        decreases n,
    {
        if n <= 0 {
            self
        } else {
            let ch = chars[(n - 1) % chars.len() as int];
            self.with_cells(u, w, atlas, chars, cfg, column, n - 1).with_instance(
                u,
                w,
                atlas,
                instance_of(u, atlas, ch, cfg, column, n - 1),
            )
        }
    }

    /// All columns are filled, from left to right.
    pub open spec fn with_screens<F: Fn(Op32) -> Real32, G: Fn(Op64) -> Real64>(
        self,
        u: &Fpu32<F>,
        w: &Fpu64<G>,
        atlas: SlugAtlasView,
        chars: Seq<char>,
        screens: Seq<SubScreenConfig>,
    ) -> SlugSceneView
        decreases screens.len(),
    {
        if screens.len() == 0 {
            self
        } else {
            let cfg = screens.last();
            self.with_screens(u, w, atlas, chars, screens.drop_last()).with_cells(
                u,
                w,
                atlas,
                chars,
                cfg,
                column_of(u, (screens.len() - 1) as usize, cfg.font_size),
                cfg.char_count as int,
            )
        }
    }
}

pub struct SlugScene {
    pub instances: Vec<InstanceData>,
    /// The pixels that all boxes cover in one frame.
    pub fragments: Real64,
    /// The curve tests of one frame, as an estimate.
    pub tests: Real64,
}

impl View for SlugScene {
    type V = SlugSceneView;

    open spec fn view(&self) -> SlugSceneView {
        SlugSceneView {
            instances: self.instances@,
            fragments: self.fragments,
            tests: self.tests,
        }
    }
}

fn covered<F: Fn(Op32) -> Real32, G: Fn(Op64) -> Real64>(
    u: &Fpu32<F>,
    w: &Fpu64<G>,
    atlas: &SlugAtlas,
    x: &InstanceData,
) -> (r: Real64)
    requires
        x.glyph_id < atlas.boxes.len(),
    ensures
        r == coverage(u, w, atlas@, *x),
{
    let bbox = atlas.boxes[x.glyph_id as usize];
    let scale = w.widen(x.scale);
    let bw = w.mul(w.widen(u.sub(bbox[2], bbox[0]).max(lit(ZERO))), scale);
    let bh = w.mul(w.widen(u.sub(bbox[3], bbox[1]).max(lit(ZERO))), scale);
    w.mul(bw, bh)
}

/// Every character that the columns show has its glyph in the atlas.
pub open spec fn glyphs_exist(atlas: SlugAtlasView, chars: Seq<char>) -> bool {
    forall|i: int|
        0 <= i < chars.len() ==> glyph_of(atlas, #[trigger] chars[i]) < atlas.boxes.len()
}

/// Every one of these characters has its glyph in the atlas.
pub fn all_glyphs_exist(atlas: &SlugAtlas, chars: &Vec<char>) -> (r: bool)
    ensures
        r == glyphs_exist(atlas@, chars@),
{
    for i in 0..chars.len()
        invariant
            forall|j: int|
                0 <= j < i ==> glyph_of(atlas@, #[trigger] chars[j]) < atlas.boxes.len(),
    {
        let code: u32 = chars[i] as u32;
        let glyph_id: u32 = match atlas.ids.get(&code) {
            Some(id) => *id,
            None => 0,
        };
        assert(glyph_id == glyph_of(atlas@, chars[i as int]));
        if glyph_id as usize >= atlas.boxes.len() {
            return false;
        }
    }
    true
}

/// Fills all columns with the characters `chars`, over and over.
pub fn slug_scene<F: Fn(Op32) -> Real32, G: Fn(Op64) -> Real64>(
    u: &Fpu32<F>,
    w: &Fpu64<G>,
    atlas: &SlugAtlas,
    chars: &Vec<char>,
    screens: &Vec<SubScreenConfig>,
) -> (r: SlugScene)
    requires
        total_count(screens@) > 0 ==> chars.len() > 0 && glyphs_exist(atlas@, chars@),
    ensures
        r@ == SlugSceneView::empty().with_screens(u, w, atlas@, chars@, screens@),
{
    let mut scene = SlugScene {
        instances: Vec::new(),
        fragments: wide_lit(WIDE_ZERO),
        tests: wide_lit(WIDE_ZERO),
    };
    assert(scene@ =~= SlugSceneView::empty());
    for p in 0..screens.len()
        invariant
            total_count(screens@) > 0 ==> chars.len() > 0 && glyphs_exist(atlas@, chars@),
            scene@ == SlugSceneView::empty().with_screens(
                u,
                w,
                atlas@,
                chars@,
                screens@.take(p as int),
            ),
    {
        let cfg = screens[p];
        let column = column(u, p, cfg.font_size);
        let ghost start = scene@;
        proof {
            lemma_count_of_first(screens@, p as int);
            lemma_count_of_first(screens@, p + 1);
            assert(screens@.take(p + 1).drop_last() =~= screens@.take(p as int));
        }
        for i in 0..cfg.char_count
            invariant
                cfg.char_count > 0 ==> chars.len() > 0 && glyphs_exist(atlas@, chars@),
                column.max_cols >= 1,
                scene@ == start.with_cells(u, w, atlas@, chars@, cfg, column, i as int),
        {
            let ch = chars[i % chars.len()];
            let code: u32 = ch as u32;
            let glyph_id: u32 = match atlas.ids.get(&code) {
                Some(id) => *id,
                None => 0,
            };
            let x = InstanceData {
                pos: cell(u, &column, i),
                scale: column.scale,
                glyph_id,
                color: cfg.color,
            };
            assert(glyph_id == glyph_of(atlas@, chars[(i % chars.len()) as int]));
            let pixels = covered(u, w, atlas, &x);
            scene.instances.push(x);
            scene.fragments = w.add(scene.fragments, pixels);
            scene.tests = w.add(scene.tests, w.mul(pixels, wide_lit(TESTS_PER_FRAGMENT)));
        }
    }
    assert(screens@.take(screens.len() as int) =~= screens@);
    scene
}

/// A well-formed atlas with at least one glyph has a glyph for every character
/// that it is asked for.
pub proof fn law_glyphs_exist(atlas: SlugAtlasView, chars: Seq<char>)
    requires
        atlas.well_formed(),
        atlas.boxes.len() > 0,
    ensures
        glyphs_exist(atlas, chars),
{
}

proof fn lemma_with_cells<F: Fn(Op32) -> Real32, G: Fn(Op64) -> Real64>(
    v: SlugSceneView,
    u: &Fpu32<F>,
    w: &Fpu64<G>,
    atlas: SlugAtlasView,
    chars: Seq<char>,
    cfg: SubScreenConfig,
    column: Column,
    n: int,
)
    requires
        0 <= n,
    ensures
        ({
            let r = v.with_cells(u, w, atlas, chars, cfg, column, n);
            &&& r.instances.len() == v.instances.len() + n
            &&& forall|k: int|
                0 <= k < v.instances.len() ==> #[trigger] r.instances[k] == v.instances[k]
            &&& forall|i: int|
                0 <= i < n ==> #[trigger] r.instances[v.instances.len() + i] == instance_of(
                    u,
                    atlas,
                    chars[i % chars.len() as int],
                    cfg,
                    column,
                    i,
                )
        }),
    decreases n,
{
    if n > 0 {
        lemma_with_cells(v, u, w, atlas, chars, cfg, column, n - 1);
    }
}

/// Every column holds as many instances as it asks for, one column behind the
/// other, and instance `i` of a column shows the `i`-th character, counted round
/// and round, in the `i`-th cell.
pub proof fn law_scene_instances<F: Fn(Op32) -> Real32, G: Fn(Op64) -> Real64>(
    u: &Fpu32<F>,
    w: &Fpu64<G>,
    atlas: SlugAtlasView,
    chars: Seq<char>,
    screens: Seq<SubScreenConfig>,
)
    ensures
        ({
            let v = SlugSceneView::empty().with_screens(u, w, atlas, chars, screens);
            &&& v.instances.len() == total_count(screens)
            &&& forall|p: int, i: int|
                #![trigger v.instances[total_count(screens.take(p)) + i]]
                0 <= p < screens.len() && 0 <= i < screens[p].char_count
                    ==> v.instances[total_count(screens.take(p)) + i] == instance_of(
                    u,
                    atlas,
                    chars[i % chars.len() as int],
                    screens[p],
                    column_of(u, p as usize, screens[p].font_size),
                    i,
                )
        }),
    decreases screens.len(),
{
    if screens.len() > 0 {
        let q = screens.len() - 1;
        let front = screens.drop_last();
        let cfg = screens.last();
        let column = column_of(u, q as usize, cfg.font_size);
        let w0 = SlugSceneView::empty().with_screens(u, w, atlas, chars, front);
        let v = SlugSceneView::empty().with_screens(u, w, atlas, chars, screens);
        law_scene_instances(u, w, atlas, chars, front);
        lemma_with_cells(w0, u, w, atlas, chars, cfg, column, cfg.char_count as int);
        assert forall|p: int, i: int|
            #![trigger v.instances[total_count(screens.take(p)) + i]]
            0 <= p < screens.len() && 0 <= i < screens[p].char_count implies v.instances[total_count(
            screens.take(p),
        ) + i] == instance_of(
            u,
            atlas,
            chars[i % chars.len() as int],
            screens[p],
            column_of(u, p as usize, screens[p].font_size),
            i,
        ) by {
            if p < q {
                assert(screens.take(p) =~= front.take(p));
                lemma_count_of_first(front, p);
                lemma_count_of_first(front, p + 1);
                assert(w0.instances[total_count(front.take(p)) + i] == instance_of(
                    u,
                    atlas,
                    chars[i % chars.len() as int],
                    front[p],
                    column_of(u, p as usize, front[p].font_size),
                    i,
                ));
            } else {
                assert(screens.take(p) =~= front);
            }
        }
    }
}

} // verus!
