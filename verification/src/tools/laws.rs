use vstd::prelude::*;
use crate::history::diff::{PixelDiff, diff_hits, diff_image, first_hit};
use crate::model::color::Color;
use crate::model::error::CoreError;
use crate::model::layer::{LayerModel, LayerProps};
use crate::model::store::{StoreModel, layer_ids};
use crate::tools::move_tool::{MoveTool, cancel_outcome, move_outcome, press_outcome};
use crate::tools::pencil::{
    PencilTool,
    hit_target,
    hits,
    layer_color_at,
    paint_outcome,
    painted,
    rec_has,
    recs_wf,
    stroke_diffs,
};

verus! {

/// Rewriting one layer without changing its id keeps every layer findable
/// where it was.
proof fn lemma_same_ids(s0: StoreModel, i: int, x: LayerModel, id: Seq<char>)
    requires
        0 <= i < s0.layers.len(),
        x.props.id == s0.layers[i].props.id,
    ensures
        (StoreModel { layers: s0.layers.update(i, x), ..s0 }).find_layer(id) == s0.find_layer(id),
{
    assert(layer_ids(s0.layers.update(i, x)) =~= layer_ids(s0.layers));
}

/// Pressing the move tool on an unlocked active layer, dragging, and abandoning
/// the drag leaves the document exactly as it was before the press, whether
/// the drag moved the layer, moved selected pixels or stopped with an error.
pub proof fn law_move_cancel_restores(
    t0: MoveTool,
    s0: StoreModel,
    x: u32,
    y: u32,
    t1: MoveTool,
    r1: Result<(), CoreError>,
    x2: u32,
    y2: u32,
    t2: MoveTool,
    s2: StoreModel,
    r2: Result<(), CoreError>,
    t3: MoveTool,
    s3: StoreModel,
)
    requires
        s0.wf(),
        s0.active_layer_id matches Some(id) && (s0.find_layer(id) matches Some(i) && !s0.layers[i].props.locked),
        press_outcome(t0, s0, x, y, t1, r1),
        move_outcome(t1, s0, x2, y2, t2, s2, r2),
        cancel_outcome(t2, s2, t3, s3),
    ensures
        s3 == s0,
{
    let id = s0.active_layer_id->0;
    let i = s0.find_layer(id)->0;
    let l = s0.layers[i];
    crate::model::ids::lemma_find_id_present(layer_ids(s0.layers), id, i);
    assert(layer_ids(s0.layers)[i] == id);
    assert(t2.layer_backup == t1.layer_backup);
    assert(t2.sel_backup == t1.sel_backup);
    let b = t1.layer_backup->0;
    assert(b@ == l);
    if s2 != s0 {
        let x2l = s2.layers[i];
        assert(s2.layers =~= s0.layers.update(i, x2l));
        assert(x2l.props.id == l.props.id);
        lemma_same_ids(s0, i, x2l, id);
        assert(s2.find_layer(id) == s0.find_layer(id)) by {
            assert(s2.layers =~= (StoreModel { layers: s0.layers.update(i, x2l), ..s0 }).layers);
            assert(layer_ids(s2.layers) =~= layer_ids(s0.layers));
        }
        let restored = LayerModel {
            props: LayerProps { offset_x: b.offset_x, offset_y: b.offset_y, ..x2l.props },
            chunks: b@.chunks,
        };
        assert(restored == l);
        assert(s3.layers =~= s0.layers);
    } else {
        let restored = LayerModel {
            props: LayerProps { offset_x: b.offset_x, offset_y: b.offset_y, ..l.props },
            chunks: b@.chunks,
        };
        assert(restored == l);
        assert(s3.layers =~= s0.layers);
    }
    assert(s3.selection == s0.selection);
}

// ------------------------------------------------------------ strokes and their undo
/// The records of a stroke account for every change since it began: each
/// holds a pixel of the layer with the colour it had at the start, and every
/// pixel whose colour differs from the start is recorded.
pub open spec fn stroke_accounts(v: Seq<(u32, u32, Color)>, start: LayerModel, now: LayerModel) -> bool {
    &&& forall|k: int|
        0 <= k < v.len() ==> start.in_bounds((#[trigger] v[k]).0 as int, v[k].1 as int) && v[k].2 == start.pixel(
            v[k].0,
            v[k].1,
        )
    &&& forall|x: u32, y: u32| #[trigger] now.pixel(x, y) != start.pixel(x, y) ==> rec_has(v, x, y)
}

proof fn lemma_hits_in_bounds(t: (i32, i32), rel: Seq<(int, int)>, m: int, l: LayerModel, x: int, y: int)
    requires
        hits(t, rel, m, l, x, y),
    ensures
        l.in_bounds(x, y),
    decreases m,
{
    if m > 0 && hits(t, rel, m - 1, l, x, y) {
        lemma_hits_in_bounds(t, rel, m - 1, l, x, y);
    }
}

proof fn lemma_painted_in_bounds(cs: Seq<(i32, i32)>, n: int, rel: Seq<(int, int)>, l: LayerModel, x: int, y: int)
    requires
        painted(cs, n, rel, l, x, y),
    ensures
        l.in_bounds(x, y),
    decreases n,
{
    if n > 0 {
        if painted(cs, n - 1, rel, l, x, y) {
            lemma_painted_in_bounds(cs, n - 1, rel, l, x, y);
        } else {
            lemma_hits_in_bounds(cs[n - 1], rel, rel.len() as int, l, x, y);
        }
    }
}

/// Painting the brush during a stroke keeps the records accounting for every
/// change since the stroke began.
pub proof fn law_paint_keeps_account(
    t0: PencilTool,
    s0: StoreModel,
    cs: Seq<(i32, i32)>,
    t1: PencilTool,
    s1: StoreModel,
    r: Result<(), CoreError>,
    start: LayerModel,
    i: int,
)
    requires
        paint_outcome(t0, s0, cs, t1, s1, r),
        t0.active_layer_id matches Some(id) && s0.find_layer(id@) == Some(i),
        start.props == s0.layers[i].props,
        stroke_accounts(t0.original_pixels@, start, s0.layers[i]),
    ensures
        0 <= i < s1.layers.len(),
        s1.layers[i].props == start.props,
        stroke_accounts(t1.original_pixels@, start, s1.layers[i]),
{
    reveal(paint_outcome);
    let l = s0.layers[i];
    let v0 = t0.original_pixels@;
    let v = t1.original_pixels@;
    crate::model::ids::lemma_find_id_present(layer_ids(s0.layers), t0.active_layer_id->0@, i);
    assert(0 <= i < s0.layers.len());
    assert forall|x: u32, y: u32| rec_has(v0, x, y) implies #[trigger] rec_has(v, x, y) by {
        let k = choose|k: int| 0 <= k < v0.len() && #[trigger] v0[k].0 == x && v0[k].1 == y;
        assert(v[k] == v0[k]);
    }
    assert forall|k: int| 0 <= k < v.len() implies start.in_bounds((#[trigger] v[k]).0 as int, v[k].1 as int) && v[k].2
        == start.pixel(v[k].0, v[k].1) by {
        if k >= v0.len() {
            let rel = crate::tools::brush::brush_offsets_spec(s0.brush_size as int, s0.brush_shape, s0.brush_jitter, t0.rng_state);
            let done = crate::tools::pencil::centres_done(cs, rel, l, crate::tools::pencil::stroke_color(t0.is_eraser, s0.primary_color));
            lemma_painted_in_bounds(cs, done, rel, l, v[k].0 as int, v[k].1 as int);
            if rec_has(v0, v[k].0, v[k].1) {
                let j = choose|j: int| 0 <= j < v0.len() && #[trigger] v0[j].0 == v[k].0 && v0[j].1 == v[k].1;
                assert(v[j] == v0[j]);
                assert(j != k);
            }
            assert(l.pixel(v[k].0, v[k].1) == start.pixel(v[k].0, v[k].1));
        } else {
            assert(v[k] == v0[k]);
        }
    }
}

/// Changes recorded after `ds` come later in the scan for the first change of a pixel.
proof fn lemma_first_hit_push(ds: Seq<PixelDiff>, d: PixelDiff, i: int, x: u32, y: u32, w: u32, h: u32)
    requires
        0 <= i <= ds.len(),
    ensures
        first_hit(ds.push(d), i, x, y, w, h) == (match first_hit(ds, i, x, y, w, h) {
            Some(c) => Some(c),
            None => if diff_hits(d, x, y, w, h) {
                Some(d.old_color)
            } else {
                None
            },
        }),
    decreases ds.len() - i,
{
    if i < ds.len() {
        assert(ds.push(d)[i] == ds[i]);
        lemma_first_hit_push(ds, d, i + 1, x, y, w, h);
    } else {
        assert(ds.push(d)[i] == d);
        assert(first_hit(ds.push(d), i + 1, x, y, w, h) == None::<Color>);
    }
}

/// The first change of pixel `(x, y)` among a stroke's changes is its record's,
/// where the pixel is recorded, on the layer and changed.
proof fn lemma_stroke_first_hit(v: Seq<(u32, u32, Color)>, l: LayerModel, x: u32, y: u32)
    requires
        recs_wf(v),
    ensures
        first_hit(stroke_diffs(v, l), 0, x, y, l.props.width, l.props.height) == (if exists|k: int|
            0 <= k < v.len() && #[trigger] v[k].0 == x && v[k].1 == y && l.in_bounds(x as int, y as int) && v[k].2
                != l.pixel(x, y) {
            Some(v[choose|k: int| 0 <= k < v.len() && #[trigger] v[k].0 == x && v[k].1 == y].2)
        } else {
            None
        }),
    decreases v.len(),
{
    if v.len() > 0 {
        let v1 = v.drop_last();
        assert forall|a: int, b: int| 0 <= a < v1.len() && 0 <= b < v1.len() && a != b implies !(#[trigger] v1[a].0 == #[trigger] v1[b].0
            && v1[a].1 == v1[b].1) by {
            assert(v1[a] == v[a] && v1[b] == v[b]);
        }
        lemma_stroke_first_hit(v1, l, x, y);
        let e = v.last();
        let now = layer_color_at(l, e.0, e.1);
        let rest = stroke_diffs(v1, l);
        if e.2 != now {
            lemma_first_hit_push(rest, PixelDiff { x: e.0, y: e.1, old_color: e.2, new_color: now }, 0, x, y, l.props.width, l.props.height);
        }
        let cond = exists|k: int|
            0 <= k < v.len() && #[trigger] v[k].0 == x && v[k].1 == y && l.in_bounds(x as int, y as int) && v[k].2 != l.pixel(x, y);
        let cond1 = exists|k: int|
            0 <= k < v1.len() && #[trigger] v1[k].0 == x && v1[k].1 == y && l.in_bounds(x as int, y as int) && v1[k].2 != l.pixel(x, y);
        if cond1 {
            let k = choose|k: int|
                0 <= k < v1.len() && #[trigger] v1[k].0 == x && v1[k].1 == y && l.in_bounds(x as int, y as int) && v1[k].2 != l.pixel(x, y);
            assert(v[k] == v1[k]);
            let k1 = choose|k: int| 0 <= k < v1.len() && #[trigger] v1[k].0 == x && v1[k].1 == y;
            let k2 = choose|k: int| 0 <= k < v.len() && #[trigger] v[k].0 == x && v[k].1 == y;
            assert(v[k1] == v1[k1]);
            assert(k2 == k1);
        } else if cond {
            let k = choose|k: int|
                0 <= k < v.len() && #[trigger] v[k].0 == x && v[k].1 == y && l.in_bounds(x as int, y as int) && v[k].2 != l.pixel(x, y);
            if k < v1.len() {
                assert(v1[k] == v[k]);
            }
            assert(k == v.len() - 1);
            let k2 = choose|k: int| 0 <= k < v.len() && #[trigger] v[k].0 == x && v[k].1 == y;
            assert(k2 == k);
        } else {
            if e.0 == x && e.1 == y && l.in_bounds(x as int, y as int) && e.2 != now {
                assert(v[v.len() - 1] == e);
            }
        }
    }
}

/// Taking back the patch a stroke yields restores the layer as it was when the
/// stroke began.
pub proof fn law_stroke_undo_restores(v: Seq<(u32, u32, Color)>, start: LayerModel, now: LayerModel)
    requires
        recs_wf(v),
        now.props == start.props,
        stroke_accounts(v, start, now),
    ensures
        forall|x: u32, y: u32| #[trigger] diff_image(now.abs(), stroke_diffs(v, now), false)(x, y) == start.pixel(x, y),
{
    assert forall|x: u32, y: u32| #[trigger] diff_image(now.abs(), stroke_diffs(v, now), false)(x, y) == start.pixel(x, y) by {
        lemma_stroke_first_hit(v, now, x, y);
        if exists|k: int| 0 <= k < v.len() && #[trigger] v[k].0 == x && v[k].1 == y {
            let k = choose|k: int| 0 <= k < v.len() && #[trigger] v[k].0 == x && v[k].1 == y;
            assert(start.in_bounds(v[k].0 as int, v[k].1 as int));
        } else {
            if now.pixel(x, y) != start.pixel(x, y) {
                assert(rec_has(v, x, y));
            }
        }
    }
}

} // verus!
