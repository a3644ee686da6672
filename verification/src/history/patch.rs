use vstd::prelude::*;
use crate::history::diff::{PixelDiff, apply_diffs, apply_region, diff_image, diffs_layer, region_image, region_rows};
use crate::model::blend_mode::BlendMode;
use crate::model::color::Color;
use crate::model::error::CoreError;
use crate::model::ids::find_id;
use crate::model::layer::{Layer, LayerModel, LayerProps};
use crate::model::path::BezierPath;
use crate::model::selection::SelectionData;
use crate::model::store::{
    remove_layer_spec,
    AbsLayer,
    AbsStore,
    PixelStore,
    StoreModel,
    abs_layer_ids,
    clone_opt_string,
    layer_ids,
    opt_string_view,
};

verus! {

/// Recorded single-pixel changes of one layer.
pub struct PixelDiffPatch {
    pub diffs: Vec<PixelDiff>,
}

/// A rectangle of one layer, before and after, as RGBA rows.
pub struct RegionDiffPatch {
    pub x: u32,
    pub y: u32,
    pub width: u32,
    pub height: u32,
    pub old_data: Vec<u8>,
    pub new_data: Vec<u8>,
}

/// A layer inserted at `index`; `old_active_id` was active before.
pub struct LayerAddPatch {
    pub layer: Layer,
    pub index: usize,
    pub old_active_id: Option<String>,
}

/// A layer taken out from `index`; `old_active_id` was active before.
pub struct LayerRemovePatch {
    pub layer: Layer,
    pub index: usize,
    pub old_active_id: Option<String>,
}

/// A layer shown (`visible`) or hidden; undoing flips it back.
pub struct LayerVisibilityPatch {
    pub visible: bool,
}

pub struct LayerOpacityPatch {
    pub old_opacity: u8,
    pub new_opacity: u8,
}

pub struct LayerLockPatch {
    pub old_locked: bool,
    pub new_locked: bool,
}

/// A layer moved from one position of the stack to another.
pub struct LayerMovePatch {
    pub old_index: usize,
    pub new_index: usize,
}

pub struct SelectionChangePatch {
    pub old_sel: SelectionData,
    pub new_sel: SelectionData,
}

pub struct LayerOffsetPatch {
    pub old_offset: (i32, i32),
    pub new_offset: (i32, i32),
}

/// Several changes applied in order, and undone in reverse order.
pub struct CompositePatch {
    pub patches: Vec<ActionPatch>,
}

pub struct LayerRenamePatch {
    pub old_name: String,
    pub new_name: String,
}

pub struct LayerBlendModePatch {
    pub old_mode: BlendMode,
    pub new_mode: BlendMode,
}

/// The whole document before and after a change of canvas size.
pub struct CanvasResizePatch {
    pub old_width: u32,
    pub old_height: u32,
    pub new_width: u32,
    pub new_height: u32,
    pub old_layers: Vec<Layer>,
    pub new_layers: Vec<Layer>,
    pub old_selection: SelectionData,
    pub new_selection: SelectionData,
}

pub struct PathChangePatch {
    pub old_path: BezierPath,
    pub new_path: BezierPath,
}

/// The kinds of change the history records.
pub enum PatchAction {
    PixelDiff(PixelDiffPatch),
    RegionDiff(RegionDiffPatch),
    LayerAdd(LayerAddPatch),
    LayerRemove(LayerRemovePatch),
    LayerVisibility(LayerVisibilityPatch),
    LayerOpacity(LayerOpacityPatch),
    LayerLock(LayerLockPatch),
    LayerMove(LayerMovePatch),
    SelectionChange(SelectionChangePatch),
    LayerOffset(LayerOffsetPatch),
    Composite(CompositePatch),
    LayerRename(LayerRenamePatch),
    LayerBlendMode(LayerBlendModePatch),
    CanvasResize(CanvasResizePatch),
    PathChange(PathChangePatch),
}

/// One undoable change, aimed at the layer `layer_id` where it concerns a layer.
pub struct ActionPatch {
    pub id: String,
    pub layer_id: String,
    pub action: PatchAction,
}

// ---------------------------------------------------------------------------
// What applying a change does to the document.
// ---------------------------------------------------------------------------

pub open spec fn find_abs(s: AbsStore, id: Seq<char>) -> Option<int> {
    find_id(abs_layer_ids(s.layers), id)
}

/// The document with the attributes of the first layer carrying `id` rewritten by `f`.
pub open spec fn update_props(s: AbsStore, id: Seq<char>, f: spec_fn(LayerProps) -> LayerProps) -> AbsStore {
    match find_abs(s, id) {
        Some(i) => AbsStore {
            layers: s.layers.update(i, AbsLayer { props: f(s.layers[i].props), ..s.layers[i] }),
            ..s
        },
        None => s,
    }
}

/// The document with the image of the first layer carrying `id` rewritten by `f`;
/// the flag says whether such a layer exists.
pub open spec fn update_image(
    s: AbsStore,
    id: Seq<char>,
    f: spec_fn(AbsLayer) -> spec_fn(u32, u32) -> Color,
) -> (AbsStore, bool) {
    match find_abs(s, id) {
        Some(i) => (
            AbsStore {
                layers: s.layers.update(i, AbsLayer { image: f(s.layers[i]), ..s.layers[i] }),
                ..s
            },
            true,
        ),
        None => (s, false),
    }
}

pub open spec fn insert_abs(s: AbsStore, l: AbsLayer, index: usize) -> AbsStore {
    AbsStore {
        layers: s.layers.insert(
            if index <= s.layers.len() {
                index as int
            } else {
                s.layers.len() as int
            },
            l,
        ),
        ..s
    }
}

pub open spec fn remove_abs(s: AbsStore, id: Seq<char>) -> AbsStore {
    match find_abs(s, id) {
        Some(i) => AbsStore {
            layers: s.layers.remove(i),
            active_layer_id: if s.active_layer_id == Some(id) {
                None
            } else {
                s.active_layer_id
            },
            ..s
        },
        None => s,
    }
}

pub open spec fn restore_active(s: AbsStore, old_active: Option<String>) -> AbsStore {
    match old_active {
        Some(a) => AbsStore { active_layer_id: Some(a@), ..s },
        None => s,
    }
}

pub open spec fn move_layer_abs(s: AbsStore, from: usize, to: usize) -> AbsStore {
    if from < s.layers.len() && to < s.layers.len() {
        AbsStore { layers: s.layers.remove(from as int).insert(to as int, s.layers[from as int]), ..s }
    } else {
        s
    }
}

pub open spec fn abs_layers(ls: Seq<Layer>) -> Seq<AbsLayer> {
    ls.map_values(|l: Layer| l@.abs())
}

/// The document after applying `p` (forwards) or undoing it (backwards), and
/// whether that succeeded. A failed composite change stops at the failing part.
pub open spec fn apply_abs(p: ActionPatch, s: AbsStore, forward: bool) -> (AbsStore, bool)
    decreases p,
{
    let lid = p.layer_id@;
    match p.action {
        PatchAction::PixelDiff(d) => update_image(
            s,
            lid,
            |l: AbsLayer| diff_image(l, d.diffs@, forward),
        ),
        PatchAction::RegionDiff(r) => update_image(
            s,
            lid,
            |l: AbsLayer|
                region_image(
                    l,
                    r.x,
                    r.y,
                    r.width,
                    r.height,
                    if forward {
                        r.new_data@
                    } else {
                        r.old_data@
                    },
                ),
        ),
        PatchAction::LayerAdd(a) => if forward {
            (
                AbsStore {
                    active_layer_id: Some(a.layer.id@),
                    ..insert_abs(s, a.layer@.abs(), a.index)
                },
                true,
            )
        } else {
            (restore_active(remove_abs(s, a.layer.id@), a.old_active_id), true)
        },
        PatchAction::LayerRemove(a) => if forward {
            (remove_abs(s, a.layer.id@), true)
        } else {
            (restore_active(insert_abs(s, a.layer@.abs(), a.index), a.old_active_id), true)
        },
        PatchAction::LayerVisibility(v) => (
            update_props(
                s,
                lid,
                |pr: LayerProps|
                    LayerProps {
                        visible: if forward {
                            v.visible
                        } else {
                            !v.visible
                        },
                        ..pr
                    },
            ),
            true,
        ),
        PatchAction::LayerOpacity(o) => (
            update_props(
                s,
                lid,
                |pr: LayerProps|
                    LayerProps {
                        opacity: if forward {
                            o.new_opacity
                        } else {
                            o.old_opacity
                        },
                        ..pr
                    },
            ),
            true,
        ),
        PatchAction::LayerLock(o) => (
            update_props(
                s,
                lid,
                |pr: LayerProps|
                    LayerProps {
                        locked: if forward {
                            o.new_locked
                        } else {
                            o.old_locked
                        },
                        ..pr
                    },
            ),
            true,
        ),
        PatchAction::LayerMove(m) => (
            if forward {
                move_layer_abs(s, m.old_index, m.new_index)
            } else {
                move_layer_abs(s, m.new_index, m.old_index)
            },
            true,
        ),
        PatchAction::SelectionChange(c) => (
            AbsStore {
                selection: if forward {
                    c.new_sel@
                } else {
                    c.old_sel@
                },
                ..s
            },
            true,
        ),
        PatchAction::LayerOffset(o) => (
            update_props(
                s,
                lid,
                |pr: LayerProps|
                    {
                        let t = if forward {
                            o.new_offset
                        } else {
                            o.old_offset
                        };
                        LayerProps { offset_x: t.0, offset_y: t.1, ..pr }
                    },
            ),
            true,
        ),
        PatchAction::Composite(c) => if forward {
            apply_all_forward(c.patches@, s)
        } else {
            apply_all_backward(c.patches@, s)
        },
        PatchAction::LayerRename(n) => (
            update_props(
                s,
                lid,
                |pr: LayerProps|
                    LayerProps {
                        name: if forward {
                            n.new_name@
                        } else {
                            n.old_name@
                        },
                        ..pr
                    },
            ),
            true,
        ),
        PatchAction::LayerBlendMode(b) => (
            update_props(
                s,
                lid,
                |pr: LayerProps|
                    LayerProps {
                        blend_mode: if forward {
                            b.new_mode
                        } else {
                            b.old_mode
                        },
                        ..pr
                    },
            ),
            true,
        ),
        PatchAction::CanvasResize(c) => {
            let (w, h, ls, sel) = if forward {
                (c.new_width, c.new_height, c.new_layers@, c.new_selection@)
            } else {
                (c.old_width, c.old_height, c.old_layers@, c.old_selection@)
            };
            (
                AbsStore {
                    canvas_width: w,
                    canvas_height: h,
                    layers: abs_layers(ls),
                    selection: sel,
                    composite_cache: Seq::new((w * h * 4) as nat, |i: int| 0u8),
                    ..s
                },
                true,
            )
        },
        PatchAction::PathChange(c) => (
            AbsStore {
                active_path: if forward {
                    c.new_path@
                } else {
                    c.old_path@
                },
                ..s
            },
            true,
        ),
    }
}

/// Applies the changes first to last, stopping at the first failure.
pub open spec fn apply_all_forward(ps: Seq<ActionPatch>, s: AbsStore) -> (AbsStore, bool)
    decreases ps,
{
    if ps.len() == 0 {
        (s, true)
    } else {
        let r = apply_abs(ps[0], s, true);
        if !r.1 {
            r
        } else {
            apply_all_forward(ps.drop_first(), r.0)
        }
    }
}

/// Undoes the changes last to first, stopping at the first failure.
pub open spec fn apply_all_backward(ps: Seq<ActionPatch>, s: AbsStore) -> (AbsStore, bool)
    decreases ps,
{
    if ps.len() == 0 {
        (s, true)
    } else {
        let r = apply_abs(ps.last(), s, false);
        if !r.1 {
            r
        } else {
            apply_all_backward(ps.drop_last(), r.0)
        }
    }
}

// ---------------------------------------------------------------------------
// What applying a change does to the stored document, tiles included.
// ---------------------------------------------------------------------------

/// The document with the first layer carrying `id` replaced by `f` of it.
pub open spec fn update_layer_model(s: StoreModel, id: Seq<char>, f: spec_fn(LayerModel) -> LayerModel) -> StoreModel {
    match s.find_layer(id) {
        Some(i) => StoreModel { layers: s.layers.update(i, f(s.layers[i])), ..s },
        None => s,
    }
}

/// The document with the attributes of the first layer carrying `id`
/// rewritten by `f`, its tiles kept.
pub open spec fn update_props_model(s: StoreModel, id: Seq<char>, f: spec_fn(LayerProps) -> LayerProps) -> StoreModel {
    update_layer_model(s, id, |l: LayerModel| LayerModel { props: f(l.props), chunks: l.chunks })
}

pub open spec fn insert_model(s: StoreModel, l: LayerModel, index: usize) -> StoreModel {
    StoreModel {
        layers: s.layers.insert(
            if index <= s.layers.len() {
                index as int
            } else {
                s.layers.len() as int
            },
            l,
        ),
        ..s
    }
}

pub open spec fn restore_active_model(s: StoreModel, old_active: Option<String>) -> StoreModel {
    match old_active {
        Some(a) => StoreModel { active_layer_id: Some(a@), ..s },
        None => s,
    }
}

pub open spec fn move_layer_model(s: StoreModel, from: usize, to: usize) -> StoreModel {
    if from < s.layers.len() && to < s.layers.len() {
        StoreModel { layers: s.layers.remove(from as int).insert(to as int, s.layers[from as int]), ..s }
    } else {
        s
    }
}

pub open spec fn model_layers(ls: Seq<Layer>) -> Seq<LayerModel> {
    ls.map_values(|l: Layer| l@)
}

/// The stored document after applying `p` (forwards) or undoing it
/// (backwards): what `apply_abs` says of the document, together with the tiles
/// each layer then stores. A failed composite change stops at the failing part.
pub open spec fn apply_model(p: ActionPatch, s: StoreModel, forward: bool) -> StoreModel
    decreases p,
{
    let lid = p.layer_id@;
    match p.action {
        PatchAction::PixelDiff(d) => update_layer_model(s, lid, |l: LayerModel| diffs_layer(l, d.diffs@, forward)),
        PatchAction::RegionDiff(r) => update_layer_model(
            s,
            lid,
            |l: LayerModel|
                region_rows(
                    l,
                    r.x,
                    r.y,
                    r.width,
                    if forward {
                        r.new_data@
                    } else {
                        r.old_data@
                    },
                    r.height as int,
                ),
        ),
        PatchAction::LayerAdd(a) => if forward {
            StoreModel { active_layer_id: Some(a.layer.id@), ..insert_model(s, a.layer@, a.index) }
        } else {
            restore_active_model(remove_layer_spec(s, a.layer.id@), a.old_active_id)
        },
        PatchAction::LayerRemove(a) => if forward {
            remove_layer_spec(s, a.layer.id@)
        } else {
            restore_active_model(insert_model(s, a.layer@, a.index), a.old_active_id)
        },
        PatchAction::LayerVisibility(v) => update_props_model(
            s,
            lid,
            |pr: LayerProps| LayerProps { visible: if forward { v.visible } else { !v.visible }, ..pr },
        ),
        PatchAction::LayerOpacity(o) => update_props_model(
            s,
            lid,
            |pr: LayerProps| LayerProps { opacity: if forward { o.new_opacity } else { o.old_opacity }, ..pr },
        ),
        PatchAction::LayerLock(o) => update_props_model(
            s,
            lid,
            |pr: LayerProps| LayerProps { locked: if forward { o.new_locked } else { o.old_locked }, ..pr },
        ),
        PatchAction::LayerMove(m) => if forward {
            move_layer_model(s, m.old_index, m.new_index)
        } else {
            move_layer_model(s, m.new_index, m.old_index)
        },
        PatchAction::SelectionChange(c) => StoreModel {
            selection: if forward {
                c.new_sel@
            } else {
                c.old_sel@
            },
            ..s
        },
        PatchAction::LayerOffset(o) => update_props_model(
            s,
            lid,
            |pr: LayerProps|
                {
                    let t = if forward {
                        o.new_offset
                    } else {
                        o.old_offset
                    };
                    LayerProps { offset_x: t.0, offset_y: t.1, ..pr }
                },
        ),
        PatchAction::Composite(c) => if forward {
            apply_all_forward_model(c.patches@, s)
        } else {
            apply_all_backward_model(c.patches@, s)
        },
        PatchAction::LayerRename(n) => update_props_model(
            s,
            lid,
            |pr: LayerProps| LayerProps { name: if forward { n.new_name@ } else { n.old_name@ }, ..pr },
        ),
        PatchAction::LayerBlendMode(b) => update_props_model(
            s,
            lid,
            |pr: LayerProps| LayerProps { blend_mode: if forward { b.new_mode } else { b.old_mode }, ..pr },
        ),
        PatchAction::CanvasResize(c) => {
            let (w, h, ls, sel) = if forward {
                (c.new_width, c.new_height, c.new_layers@, c.new_selection@)
            } else {
                (c.old_width, c.old_height, c.old_layers@, c.old_selection@)
            };
            StoreModel {
                canvas_width: w,
                canvas_height: h,
                layers: model_layers(ls),
                selection: sel,
                composite_cache: Seq::new((w * h * 4) as nat, |i: int| 0u8),
                ..s
            }
        },
        PatchAction::PathChange(c) => StoreModel {
            active_path: if forward {
                c.new_path@
            } else {
                c.old_path@
            },
            ..s
        },
    }
}

/// Applies the changes first to last to the stored document, stopping after
/// the first that fails.
pub open spec fn apply_all_forward_model(ps: Seq<ActionPatch>, s: StoreModel) -> StoreModel
    decreases ps,
{
    if ps.len() == 0 {
        s
    } else {
        let s1 = apply_model(ps[0], s, true);
        if !apply_abs(ps[0], s.abs(), true).1 {
            s1
        } else {
            apply_all_forward_model(ps.drop_first(), s1)
        }
    }
}

/// Undoes the changes last to first on the stored document, stopping after
/// the first that fails.
pub open spec fn apply_all_backward_model(ps: Seq<ActionPatch>, s: StoreModel) -> StoreModel
    decreases ps,
{
    if ps.len() == 0 {
        s
    } else {
        let s1 = apply_model(ps.last(), s, false);
        if !apply_abs(ps.last(), s.abs(), false).1 {
            s1
        } else {
            apply_all_backward_model(ps.drop_last(), s1)
        }
    }
}

/// The id of the layer whose absence makes applying `p` fail: the change's own
/// layer, or for a composite change that of the first part to fail.
pub open spec fn fail_id(p: ActionPatch, s: AbsStore, forward: bool) -> Seq<char>
    decreases p,
{
    match p.action {
        PatchAction::Composite(c) => if forward {
            fail_id_forward(c.patches@, s)
        } else {
            fail_id_backward(c.patches@, s)
        },
        _ => p.layer_id@,
    }
}

pub open spec fn fail_id_forward(ps: Seq<ActionPatch>, s: AbsStore) -> Seq<char>
    decreases ps,
{
    if ps.len() == 0 {
        Seq::empty()
    } else {
        let r = apply_abs(ps[0], s, true);
        if !r.1 {
            fail_id(ps[0], s, true)
        } else {
            fail_id_forward(ps.drop_first(), r.0)
        }
    }
}

pub open spec fn fail_id_backward(ps: Seq<ActionPatch>, s: AbsStore) -> Seq<char>
    decreases ps,
{
    if ps.len() == 0 {
        Seq::empty()
    } else {
        let r = apply_abs(ps.last(), s, false);
        if !r.1 {
            fail_id(ps.last(), s, false)
        } else {
            fail_id_backward(ps.drop_last(), r.0)
        }
    }
}

/// `r` is the error that no layer carries `id`.
pub open spec fn is_not_found(r: Result<(), CoreError>, id: Seq<char>) -> bool {
    match r {
        Err(CoreError::LayerNotFound(n)) => n@ == id,
        _ => false,
    }
}

} // verus!

verus! {

/// Every change can be carried out in the given direction without a panic:
/// region data is long enough, canvas sizes fit, stored layers and selections are well formed.
pub open spec fn patch_wf(p: ActionPatch, forward: bool) -> bool
    decreases p,
{
    match p.action {
        PatchAction::RegionDiff(r) => {
            let len = if forward {
                r.new_data@.len()
            } else {
                r.old_data@.len()
            };
            &&& r.width as int * r.height as int * 4 <= len
            &&& r.height > 0 ==> r.x as int + r.width as int <= u32::MAX as int + 1
            &&& r.width > 0 ==> r.y as int + r.height as int <= u32::MAX as int + 1
        },
        PatchAction::LayerAdd(a) => a.layer@.wf(),
        PatchAction::LayerRemove(a) => a.layer@.wf(),
        PatchAction::SelectionChange(c) => if forward {
            c.new_sel@.wf()
        } else {
            c.old_sel@.wf()
        },
        PatchAction::CanvasResize(c) => if forward {
            resize_wf(c.new_width, c.new_height, c.new_layers@, c.new_selection@)
        } else {
            resize_wf(c.old_width, c.old_height, c.old_layers@, c.old_selection@)
        },
        PatchAction::Composite(c) => all_wf(c.patches@, forward),
        _ => true,
    }
}

pub open spec fn resize_wf(w: u32, h: u32, ls: Seq<Layer>, sel: crate::model::selection::SelectionModel) -> bool {
    &&& w as int * h as int * 4 <= u32::MAX as int
    &&& forall|i: int| 0 <= i < ls.len() ==> (#[trigger] ls[i])@.wf()
    &&& sel.wf()
}

pub open spec fn all_wf(ps: Seq<ActionPatch>, forward: bool) -> bool
    decreases ps,
{
    if ps.len() == 0 {
        true
    } else {
        patch_wf(ps[0], forward) && all_wf(ps.drop_first(), forward)
    }
}

proof fn lemma_all_wf_index(ps: Seq<ActionPatch>, forward: bool, k: int)
    requires
        all_wf(ps, forward),
        0 <= k < ps.len(),
    ensures
        patch_wf(ps[k], forward),
        all_wf(ps.skip(k), forward),
    decreases k,
{
    if k == 0 {
        assert(ps.skip(0) =~= ps);
    } else {
        lemma_all_wf_index(ps.drop_first(), forward, k - 1);
        assert(ps.drop_first().skip(k - 1) =~= ps.skip(k));
    }
}

proof fn lemma_all_wf_prefix(ps: Seq<ActionPatch>, forward: bool, k: int)
    requires
        all_wf(ps, forward),
        0 <= k <= ps.len(),
    ensures
        all_wf(ps.take(k), forward),
    decreases k,
{
    if k > 0 {
        lemma_all_wf_prefix(ps.drop_first(), forward, k - 1);
        assert(ps.take(k).drop_first() =~= ps.drop_first().take(k - 1));
    }
}

proof fn lemma_all_wf_last(ps: Seq<ActionPatch>, forward: bool)
    requires
        all_wf(ps, forward),
        ps.len() > 0,
    ensures
        patch_wf(ps.last(), forward),
        all_wf(ps.drop_last(), forward),
{
    lemma_all_wf_index(ps, forward, ps.len() - 1);
    lemma_all_wf_prefix(ps, forward, ps.len() - 1);
    assert(ps.take(ps.len() - 1) =~= ps.drop_last());
}

/// The abstract document's layer ids are the model's layer ids.
proof fn lemma_abs_ids(s: StoreModel, id: Seq<char>)
    ensures
        abs_layer_ids(s.abs().layers) == layer_ids(s.layers),
        find_abs(s.abs(), id) == s.find_layer(id),
{
    assert(abs_layer_ids(s.abs().layers) =~= layer_ids(s.layers));
}

/// Rewriting the attributes of one layer rewrites them in the abstract document.
proof fn lemma_set_props(s0: StoreModel, s1: StoreModel, i: int, props: LayerProps)
    requires
        s0.wf(),
        0 <= i < s0.layers.len(),
        s1 == (StoreModel {
            layers: s0.layers.update(i, LayerModel { props, chunks: s0.layers[i].chunks }),
            ..s0
        }),
    ensures
        s1.wf(),
        s1.abs() == (AbsStore {
            layers: s0.abs().layers.update(i, AbsLayer { props, ..s0.abs().layers[i] }),
            ..s0.abs()
        }),
{
    assert(s1.layers[i].abs().image =~= s0.layers[i].abs().image);
    assert(s1.abs().layers =~= s0.abs().layers.update(i, AbsLayer { props, ..s0.abs().layers[i] }));
    assert forall|k: int| 0 <= k < s1.layers.len() implies (#[trigger] s1.layers[k]).wf() by {
        assert(s0.layers[k].wf());
    }
}

/// Replacing one layer by another of the same attributes replaces its image.
proof fn lemma_set_layer(s0: StoreModel, s1: StoreModel, i: int, l: LayerModel)
    requires
        s0.wf(),
        0 <= i < s0.layers.len(),
        l.wf(),
        s1 == (StoreModel { layers: s0.layers.update(i, l), ..s0 }),
    ensures
        s1.wf(),
        s1.abs() == (AbsStore { layers: s0.abs().layers.update(i, l.abs()), ..s0.abs() }),
{
    assert(s1.abs().layers =~= s0.abs().layers.update(i, l.abs()));
    assert forall|k: int| 0 <= k < s1.layers.len() implies (#[trigger] s1.layers[k]).wf() by {
        if k != i {
            assert(s0.layers[k].wf());
        }
    }
}

/// Inserting a layer inserts its abstraction.
proof fn lemma_abs_insert(s0: StoreModel, s1: StoreModel, index: usize, l: LayerModel)
    requires
        s0.wf(),
        l.wf(),
        s1 == (StoreModel {
            layers: s0.layers.insert(
                if index <= s0.layers.len() {
                    index as int
                } else {
                    s0.layers.len() as int
                },
                l,
            ),
            ..s0
        }),
    ensures
        s1.wf(),
        s1.abs() == insert_abs(s0.abs(), l.abs(), index),
{
    let idx = if index <= s0.layers.len() {
        index as int
    } else {
        s0.layers.len() as int
    };
    assert(s1.abs().layers =~= s0.abs().layers.insert(idx, l.abs()));
    assert forall|k: int| 0 <= k < s1.layers.len() implies (#[trigger] s1.layers[k]).wf() by {
        if k < idx {
            assert(s1.layers[k] == s0.layers[k]);
        } else if k > idx {
            assert(s1.layers[k] == s0.layers[k - 1]);
        }
    }
}

/// Removing a layer by id removes its abstraction.
proof fn lemma_abs_remove(s0: StoreModel, id: Seq<char>)
    requires
        s0.wf(),
    ensures
        remove_layer_spec(s0, id).wf(),
        remove_layer_spec(s0, id).abs() == remove_abs(s0.abs(), id),
{
    lemma_abs_ids(s0, id);
    match s0.find_layer(id) {
        Some(i) => {
            let s1 = remove_layer_spec(s0, id);
            assert(s1.abs().layers =~= s0.abs().layers.remove(i));
            assert forall|k: int| 0 <= k < s1.layers.len() implies (#[trigger] s1.layers[k]).wf() by {
                if k < i {
                    assert(s1.layers[k] == s0.layers[k]);
                } else {
                    assert(s1.layers[k] == s0.layers[k + 1]);
                }
            }
        },
        None => {},
    }
}

/// A copy of every layer.
pub fn clone_layers(ls: &Vec<Layer>) -> (r: Vec<Layer>)
    ensures
        r.len() == ls.len(),
        forall|i: int| 0 <= i < ls.len() ==> (#[trigger] r@[i])@ == ls@[i]@,
{
    let mut r: Vec<Layer> = Vec::new();
    let n = ls.len();
    for i in 0..n
        invariant
            n == ls.len(),
            r.len() == i,
            forall|k: int| 0 <= k < i ==> (#[trigger] r@[k])@ == ls@[k]@,
    {
        r.push(ls[i].clone());
    }
    r
}

impl ActionPatch {
    /// Carries the change out on `store` (forwards) or takes it back (backwards).
    /// Fails only where a pixel change names a layer that does not exist; a
    /// failing part of a composite change ends it there.
    pub fn apply(&self, store: &mut PixelStore, forward: bool) -> (r: Result<(), CoreError>)
        requires
            old(store)@.wf(),
            patch_wf(*self, forward),
        ensures
            final(store)@.wf(),
            final(store)@.abs() == apply_abs(*self, old(store)@.abs(), forward).0,
            r is Ok == apply_abs(*self, old(store)@.abs(), forward).1,
            final(store)@ == apply_model(*self, old(store)@, forward),
            r is Err ==> is_not_found(r, fail_id(*self, old(store)@.abs(), forward)),
        decreases self, 1nat,
    {
        match &self.action {
            PatchAction::PixelDiff(_) => self.apply_pixel_diff(store, forward),
            PatchAction::RegionDiff(_) => self.apply_region_diff(store, forward),
            PatchAction::LayerAdd(_) => self.apply_layer_add(store, forward),
            PatchAction::LayerRemove(_) => self.apply_layer_remove(store, forward),
            PatchAction::LayerVisibility(_) => self.apply_layer_visibility(store, forward),
            PatchAction::LayerOpacity(_) => self.apply_layer_opacity(store, forward),
            PatchAction::LayerLock(_) => self.apply_layer_lock(store, forward),
            PatchAction::LayerRename(_) => self.apply_layer_rename(store, forward),
            PatchAction::LayerBlendMode(_) => self.apply_layer_blend_mode(store, forward),
            PatchAction::LayerOffset(_) => self.apply_layer_offset(store, forward),
            PatchAction::LayerMove(_) => self.apply_layer_move(store, forward),
            PatchAction::SelectionChange(_) => self.apply_selection_change(store, forward),
            PatchAction::PathChange(_) => self.apply_path_change(store, forward),
            PatchAction::CanvasResize(_) => self.apply_canvas_resize(store, forward),
            PatchAction::Composite(_) => self.apply_composite(store, forward),
        }
    }

    fn apply_pixel_diff(&self, store: &mut PixelStore, forward: bool) -> (r: Result<(), CoreError>)
        requires
            old(store)@.wf(),
            patch_wf(*self, forward),
            self.action is PixelDiff,
        ensures
            final(store)@.wf(),
            final(store)@.abs() == apply_abs(*self, old(store)@.abs(), forward).0,
            r is Ok == apply_abs(*self, old(store)@.abs(), forward).1,
            final(store)@ == apply_model(*self, old(store)@, forward),
            r is Err ==> is_not_found(r, fail_id(*self, old(store)@.abs(), forward)),
    {
        let ghost s0 = store@;
        proof {
            lemma_abs_ids(s0, self.layer_id@);
        }
        match &self.action {
            PatchAction::PixelDiff(d) => {
        match store.find_layer(self.layer_id.as_str()) {
            None => {
                assert(!apply_abs(*self, s0.abs(), forward).1);
                Err(CoreError::LayerNotFound(self.layer_id.clone()))
            },
            Some(i) => {
                let ghost l0 = store@.layers[i as int];
                assert(store.layers[i as int]@ == l0);
                apply_diffs(&mut store.layers[i], &d.diffs, forward);
                let ghost l1 = store.layers[i as int]@;
                assert(store@.layers =~= s0.layers.update(i as int, l1));
                proof {
                    lemma_set_layer(s0, store@, i as int, l1);
                    assert(l1.abs() == AbsLayer {
                        image: diff_image(s0.abs().layers[i as int], d.diffs@, forward),
                        ..s0.abs().layers[i as int]
                    });
                    assert(store@.abs() == apply_abs(*self, s0.abs(), forward).0);
                }
                Ok(())
            },
        }
            },
            _ => unreached(),
        }
    }

    fn apply_region_diff(&self, store: &mut PixelStore, forward: bool) -> (r: Result<(), CoreError>)
        requires
            old(store)@.wf(),
            patch_wf(*self, forward),
            self.action is RegionDiff,
        ensures
            final(store)@.wf(),
            final(store)@.abs() == apply_abs(*self, old(store)@.abs(), forward).0,
            r is Ok == apply_abs(*self, old(store)@.abs(), forward).1,
            final(store)@ == apply_model(*self, old(store)@, forward),
            r is Err ==> is_not_found(r, fail_id(*self, old(store)@.abs(), forward)),
    {
        let ghost s0 = store@;
        proof {
            lemma_abs_ids(s0, self.layer_id@);
        }
        match &self.action {
            PatchAction::RegionDiff(rd) => {
        match store.find_layer(self.layer_id.as_str()) {
            None => {
                assert(!apply_abs(*self, s0.abs(), forward).1);
                Err(CoreError::LayerNotFound(self.layer_id.clone()))
            },
            Some(i) => {
                let data = if forward {
                    &rd.new_data
                } else {
                    &rd.old_data
                };
                let ghost l0 = store@.layers[i as int];
                assert(store.layers[i as int]@ == l0);
                apply_region(&mut store.layers[i], rd.x, rd.y, rd.width, rd.height, data);
                let ghost l1 = store.layers[i as int]@;
                assert(store@.layers =~= s0.layers.update(i as int, l1));
                proof {
                    lemma_set_layer(s0, store@, i as int, l1);
                    assert(l1.abs() == AbsLayer {
                        image: region_image(
                            s0.abs().layers[i as int],
                            rd.x,
                            rd.y,
                            rd.width,
                            rd.height,
                            data@,
                        ),
                        ..s0.abs().layers[i as int]
                    });
                    assert(store@.abs() == apply_abs(*self, s0.abs(), forward).0);
                }
                Ok(())
            },
        }
            },
            _ => unreached(),
        }
    }

    fn apply_layer_add(&self, store: &mut PixelStore, forward: bool) -> (r: Result<(), CoreError>)
        requires
            old(store)@.wf(),
            patch_wf(*self, forward),
            self.action is LayerAdd,
        ensures
            final(store)@.wf(),
            final(store)@.abs() == apply_abs(*self, old(store)@.abs(), forward).0,
            r is Ok == apply_abs(*self, old(store)@.abs(), forward).1,
            final(store)@ == apply_model(*self, old(store)@, forward),
    {
        let ghost s0 = store@;
        proof {
            lemma_abs_ids(s0, self.layer_id@);
        }
        match &self.action {
            PatchAction::LayerAdd(a) => {
        if forward {
            let layer = a.layer.clone();
            store.add_layer_at(layer, a.index);
            let ghost s1 = store@;
            store.active_layer_id = Some(a.layer.id.clone());
            proof {
                lemma_abs_insert(s0, s1, a.index, a.layer@);
            }
        } else {
            store.remove_layer_by_id(a.layer.id.as_str());
            proof {
                lemma_abs_remove(s0, a.layer.id@);
            }
            match &a.old_active_id {
                Some(o) => {
                    store.active_layer_id = Some(o.clone());
                },
                None => {},
            }
        }
        Ok(())
            },
            _ => unreached(),
        }
    }

    fn apply_layer_remove(&self, store: &mut PixelStore, forward: bool) -> (r: Result<(), CoreError>)
        requires
            old(store)@.wf(),
            patch_wf(*self, forward),
            self.action is LayerRemove,
        ensures
            final(store)@.wf(),
            final(store)@.abs() == apply_abs(*self, old(store)@.abs(), forward).0,
            r is Ok == apply_abs(*self, old(store)@.abs(), forward).1,
            final(store)@ == apply_model(*self, old(store)@, forward),
    {
        let ghost s0 = store@;
        proof {
            lemma_abs_ids(s0, self.layer_id@);
        }
        match &self.action {
            PatchAction::LayerRemove(a) => {
        if forward {
            store.remove_layer_by_id(a.layer.id.as_str());
            proof {
                lemma_abs_remove(s0, a.layer.id@);
            }
        } else {
            let layer = a.layer.clone();
            store.add_layer_at(layer, a.index);
            let ghost s1 = store@;
            proof {
                lemma_abs_insert(s0, s1, a.index, a.layer@);
            }
            match &a.old_active_id {
                Some(o) => {
                    store.active_layer_id = Some(o.clone());
                },
                None => {},
            }
        }
        Ok(())
            },
            _ => unreached(),
        }
    }

    fn apply_layer_visibility(&self, store: &mut PixelStore, forward: bool) -> (r: Result<(), CoreError>)
        requires
            old(store)@.wf(),
            patch_wf(*self, forward),
            self.action is LayerVisibility,
        ensures
            final(store)@.wf(),
            final(store)@.abs() == apply_abs(*self, old(store)@.abs(), forward).0,
            r is Ok == apply_abs(*self, old(store)@.abs(), forward).1,
            final(store)@ == apply_model(*self, old(store)@, forward),
    {
        let ghost s0 = store@;
        proof {
            lemma_abs_ids(s0, self.layer_id@);
        }
        match &self.action {
            PatchAction::LayerVisibility(v) => {
        let target = if forward {
            v.visible
        } else {
            !v.visible
        };
        store.set_layer_visibility(self.layer_id.as_str(), target);
        proof {
            match s0.find_layer(self.layer_id@) {
                Some(i) => {
                    lemma_set_props(
                        s0,
                        store@,
                        i,
                        LayerProps { visible: target, ..s0.layers[i].props },
                    );
                },
                None => {},
            }
        }
        Ok(())
            },
            _ => unreached(),
        }
    }

    fn apply_layer_opacity(&self, store: &mut PixelStore, forward: bool) -> (r: Result<(), CoreError>)
        requires
            old(store)@.wf(),
            patch_wf(*self, forward),
            self.action is LayerOpacity,
        ensures
            final(store)@.wf(),
            final(store)@.abs() == apply_abs(*self, old(store)@.abs(), forward).0,
            r is Ok == apply_abs(*self, old(store)@.abs(), forward).1,
            final(store)@ == apply_model(*self, old(store)@, forward),
    {
        let ghost s0 = store@;
        proof {
            lemma_abs_ids(s0, self.layer_id@);
        }
        match &self.action {
            PatchAction::LayerOpacity(o) => {
        if let Some(i) = store.find_layer(self.layer_id.as_str()) {
            let v = if forward {
                o.new_opacity
            } else {
                o.old_opacity
            };
            store.layers[i].opacity = v;
            proof {
                let props = LayerProps { opacity: v, ..s0.layers[i as int].props };
                assert(store@.layers =~= s0.layers.update(
                    i as int,
                    LayerModel { props, chunks: s0.layers[i as int].chunks },
                ));
                lemma_set_props(s0, store@, i as int, props);
            }
        }
        Ok(())
            },
            _ => unreached(),
        }
    }

    fn apply_layer_lock(&self, store: &mut PixelStore, forward: bool) -> (r: Result<(), CoreError>)
        requires
            old(store)@.wf(),
            patch_wf(*self, forward),
            self.action is LayerLock,
        ensures
            final(store)@.wf(),
            final(store)@.abs() == apply_abs(*self, old(store)@.abs(), forward).0,
            r is Ok == apply_abs(*self, old(store)@.abs(), forward).1,
            final(store)@ == apply_model(*self, old(store)@, forward),
    {
        let ghost s0 = store@;
        proof {
            lemma_abs_ids(s0, self.layer_id@);
        }
        match &self.action {
            PatchAction::LayerLock(o) => {
        if let Some(i) = store.find_layer(self.layer_id.as_str()) {
            let v = if forward {
                o.new_locked
            } else {
                o.old_locked
            };
            store.layers[i].locked = v;
            proof {
                let props = LayerProps { locked: v, ..s0.layers[i as int].props };
                assert(store@.layers =~= s0.layers.update(
                    i as int,
                    LayerModel { props, chunks: s0.layers[i as int].chunks },
                ));
                lemma_set_props(s0, store@, i as int, props);
            }
        }
        Ok(())
            },
            _ => unreached(),
        }
    }

    fn apply_layer_rename(&self, store: &mut PixelStore, forward: bool) -> (r: Result<(), CoreError>)
        requires
            old(store)@.wf(),
            patch_wf(*self, forward),
            self.action is LayerRename,
        ensures
            final(store)@.wf(),
            final(store)@.abs() == apply_abs(*self, old(store)@.abs(), forward).0,
            r is Ok == apply_abs(*self, old(store)@.abs(), forward).1,
            final(store)@ == apply_model(*self, old(store)@, forward),
    {
        let ghost s0 = store@;
        proof {
            lemma_abs_ids(s0, self.layer_id@);
        }
        match &self.action {
            PatchAction::LayerRename(n) => {
        if let Some(i) = store.find_layer(self.layer_id.as_str()) {
            let v = if forward {
                n.new_name.clone()
            } else {
                n.old_name.clone()
            };
            let ghost vv = v@;
            store.layers[i].name = v;
            proof {
                let props = LayerProps { name: vv, ..s0.layers[i as int].props };
                assert(store@.layers =~= s0.layers.update(
                    i as int,
                    LayerModel { props, chunks: s0.layers[i as int].chunks },
                ));
                lemma_set_props(s0, store@, i as int, props);
            }
        }
        Ok(())
            },
            _ => unreached(),
        }
    }

    fn apply_layer_blend_mode(&self, store: &mut PixelStore, forward: bool) -> (r: Result<(), CoreError>)
        requires
            old(store)@.wf(),
            patch_wf(*self, forward),
            self.action is LayerBlendMode,
        ensures
            final(store)@.wf(),
            final(store)@.abs() == apply_abs(*self, old(store)@.abs(), forward).0,
            r is Ok == apply_abs(*self, old(store)@.abs(), forward).1,
            final(store)@ == apply_model(*self, old(store)@, forward),
    {
        let ghost s0 = store@;
        proof {
            lemma_abs_ids(s0, self.layer_id@);
        }
        match &self.action {
            PatchAction::LayerBlendMode(b) => {
        if let Some(i) = store.find_layer(self.layer_id.as_str()) {
            let v = if forward {
                b.new_mode
            } else {
                b.old_mode
            };
            store.layers[i].blend_mode = v;
            proof {
                let props = LayerProps { blend_mode: v, ..s0.layers[i as int].props };
                assert(store@.layers =~= s0.layers.update(
                    i as int,
                    LayerModel { props, chunks: s0.layers[i as int].chunks },
                ));
                lemma_set_props(s0, store@, i as int, props);
            }
        }
        Ok(())
            },
            _ => unreached(),
        }
    }

    fn apply_layer_offset(&self, store: &mut PixelStore, forward: bool) -> (r: Result<(), CoreError>)
        requires
            old(store)@.wf(),
            patch_wf(*self, forward),
            self.action is LayerOffset,
        ensures
            final(store)@.wf(),
            final(store)@.abs() == apply_abs(*self, old(store)@.abs(), forward).0,
            r is Ok == apply_abs(*self, old(store)@.abs(), forward).1,
            final(store)@ == apply_model(*self, old(store)@, forward),
    {
        let ghost s0 = store@;
        proof {
            lemma_abs_ids(s0, self.layer_id@);
        }
        match &self.action {
            PatchAction::LayerOffset(o) => {
        if let Some(i) = store.find_layer(self.layer_id.as_str()) {
            let t = if forward {
                o.new_offset
            } else {
                o.old_offset
            };
            store.layers[i].offset_x = t.0;
            store.layers[i].offset_y = t.1;
            proof {
                let props = LayerProps {
                    offset_x: t.0,
                    offset_y: t.1,
                    ..s0.layers[i as int].props
                };
                assert(store@.layers =~= s0.layers.update(
                    i as int,
                    LayerModel { props, chunks: s0.layers[i as int].chunks },
                ));
                lemma_set_props(s0, store@, i as int, props);
            }
        }
        Ok(())
            },
            _ => unreached(),
        }
    }

    fn apply_layer_move(&self, store: &mut PixelStore, forward: bool) -> (r: Result<(), CoreError>)
        requires
            old(store)@.wf(),
            patch_wf(*self, forward),
            self.action is LayerMove,
        ensures
            final(store)@.wf(),
            final(store)@.abs() == apply_abs(*self, old(store)@.abs(), forward).0,
            r is Ok == apply_abs(*self, old(store)@.abs(), forward).1,
            final(store)@ == apply_model(*self, old(store)@, forward),
    {
        let ghost s0 = store@;
        proof {
            lemma_abs_ids(s0, self.layer_id@);
        }
        match &self.action {
            PatchAction::LayerMove(m) => {
        let (from, to) = if forward {
            (m.old_index, m.new_index)
        } else {
            (m.new_index, m.old_index)
        };
        if from < store.layers.len() && to < store.layers.len() {
            let layer = store.layers.remove(from);
            store.layers.insert(to, layer);
            proof {
                let ls = s0.layers.remove(from as int).insert(to as int, s0.layers[from as int]);
                assert(store@.layers =~= ls);
                assert(store@.abs().layers =~= s0.abs().layers.remove(from as int).insert(
                    to as int,
                    s0.abs().layers[from as int],
                ));
                assert forall|k: int| 0 <= k < store@.layers.len() implies (
                #[trigger] store@.layers[k]).wf() by {
                    if k < to {
                        if k < from {
                            assert(store@.layers[k] == s0.layers[k]);
                        } else {
                            assert(store@.layers[k] == s0.layers[k + 1]);
                        }
                    } else if k > to {
                        if k <= from {
                            assert(store@.layers[k] == s0.layers[k - 1]);
                        } else {
                            assert(store@.layers[k] == s0.layers[k]);
                        }
                    }
                }
            }
        }
        Ok(())
            },
            _ => unreached(),
        }
    }

    fn apply_selection_change(&self, store: &mut PixelStore, forward: bool) -> (r: Result<(), CoreError>)
        requires
            old(store)@.wf(),
            patch_wf(*self, forward),
            self.action is SelectionChange,
        ensures
            final(store)@.wf(),
            final(store)@.abs() == apply_abs(*self, old(store)@.abs(), forward).0,
            r is Ok == apply_abs(*self, old(store)@.abs(), forward).1,
            final(store)@ == apply_model(*self, old(store)@, forward),
    {
        let ghost s0 = store@;
        proof {
            lemma_abs_ids(s0, self.layer_id@);
        }
        match &self.action {
            PatchAction::SelectionChange(c) => {
        store.selection = if forward {
            c.new_sel.clone()
        } else {
            c.old_sel.clone()
        };
        Ok(())
            },
            _ => unreached(),
        }
    }

    fn apply_path_change(&self, store: &mut PixelStore, forward: bool) -> (r: Result<(), CoreError>)
        requires
            old(store)@.wf(),
            patch_wf(*self, forward),
            self.action is PathChange,
        ensures
            final(store)@.wf(),
            final(store)@.abs() == apply_abs(*self, old(store)@.abs(), forward).0,
            r is Ok == apply_abs(*self, old(store)@.abs(), forward).1,
            final(store)@ == apply_model(*self, old(store)@, forward),
    {
        let ghost s0 = store@;
        proof {
            lemma_abs_ids(s0, self.layer_id@);
        }
        match &self.action {
            PatchAction::PathChange(c) => {
        store.active_path = if forward {
            c.new_path.clone()
        } else {
            c.old_path.clone()
        };
        Ok(())
            },
            _ => unreached(),
        }
    }

    fn apply_canvas_resize(&self, store: &mut PixelStore, forward: bool) -> (r: Result<(), CoreError>)
        requires
            old(store)@.wf(),
            patch_wf(*self, forward),
            self.action is CanvasResize,
        ensures
            final(store)@.wf(),
            final(store)@.abs() == apply_abs(*self, old(store)@.abs(), forward).0,
            r is Ok == apply_abs(*self, old(store)@.abs(), forward).1,
            final(store)@ == apply_model(*self, old(store)@, forward),
    {
        let ghost s0 = store@;
        proof {
            lemma_abs_ids(s0, self.layer_id@);
        }
        match &self.action {
            PatchAction::CanvasResize(c) => {
        let (w, h, ls, sel) = if forward {
            (c.new_width, c.new_height, &c.new_layers, &c.new_selection)
        } else {
            (c.old_width, c.old_height, &c.old_layers, &c.old_selection)
        };
        store.canvas_width = w;
        store.canvas_height = h;
        store.layers = clone_layers(ls);
        store.selection = sel.clone();
        store.composite_cache = vec![0u8; (w * h * 4) as usize];
        proof {
            assert(store@.abs().layers =~= abs_layers(ls@));
            assert forall|k: int| 0 <= k < store@.layers.len() implies (#[trigger] store@.layers[k]).wf() by {
                if forward {
                    assert(c.new_layers@[k]@.wf());
                } else {
                    assert(c.old_layers@[k]@.wf());
                }
            }
            assert(store@.composite_cache =~= Seq::new((w * h * 4) as nat, |i: int| 0u8));
        }
        Ok(())
            },
            _ => unreached(),
        }
    }

    fn apply_composite(&self, store: &mut PixelStore, forward: bool) -> (r: Result<(), CoreError>)
        requires
            old(store)@.wf(),
            patch_wf(*self, forward),
            self.action is Composite,
        ensures
            final(store)@.wf(),
            final(store)@.abs() == apply_abs(*self, old(store)@.abs(), forward).0,
            r is Ok == apply_abs(*self, old(store)@.abs(), forward).1,
            final(store)@ == apply_model(*self, old(store)@, forward),
            r is Err ==> is_not_found(r, fail_id(*self, old(store)@.abs(), forward)),
        decreases self, 0nat,
    {
        let ghost s0 = store@;
        match &self.action {
            PatchAction::Composite(cp) => {
                let n = cp.patches.len();
                let ghost ps = cp.patches@;
                assert(all_wf(ps, forward));
                if forward {
                    assert(apply_abs(*self, s0.abs(), forward) == apply_all_forward(ps, s0.abs()));
                    assert(fail_id(*self, s0.abs(), forward) == fail_id_forward(ps, s0.abs()));
                    assert(apply_model(*self, s0, forward) == apply_all_forward_model(ps, s0));
                    assert(ps.skip(0) =~= ps);
                    for k in 0..n
                        invariant
                            n == ps.len(),
                            ps == cp.patches@,
                            self.action == PatchAction::Composite(*cp),
                            forward,
                            apply_abs(*self, s0.abs(), forward) == apply_all_forward(ps, s0.abs()),
                            s0 == old(store)@,
                            store@.wf(),
                            all_wf(ps.skip(k as int), true),
                            apply_all_forward(ps.skip(k as int), store@.abs())
                                == apply_all_forward(ps, s0.abs()),
                            fail_id(*self, s0.abs(), forward) == fail_id_forward(ps, s0.abs()),
                            fail_id_forward(ps.skip(k as int), store@.abs())
                                == fail_id_forward(ps, s0.abs()),
                            apply_model(*self, s0, forward) == apply_all_forward_model(ps, s0),
                            apply_all_forward_model(ps.skip(k as int), store@)
                                == apply_all_forward_model(ps, s0),
                    {
                        let ghost sk = store@;
                        proof {
                            assert(ps.skip(k as int)[0] == ps[k as int]);
                            assert(ps.skip(k as int).drop_first() =~= ps.skip(k + 1));
                            vstd::std_specs::vec::axiom_vec_index_decreases(cp.patches, k as int);
                            assert(decreases_to!(*self => self.action));
                            assert(decreases_to!(self.action => self.action->Composite_0));
                            assert(decreases_to!(*cp => cp.patches));
                        }
                        let res = cp.patches[k].apply(store, true);
                        if res.is_err() {
                            assert(store@.abs() == apply_abs(ps[k as int], sk.abs(), true).0);
                            assert(!apply_abs(ps[k as int], sk.abs(), true).1);
                            assert(apply_all_forward(ps.skip(k as int), sk.abs()) == apply_abs(
                                ps[k as int],
                                sk.abs(),
                                true,
                            ));
                            assert(store@.abs() == apply_abs(*self, s0.abs(), forward).0);
                            assert(fail_id_forward(ps.skip(k as int), sk.abs()) == fail_id(
                                ps[k as int],
                                sk.abs(),
                                true,
                            ));
                            assert(apply_all_forward_model(ps.skip(k as int), sk) == apply_model(
                                ps[k as int],
                                sk,
                                true,
                            ));
                            return res;
                        }
                    }
                    assert(ps.skip(n as int) =~= Seq::<ActionPatch>::empty());
                    Ok(())
                } else {
                    assert(apply_abs(*self, s0.abs(), forward) == apply_all_backward(ps, s0.abs()));
                    assert(fail_id(*self, s0.abs(), forward) == fail_id_backward(ps, s0.abs()));
                    assert(apply_model(*self, s0, forward) == apply_all_backward_model(ps, s0));
                    assert(ps.take(n as int) =~= ps);
                    let mut k = n;
                    while k > 0
                        invariant
                            k <= n,
                            n == ps.len(),
                            ps == cp.patches@,
                            self.action == PatchAction::Composite(*cp),
                            !forward,
                            apply_abs(*self, s0.abs(), forward) == apply_all_backward(ps, s0.abs()),
                            s0 == old(store)@,
                            store@.wf(),
                            all_wf(ps.take(k as int), false),
                            apply_all_backward(ps.take(k as int), store@.abs())
                                == apply_all_backward(ps, s0.abs()),
                            fail_id(*self, s0.abs(), forward) == fail_id_backward(ps, s0.abs()),
                            fail_id_backward(ps.take(k as int), store@.abs())
                                == fail_id_backward(ps, s0.abs()),
                            apply_model(*self, s0, forward) == apply_all_backward_model(ps, s0),
                            apply_all_backward_model(ps.take(k as int), store@)
                                == apply_all_backward_model(ps, s0),
                        decreases k,
                    {
                        let ghost sk = store@;
                        proof {
                            assert(ps.take(k as int).last() == ps[k - 1]);
                            assert(ps.take(k as int).drop_last() =~= ps.take(k - 1));
                            lemma_all_wf_last(ps.take(k as int), false);
                            vstd::std_specs::vec::axiom_vec_index_decreases(cp.patches, k - 1);
                            assert(decreases_to!(*self => self.action));
                            assert(decreases_to!(self.action => self.action->Composite_0));
                            assert(decreases_to!(*cp => cp.patches));
                        }
                        k = k - 1;
                        let res = cp.patches[k].apply(store, false);
                        if res.is_err() {
                            assert(apply_all_backward(ps.take(k + 1), sk.abs()) == apply_abs(
                                ps[k as int],
                                sk.abs(),
                                false,
                            ));
                            assert(fail_id_backward(ps.take(k + 1), sk.abs()) == fail_id(
                                ps[k as int],
                                sk.abs(),
                                false,
                            ));
                            assert(apply_all_backward_model(ps.take(k + 1), sk) == apply_model(
                                ps[k as int],
                                sk,
                                false,
                            ));
                            return res;
                        }
                    }
                    assert(ps.take(0) =~= Seq::<ActionPatch>::empty());
                    Ok(())
                }
            },
            _ => unreached(),
        }
    }
}

/// The change does nothing: no pixels, an empty rectangle, or no parts.
pub open spec fn patch_is_empty(p: ActionPatch) -> bool {
    match p.action {
        PatchAction::PixelDiff(d) => d.diffs@.len() == 0,
        PatchAction::RegionDiff(r) => r.width == 0 || r.height == 0,
        PatchAction::Composite(c) => c.patches@.len() == 0,
        _ => false,
    }
}

impl ActionPatch {
    pub fn is_empty(&self) -> (r: bool)
        ensures
            r == patch_is_empty(*self),
    {
        match &self.action {
            PatchAction::PixelDiff(d) => d.diffs.len() == 0,
            PatchAction::RegionDiff(r) => r.width == 0 || r.height == 0,
            PatchAction::Composite(c) => c.patches.len() == 0,
            _ => false,
        }
    }

    /// The recorded pixel changes, where this is a pixel change.
    pub fn pixel_diffs(&self) -> (r: Option<&Vec<PixelDiff>>)
        ensures
            match self.action {
                PatchAction::PixelDiff(d) => r == Some(&d.diffs),
                _ => r is None,
            },
    {
        match &self.action {
            PatchAction::PixelDiff(d) => Some(&d.diffs),
            _ => None,
        }
    }

    /// Records one more pixel change; does nothing unless this is a pixel change.
    pub fn add_pixel_diff(&mut self, x: u32, y: u32, old_color: Color, new_color: Color)
        ensures
            final(self).id == old(self).id,
            final(self).layer_id == old(self).layer_id,
            match old(self).action {
                PatchAction::PixelDiff(d) => final(self).action matches PatchAction::PixelDiff(d2)
                    && d2.diffs@ == d.diffs@.push(PixelDiff { x, y, old_color, new_color }),
                _ => final(self).action == old(self).action,
            },
    {
        match &mut self.action {
            PatchAction::PixelDiff(d) => {
                d.diffs.push(PixelDiff { x, y, old_color, new_color });
            },
            _ => {},
        }
    }

    pub fn new_composite(id: String, patches: Vec<ActionPatch>) -> (p: ActionPatch)
        ensures
            p.id == id,
            p.layer_id@ == global_id(),
            p.action == PatchAction::Composite(CompositePatch { patches }),
    {
        ActionPatch {
            id,
            layer_id: global_layer_id(),
            action: PatchAction::Composite(CompositePatch { patches }),
        }
    }

    pub fn new_pixel_diff(id: String, layer_id: String) -> (p: ActionPatch)
        ensures
            p.id == id,
            p.layer_id == layer_id,
            p.action matches PatchAction::PixelDiff(d) && d.diffs@.len() == 0,
    {
        ActionPatch { id, layer_id, action: PatchAction::PixelDiff(PixelDiffPatch { diffs: Vec::new() }) }
    }

    pub fn new_region_diff(
        id: String,
        layer_id: String,
        x: u32,
        y: u32,
        width: u32,
        height: u32,
        old_data: Vec<u8>,
        new_data: Vec<u8>,
    ) -> (p: ActionPatch)
        ensures
            p.id == id,
            p.layer_id == layer_id,
            p.action == PatchAction::RegionDiff(
                RegionDiffPatch { x, y, width, height, old_data, new_data },
            ),
    {
        ActionPatch {
            id,
            layer_id,
            action: PatchAction::RegionDiff(RegionDiffPatch { x, y, width, height, old_data, new_data }),
        }
    }

    pub fn new_layer_add(
        id: String,
        layer_id: String,
        layer: Layer,
        index: usize,
        old_active_id: Option<String>,
    ) -> (p: ActionPatch)
        ensures
            p.id == id,
            p.layer_id == layer_id,
            p.action == PatchAction::LayerAdd(LayerAddPatch { layer, index, old_active_id }),
    {
        ActionPatch { id, layer_id, action: PatchAction::LayerAdd(LayerAddPatch { layer, index, old_active_id }) }
    }

    pub fn new_layer_remove(
        id: String,
        layer_id: String,
        layer: Layer,
        index: usize,
        old_active_id: Option<String>,
    ) -> (p: ActionPatch)
        ensures
            p.id == id,
            p.layer_id == layer_id,
            p.action == PatchAction::LayerRemove(LayerRemovePatch { layer, index, old_active_id }),
    {
        ActionPatch {
            id,
            layer_id,
            action: PatchAction::LayerRemove(LayerRemovePatch { layer, index, old_active_id }),
        }
    }

    pub fn new_layer_visibility(id: String, layer_id: String, visible: bool) -> (p: ActionPatch)
        ensures
            p.id == id,
            p.layer_id == layer_id,
            p.action == PatchAction::LayerVisibility(LayerVisibilityPatch { visible }),
    {
        ActionPatch { id, layer_id, action: PatchAction::LayerVisibility(LayerVisibilityPatch { visible }) }
    }

    pub fn new_layer_opacity(id: String, layer_id: String, old_opacity: u8, new_opacity: u8) -> (p:
        ActionPatch)
        ensures
            p.id == id,
            p.layer_id == layer_id,
            p.action == PatchAction::LayerOpacity(LayerOpacityPatch { old_opacity, new_opacity }),
    {
        ActionPatch {
            id,
            layer_id,
            action: PatchAction::LayerOpacity(LayerOpacityPatch { old_opacity, new_opacity }),
        }
    }

    pub fn new_layer_lock(id: String, layer_id: String, old_locked: bool, new_locked: bool) -> (p:
        ActionPatch)
        ensures
            p.id == id,
            p.layer_id == layer_id,
            p.action == PatchAction::LayerLock(LayerLockPatch { old_locked, new_locked }),
    {
        ActionPatch { id, layer_id, action: PatchAction::LayerLock(LayerLockPatch { old_locked, new_locked }) }
    }

    pub fn new_layer_move(id: String, layer_id: String, old_index: usize, new_index: usize) -> (p:
        ActionPatch)
        ensures
            p.id == id,
            p.layer_id == layer_id,
            p.action == PatchAction::LayerMove(LayerMovePatch { old_index, new_index }),
    {
        ActionPatch { id, layer_id, action: PatchAction::LayerMove(LayerMovePatch { old_index, new_index }) }
    }

    pub fn new_selection_change(id: String, old_sel: SelectionData, new_sel: SelectionData) -> (p:
        ActionPatch)
        ensures
            p.id == id,
            p.layer_id@ == global_id(),
            p.action == PatchAction::SelectionChange(SelectionChangePatch { old_sel, new_sel }),
    {
        ActionPatch {
            id,
            layer_id: global_layer_id(),
            action: PatchAction::SelectionChange(SelectionChangePatch { old_sel, new_sel }),
        }
    }

    pub fn new_layer_offset(
        id: String,
        layer_id: String,
        old_offset: (i32, i32),
        new_offset: (i32, i32),
    ) -> (p: ActionPatch)
        ensures
            p.id == id,
            p.layer_id == layer_id,
            p.action == PatchAction::LayerOffset(LayerOffsetPatch { old_offset, new_offset }),
    {
        ActionPatch {
            id,
            layer_id,
            action: PatchAction::LayerOffset(LayerOffsetPatch { old_offset, new_offset }),
        }
    }

    pub fn new_layer_rename(id: String, layer_id: String, old_name: String, new_name: String) -> (p:
        ActionPatch)
        ensures
            p.id == id,
            p.layer_id == layer_id,
            p.action == PatchAction::LayerRename(LayerRenamePatch { old_name, new_name }),
    {
        ActionPatch { id, layer_id, action: PatchAction::LayerRename(LayerRenamePatch { old_name, new_name }) }
    }

    pub fn new_layer_blend_mode(
        id: String,
        layer_id: String,
        old_mode: BlendMode,
        new_mode: BlendMode,
    ) -> (p: ActionPatch)
        ensures
            p.id == id,
            p.layer_id == layer_id,
            p.action == PatchAction::LayerBlendMode(LayerBlendModePatch { old_mode, new_mode }),
    {
        ActionPatch {
            id,
            layer_id,
            action: PatchAction::LayerBlendMode(LayerBlendModePatch { old_mode, new_mode }),
        }
    }

    pub fn new_path_change(id: String, old_path: BezierPath, new_path: BezierPath) -> (p:
        ActionPatch)
        ensures
            p.id == id,
            p.layer_id@ == global_id(),
            p.action == PatchAction::PathChange(PathChangePatch { old_path, new_path }),
    {
        ActionPatch {
            id,
            layer_id: global_layer_id(),
            action: PatchAction::PathChange(PathChangePatch { old_path, new_path }),
        }
    }

    pub fn new_canvas_resize(
        id: String,
        old_width: u32,
        old_height: u32,
        new_width: u32,
        new_height: u32,
        old_layers: Vec<Layer>,
        new_layers: Vec<Layer>,
        old_selection: SelectionData,
        new_selection: SelectionData,
    ) -> (p: ActionPatch)
        ensures
            p.id == id,
            p.layer_id@ == global_id(),
            p.action == PatchAction::CanvasResize(
                CanvasResizePatch {
                    old_width,
                    old_height,
                    new_width,
                    new_height,
                    old_layers,
                    new_layers,
                    old_selection,
                    new_selection,
                },
            ),
    {
        ActionPatch {
            id,
            layer_id: global_layer_id(),
            action: PatchAction::CanvasResize(
                CanvasResizePatch {
                    old_width,
                    old_height,
                    new_width,
                    new_height,
                    old_layers,
                    new_layers,
                    old_selection,
                    new_selection,
                },
            ),
        }
    }
}

/// The target named by changes that concern the whole document.
pub open spec fn global_id() -> Seq<char> {
    seq!['g', 'l', 'o', 'b', 'a', 'l']
}

fn global_layer_id() -> (s: String)
    ensures
        s@ == global_id(),
{
    let s = "global".to_owned();
    proof {
        reveal_strlit("global");
        assert(s@ =~= global_id());
    }
    s
}

} // verus!
