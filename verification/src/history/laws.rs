use vstd::prelude::*;
use crate::history::diff::{PixelDiff, diff_hits, diff_image, first_hit, last_hit, region_image};
use crate::history::patch::{
    ActionPatch,
    PatchAction,
    abs_layers,
    apply_abs,
    apply_all_backward,
    apply_all_forward,
    apply_model,
    find_abs,
};
use crate::model::color::color_at;
use crate::model::ids::{find_id, is_first_id, lemma_find_id_first, lemma_find_id_present};
use crate::model::store::{AbsLayer, AbsStore, StoreModel, abs_layer_ids, opt_string_view};

verus! {

/// The change records the document exactly as it is before it is applied, so
/// that taking it back afterwards leaves the document as it was: pixel changes
/// name an existing layer and record every touched pixel's current colour as
/// the old colour of its first change; attribute changes record the current
/// value; an added layer's id is not yet used; a removed layer is the first
/// with its id and sits at the recorded position; a resize records the current
/// canvas, layers, selection and a cleared composite buffer; the parts of a
/// composite change are each reversible on the document their predecessors leave.
pub open spec fn reversible(p: ActionPatch, s: AbsStore) -> bool
    decreases p,
{
    let lid = p.layer_id@;
    match p.action {
        PatchAction::PixelDiff(d) => match find_abs(s, lid) {
            Some(i) => {
                let l = s.layers[i];
                forall|x: u32, y: u32|
                    #![trigger first_hit(d.diffs@, 0, x, y, l.props.width, l.props.height)]
                    first_hit(d.diffs@, 0, x, y, l.props.width, l.props.height) matches Some(c)
                        ==> c == (l.image)(x, y)
            },
            None => false,
        },
        PatchAction::RegionDiff(r) => match find_abs(s, lid) {
            Some(i) => {
                let l = s.layers[i];
                forall|x: u32, y: u32|
                    r.x <= x < r.x + r.width && r.y <= y < r.y + r.height && x < l.props.width && y
                        < l.props.height ==> #[trigger] color_at(
                        r.old_data@,
                        ((y - r.y) * r.width + (x - r.x)) * 4,
                    ) == (l.image)(x, y)
            },
            None => false,
        },
        PatchAction::LayerAdd(a) => find_abs(s, a.layer.id@) is None && opt_string_view(
            a.old_active_id,
        ) == s.active_layer_id,
        PatchAction::LayerRemove(a) => {
            &&& find_abs(s, a.layer.id@) == Some(a.index as int)
            &&& s.layers[a.index as int] == a.layer@.abs()
            &&& match a.old_active_id {
                Some(o) => s.active_layer_id == Some(o@),
                None => s.active_layer_id != Some(a.layer.id@),
            }
        },
        PatchAction::LayerVisibility(v) => find_abs(s, lid) matches Some(i) ==> s.layers[i].props.visible
            == !v.visible,
        PatchAction::LayerOpacity(o) => find_abs(s, lid) matches Some(i) ==> s.layers[i].props.opacity
            == o.old_opacity,
        PatchAction::LayerLock(o) => find_abs(s, lid) matches Some(i) ==> s.layers[i].props.locked
            == o.old_locked,
        PatchAction::LayerRename(n) => find_abs(s, lid) matches Some(i) ==> s.layers[i].props.name
            == n.old_name@,
        PatchAction::LayerBlendMode(b) => find_abs(s, lid) matches Some(i)
            ==> s.layers[i].props.blend_mode == b.old_mode,
        PatchAction::LayerOffset(o) => find_abs(s, lid) matches Some(i) ==> s.layers[i].props.offset_x
            == o.old_offset.0 && s.layers[i].props.offset_y == o.old_offset.1,
        PatchAction::LayerMove(_) => true,
        PatchAction::SelectionChange(c) => s.selection == c.old_sel@,
        PatchAction::PathChange(c) => s.active_path == c.old_path@,
        PatchAction::CanvasResize(c) => {
            &&& s.canvas_width == c.old_width
            &&& s.canvas_height == c.old_height
            &&& s.layers == abs_layers(c.old_layers@)
            &&& s.selection == c.old_selection@
            &&& s.composite_cache == Seq::new((c.old_width * c.old_height * 4) as nat, |i: int| 0u8)
        },
        PatchAction::Composite(c) => reversible_all(c.patches@, s),
    }
}

/// Each change is reversible on the document that the changes before it leave.
pub open spec fn reversible_all(ps: Seq<ActionPatch>, s: AbsStore) -> bool
    decreases ps,
{
    if ps.len() == 0 {
        true
    } else {
        reversible(ps[0], s) && reversible_all(ps.drop_first(), apply_abs(ps[0], s, true).0)
    }
}

proof fn lemma_first_hit_none(ds: Seq<PixelDiff>, i: int, x: u32, y: u32, w: u32, h: u32)
    requires
        0 <= i <= ds.len(),
        first_hit(ds, i, x, y, w, h) is None,
    ensures
        forall|k: int| i <= k < ds.len() ==> !diff_hits(#[trigger] ds[k], x, y, w, h),
    decreases ds.len() - i,
{
    if i < ds.len() {
        lemma_first_hit_none(ds, i + 1, x, y, w, h);
    }
}

proof fn lemma_last_hit_none(ds: Seq<PixelDiff>, n: int, x: u32, y: u32, w: u32, h: u32)
    requires
        0 <= n <= ds.len(),
        forall|k: int| 0 <= k < n ==> !diff_hits(#[trigger] ds[k], x, y, w, h),
    ensures
        last_hit(ds, n, x, y, w, h) is None,
    decreases n,
{
    if n > 0 {
        lemma_last_hit_none(ds, n - 1, x, y, w, h);
    }
}

/// Ids are unchanged when a layer is replaced by one with the same attributes.
proof fn lemma_ids_update(ls: Seq<AbsLayer>, i: int, l: AbsLayer)
    requires
        0 <= i < ls.len(),
        l.props == ls[i].props,
    ensures
        abs_layer_ids(ls.update(i, l)) == abs_layer_ids(ls),
{
    assert(abs_layer_ids(ls.update(i, l)) =~= abs_layer_ids(ls));
}

/// An id that is not in use is found where it is inserted.
proof fn lemma_find_inserted(ls: Seq<AbsLayer>, idx: int, l: AbsLayer)
    requires
        0 <= idx <= ls.len(),
        find_id(abs_layer_ids(ls), l.props.id) is None,
    ensures
        find_id(abs_layer_ids(ls.insert(idx, l)), l.props.id) == Some(idx),
{
    let ids = abs_layer_ids(ls);
    let ids2 = abs_layer_ids(ls.insert(idx, l));
    assert forall|j: int| 0 <= j < idx implies ids2[j] != l.props.id by {
        if ids[j] == l.props.id {
            lemma_find_id_present(ids, l.props.id, j);
        }
    }
    lemma_find_id_first(ids2, l.props.id, idx);
}

proof fn lemma_undo_pixel_diff(p: ActionPatch, s: AbsStore)
    requires
        reversible(p, s),
        p.action is PixelDiff,
    ensures
        apply_abs(p, s, true).1,
        apply_abs(p, apply_abs(p, s, true).0, false) == (s, true),
{
    let lid = p.layer_id@;
    let s1 = apply_abs(p, s, true).0;
    match p.action {
        PatchAction::PixelDiff(d) => {
        let i = find_abs(s, lid).unwrap();
        let l = s.layers[i];
        let l1 = AbsLayer { image: diff_image(l, d.diffs@, true), ..l };
        lemma_ids_update(s.layers, i, l1);
        let l2 = AbsLayer { image: diff_image(l1, d.diffs@, false), ..l1 };
        assert forall|x: u32, y: u32| #[trigger] (l2.image)(x, y) == (l.image)(x, y) by {
            let ds = d.diffs@;
            let w = l.props.width;
            let h = l.props.height;
            if first_hit(ds, 0, x, y, w, h) is None {
                lemma_first_hit_none(ds, 0, x, y, w, h);
                lemma_last_hit_none(ds, ds.len() as int, x, y, w, h);
            }
        }
        assert(l2.image =~= l.image);
        assert(s1.layers.update(i, l2) =~= s.layers);
    },
        _ => {},
    }
}

proof fn lemma_undo_region_diff(p: ActionPatch, s: AbsStore)
    requires
        reversible(p, s),
        p.action is RegionDiff,
    ensures
        apply_abs(p, s, true).1,
        apply_abs(p, apply_abs(p, s, true).0, false) == (s, true),
{
    let lid = p.layer_id@;
    let s1 = apply_abs(p, s, true).0;
    match p.action {
        PatchAction::RegionDiff(r) => {
        let i = find_abs(s, lid).unwrap();
        let l = s.layers[i];
        let l1 = AbsLayer {
            image: region_image(l, r.x, r.y, r.width, r.height, r.new_data@),
            ..l
        };
        lemma_ids_update(s.layers, i, l1);
        let l2 = AbsLayer {
            image: region_image(l1, r.x, r.y, r.width, r.height, r.old_data@),
            ..l1
        };
        assert(l2.image =~= l.image);
        assert(s1.layers.update(i, l2) =~= s.layers);
    },
        _ => {},
    }
}

proof fn lemma_undo_layer_add(p: ActionPatch, s: AbsStore)
    requires
        reversible(p, s),
        p.action is LayerAdd,
    ensures
        apply_abs(p, s, true).1,
        apply_abs(p, apply_abs(p, s, true).0, false) == (s, true),
{
    let lid = p.layer_id@;
    let s1 = apply_abs(p, s, true).0;
    match p.action {
        PatchAction::LayerAdd(a) => {
        let la = a.layer@.abs();
        let idx = if a.index <= s.layers.len() {
            a.index as int
        } else {
            s.layers.len() as int
        };
        lemma_find_inserted(s.layers, idx, la);
        assert(s1.layers.remove(idx) =~= s.layers);
    },
        _ => {},
    }
}

proof fn lemma_undo_layer_remove(p: ActionPatch, s: AbsStore)
    requires
        reversible(p, s),
        p.action is LayerRemove,
    ensures
        apply_abs(p, s, true).1,
        apply_abs(p, apply_abs(p, s, true).0, false) == (s, true),
{
    let lid = p.layer_id@;
    let s1 = apply_abs(p, s, true).0;
    match p.action {
        PatchAction::LayerRemove(a) => {
        let i = a.index as int;
        assert(s1.layers.insert(i, a.layer@.abs()) =~= s.layers);
    },
        _ => {},
    }
}

proof fn lemma_undo_layer_visibility(p: ActionPatch, s: AbsStore)
    requires
        reversible(p, s),
        p.action is LayerVisibility,
    ensures
        apply_abs(p, s, true).1,
        apply_abs(p, apply_abs(p, s, true).0, false) == (s, true),
{
    let lid = p.layer_id@;
    let s1 = apply_abs(p, s, true).0;
    match p.action {
        PatchAction::LayerVisibility(v) => {
        if let Some(i) = find_abs(s, lid) {
            let l1 = AbsLayer { props: crate::model::layer::LayerProps { visible: v.visible, ..s.layers[i].props }, ..s.layers[i] };
            assert(abs_layer_ids(s.layers.update(i, l1)) =~= abs_layer_ids(s.layers));
            assert(s1.layers.update(i, s.layers[i]) =~= s.layers);
        }
    },
        _ => {},
    }
}

proof fn lemma_undo_layer_opacity(p: ActionPatch, s: AbsStore)
    requires
        reversible(p, s),
        p.action is LayerOpacity,
    ensures
        apply_abs(p, s, true).1,
        apply_abs(p, apply_abs(p, s, true).0, false) == (s, true),
{
    let lid = p.layer_id@;
    let s1 = apply_abs(p, s, true).0;
    match p.action {
        PatchAction::LayerOpacity(o) => {
        if let Some(i) = find_abs(s, lid) {
            let l1 = AbsLayer { props: crate::model::layer::LayerProps { opacity: o.new_opacity, ..s.layers[i].props }, ..s.layers[i] };
            assert(abs_layer_ids(s.layers.update(i, l1)) =~= abs_layer_ids(s.layers));
            assert(s1.layers.update(i, s.layers[i]) =~= s.layers);
        }
    },
        _ => {},
    }
}

proof fn lemma_undo_layer_lock(p: ActionPatch, s: AbsStore)
    requires
        reversible(p, s),
        p.action is LayerLock,
    ensures
        apply_abs(p, s, true).1,
        apply_abs(p, apply_abs(p, s, true).0, false) == (s, true),
{
    let lid = p.layer_id@;
    let s1 = apply_abs(p, s, true).0;
    match p.action {
        PatchAction::LayerLock(o) => {
        if let Some(i) = find_abs(s, lid) {
            let l1 = AbsLayer { props: crate::model::layer::LayerProps { locked: o.new_locked, ..s.layers[i].props }, ..s.layers[i] };
            assert(abs_layer_ids(s.layers.update(i, l1)) =~= abs_layer_ids(s.layers));
            assert(s1.layers.update(i, s.layers[i]) =~= s.layers);
        }
    },
        _ => {},
    }
}

proof fn lemma_undo_layer_rename(p: ActionPatch, s: AbsStore)
    requires
        reversible(p, s),
        p.action is LayerRename,
    ensures
        apply_abs(p, s, true).1,
        apply_abs(p, apply_abs(p, s, true).0, false) == (s, true),
{
    let lid = p.layer_id@;
    let s1 = apply_abs(p, s, true).0;
    match p.action {
        PatchAction::LayerRename(n) => {
        if let Some(i) = find_abs(s, lid) {
            let l1 = AbsLayer { props: crate::model::layer::LayerProps { name: n.new_name@, ..s.layers[i].props }, ..s.layers[i] };
            assert(abs_layer_ids(s.layers.update(i, l1)) =~= abs_layer_ids(s.layers));
            assert(s1.layers.update(i, s.layers[i]) =~= s.layers);
        }
    },
        _ => {},
    }
}

proof fn lemma_undo_layer_blend_mode(p: ActionPatch, s: AbsStore)
    requires
        reversible(p, s),
        p.action is LayerBlendMode,
    ensures
        apply_abs(p, s, true).1,
        apply_abs(p, apply_abs(p, s, true).0, false) == (s, true),
{
    let lid = p.layer_id@;
    let s1 = apply_abs(p, s, true).0;
    match p.action {
        PatchAction::LayerBlendMode(b) => {
        if let Some(i) = find_abs(s, lid) {
            let l1 = AbsLayer { props: crate::model::layer::LayerProps { blend_mode: b.new_mode, ..s.layers[i].props }, ..s.layers[i] };
            assert(abs_layer_ids(s.layers.update(i, l1)) =~= abs_layer_ids(s.layers));
            assert(s1.layers.update(i, s.layers[i]) =~= s.layers);
        }
    },
        _ => {},
    }
}

proof fn lemma_undo_layer_offset(p: ActionPatch, s: AbsStore)
    requires
        reversible(p, s),
        p.action is LayerOffset,
    ensures
        apply_abs(p, s, true).1,
        apply_abs(p, apply_abs(p, s, true).0, false) == (s, true),
{
    let lid = p.layer_id@;
    let s1 = apply_abs(p, s, true).0;
    match p.action {
        PatchAction::LayerOffset(o) => {
        if let Some(i) = find_abs(s, lid) {
            let l1 = AbsLayer { props: crate::model::layer::LayerProps { offset_x: o.new_offset.0, offset_y: o.new_offset.1, ..s.layers[i].props }, ..s.layers[i] };
            assert(abs_layer_ids(s.layers.update(i, l1)) =~= abs_layer_ids(s.layers));
            assert(s1.layers.update(i, s.layers[i]) =~= s.layers);
        }
    },
        _ => {},
    }
}

proof fn lemma_undo_layer_move(p: ActionPatch, s: AbsStore)
    requires
        reversible(p, s),
        p.action is LayerMove,
    ensures
        apply_abs(p, s, true).1,
        apply_abs(p, apply_abs(p, s, true).0, false) == (s, true),
{
    let lid = p.layer_id@;
    let s1 = apply_abs(p, s, true).0;
    match p.action {
        PatchAction::LayerMove(m) => {
        let from = m.old_index as int;
        let to = m.new_index as int;
        if from < s.layers.len() && to < s.layers.len() {
            let t = s.layers.remove(from).insert(to, s.layers[from]);
            assert(t[to] == s.layers[from]);
            assert(t.remove(to).insert(from, t[to]) =~= s.layers);
        }
    },
        _ => {},
    }
}

/// Taking back a reversible change restores the document, and applying it succeeds.
pub proof fn law_undo_restores(p: ActionPatch, s: AbsStore)
    requires
        reversible(p, s),
    ensures
        apply_abs(p, s, true).1,
        apply_abs(p, apply_abs(p, s, true).0, false) == (s, true),
    decreases p,
{
    match p.action {
        PatchAction::PixelDiff(_) => lemma_undo_pixel_diff(p, s),
        PatchAction::RegionDiff(_) => lemma_undo_region_diff(p, s),
        PatchAction::LayerAdd(_) => lemma_undo_layer_add(p, s),
        PatchAction::LayerRemove(_) => lemma_undo_layer_remove(p, s),
        PatchAction::LayerVisibility(_) => lemma_undo_layer_visibility(p, s),
        PatchAction::LayerOpacity(_) => lemma_undo_layer_opacity(p, s),
        PatchAction::LayerLock(_) => lemma_undo_layer_lock(p, s),
        PatchAction::LayerRename(_) => lemma_undo_layer_rename(p, s),
        PatchAction::LayerBlendMode(_) => lemma_undo_layer_blend_mode(p, s),
        PatchAction::LayerOffset(_) => lemma_undo_layer_offset(p, s),
        PatchAction::LayerMove(_) => lemma_undo_layer_move(p, s),
        PatchAction::SelectionChange(_) => {},
        PatchAction::PathChange(_) => {},
        PatchAction::CanvasResize(_) => {},
        PatchAction::Composite(c) => {
            law_undo_restores_all(c.patches@, s);
        },
    }
}

/// Processing the changes backwards ends with the first one.
proof fn lemma_backward_first(ps: Seq<ActionPatch>, t: AbsStore)
    requires
        ps.len() > 0,
    ensures
        apply_all_backward(ps, t) == ({
            let r = apply_all_backward(ps.drop_first(), t);
            if !r.1 {
                r
            } else {
                apply_abs(ps[0], r.0, false)
            }
        }),
    decreases ps.len(),
{
    if ps.len() == 1 {
        assert(ps.drop_first() =~= Seq::<ActionPatch>::empty());
        assert(ps.drop_last() =~= Seq::<ActionPatch>::empty());
        assert(ps.last() == ps[0]);
        assert(apply_all_backward(ps.drop_first(), t) == (t, true));
        let r1 = apply_abs(ps.last(), t, false);
        assert(apply_all_backward(ps, t) == (if !r1.1 {
            r1
        } else {
            apply_all_backward(ps.drop_last(), r1.0)
        }));
        assert(apply_all_backward(ps.drop_last(), r1.0) == (r1.0, true));
    } else {
        let r1 = apply_abs(ps.last(), t, false);
        lemma_backward_first(ps.drop_last(), r1.0);
        assert(ps.drop_last().drop_first() =~= ps.drop_first().drop_last());
        assert(ps.drop_first().last() == ps.last());
        assert(ps.drop_last()[0] == ps[0]);
        assert(apply_all_backward(ps.drop_first(), t) == (if !r1.1 {
            r1
        } else {
            apply_all_backward(ps.drop_first().drop_last(), r1.0)
        }));
        assert(apply_all_backward(ps, t) == (if !r1.1 {
            r1
        } else {
            apply_all_backward(ps.drop_last(), r1.0)
        }));
    }
}

/// Taking back reversible changes in reverse order restores the document.
pub proof fn law_undo_restores_all(ps: Seq<ActionPatch>, s: AbsStore)
    requires
        reversible_all(ps, s),
    ensures
        apply_all_forward(ps, s).1,
        apply_all_backward(ps, apply_all_forward(ps, s).0) == (s, true),
    decreases ps,
{
    if ps.len() > 0 {
        law_undo_restores(ps[0], s);
        let s1 = apply_abs(ps[0], s, true).0;
        law_undo_restores_all(ps.drop_first(), s1);
        lemma_backward_first(ps, apply_all_forward(ps, s).0);
    }
}

/// Redoing a change after undoing it gives the document the change first produced.
pub proof fn law_redo_after_undo(p: ActionPatch, s: AbsStore)
    requires
        reversible(p, s),
    ensures
        apply_abs(p, apply_abs(p, apply_abs(p, s, true).0, false).0, true) == apply_abs(p, s, true),
{
    law_undo_restores(p, s);
}

/// A selection change always succeeds: carried out (committed or redone) it
/// leaves the document's selection equal to the change's new selection, taken
/// back (undone) equal to its old one, and touches nothing else; so after a
/// commit, an undo and a redo the selection is the new one again.
pub proof fn law_selection_change(p: ActionPatch, s: AbsStore, m: StoreModel)
    requires
        p.action is SelectionChange,
    ensures
        p.action matches PatchAction::SelectionChange(c) ==> {
            &&& apply_abs(p, s, true) == (AbsStore { selection: c.new_sel@, ..s }, true)
            &&& apply_abs(p, s, false) == (AbsStore { selection: c.old_sel@, ..s }, true)
            &&& apply_model(p, m, true) == (StoreModel { selection: c.new_sel@, ..m })
            &&& apply_model(p, m, false) == (StoreModel { selection: c.old_sel@, ..m })
            &&& apply_abs(p, apply_abs(p, apply_abs(p, s, true).0, false).0, true).0.selection == c.new_sel@
        },
{
}

} // verus!
