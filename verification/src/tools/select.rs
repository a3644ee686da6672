use vstd::prelude::*;
use crate::history::patch::{ActionPatch, PatchAction, global_id};
use crate::model::color::Color;
use crate::model::error::CoreError;
use crate::model::selection::{SelectionData, SelectionModel};
use crate::model::store::{PixelStore, StoreModel, composite_pixel};

verus! {

/// The whole canvas, as the dirty rectangle of a selection change.
pub open spec fn whole_canvas() -> (u32, u32, u32, u32) {
    (0, 0, u32::MAX, u32::MAX)
}

/// `after` is `before` made active with its mask set exactly on the rectangle
/// at `(x, y)` of size `w` by `h`, clipped to the canvas.
pub open spec fn rect_selected(before: SelectionModel, after: SelectionModel, x: int, y: int, w: int, h: int) -> bool {
    &&& after.wf()
    &&& after.is_active
    &&& after.width == before.width
    &&& after.height == before.height
    &&& forall|px: int, py: int|
        0 <= px < before.width && 0 <= py < before.height ==> #[trigger] after.mask[py * before.width + px] == (x <= px
            < x + w && y <= py < y + h)
}

/// A cleared selection over the same canvas.
pub open spec fn cleared(before: SelectionModel, after: SelectionModel) -> bool {
    &&& after.wf()
    &&& !after.is_active
    &&& after.width == before.width
    &&& after.height == before.height
    &&& forall|i: int| 0 <= i < after.mask.len() ==> !(#[trigger] after.mask[i])
}

pub open spec fn max0(v: int) -> int {
    if v > 0 {
        v
    } else {
        0
    }
}

pub open spec fn min_int(a: int, b: int) -> int {
    if a <= b {
        a
    } else {
        b
    }
}

pub open spec fn max_int(a: int, b: int) -> int {
    if a >= b {
        a
    } else {
        b
    }
}

/// The patch a finished selection gesture yields: none where the selection is
/// unchanged, else a document-wide selection change from `old_sel` to
/// `new_sel` named `id`.
pub open spec fn selection_patch(
    old_sel: SelectionModel,
    new_sel: SelectionModel,
    id: String,
    r: Result<Option<ActionPatch>, CoreError>,
) -> bool {
    if old_sel == new_sel {
        r == Ok::<Option<ActionPatch>, CoreError>(None)
    } else {
        r matches Ok(Some(p)) && p.id == id && p.layer_id@ == global_id() && (p.action matches PatchAction::SelectionChange(c) && c.old_sel@
            == old_sel && c.new_sel@ == new_sel)
    }
}

/// What pressing the rectangle selection at `(x, y)` does, from store `s0` to
/// tool `t1` and store `s1`: the tool remembers the selection and the point,
/// and the pressed pixel (negative coordinates taken as zero) becomes the
/// selection.
pub open spec fn rect_press(s0: StoreModel, x: i32, y: i32, t1: RectSelectTool, s1: StoreModel) -> bool {
    &&& t1.start_pos == Some((x, y))
    &&& t1.old_selection matches Some(o) && o@ == s0.selection
    &&& t1.needs_redraw
    &&& rect_selected(s0.selection, s1.selection, max0(x as int), max0(y as int), 1, 1)
    &&& s1 == (StoreModel { selection: s1.selection, ..s0 })
}

/// What dragging to `(x, y)` does: with a pressed point, the rectangle it spans
/// with `(x, y)`, corners included, becomes the selection; without one nothing
/// happens.
pub open spec fn rect_drag(t0: RectSelectTool, s0: StoreModel, x: i32, y: i32, t1: RectSelectTool, s1: StoreModel) -> bool {
    &&& t1.start_pos == t0.start_pos
    &&& t1.old_selection == t0.old_selection
    &&& match t0.start_pos {
        None => t1 == t0 && s1 == s0,
        Some((sx, sy)) => {
            let min_x = max0(min_int(sx as int, x as int));
            let min_y = max0(min_int(sy as int, y as int));
            let max_x = max0(max_int(sx as int, x as int));
            let max_y = max0(max_int(sy as int, y as int));
            &&& t1.needs_redraw
            &&& rect_selected(s0.selection, s1.selection, min_x, min_y, max_x - min_x + 1, max_y - min_y + 1)
            &&& s1 == (StoreModel { selection: s1.selection, ..s0 })
        },
    }
}

/// What abandoning the gesture does: the remembered selection comes back.
pub open spec fn rect_cancel(t0: RectSelectTool, s0: StoreModel, t1: RectSelectTool, s1: StoreModel) -> bool {
    &&& t1.old_selection is None
    &&& t1.start_pos == t0.start_pos
    &&& match t0.old_selection {
        Some(o) => s1 == (StoreModel { selection: o@, ..s0 }) && t1.needs_redraw,
        None => s1 == s0 && t1.needs_redraw == t0.needs_redraw,
    }
}

/// Pressing the rectangle selection, dragging, and abandoning the gesture
/// leaves the document as it was before the press.
pub proof fn law_rect_cancel_restores(
    s0: StoreModel,
    x: i32,
    y: i32,
    t1: RectSelectTool,
    s1: StoreModel,
    x2: i32,
    y2: i32,
    t2: RectSelectTool,
    s2: StoreModel,
    t3: RectSelectTool,
    s3: StoreModel,
)
    requires
        rect_press(s0, x, y, t1, s1),
        rect_drag(t1, s1, x2, y2, t2, s2),
        rect_cancel(t2, s2, t3, s3),
    ensures
        s3 == s0,
{
}

/// The rectangle selection: drags out a rectangle from the pressed point.
pub struct RectSelectTool {
    pub start_pos: Option<(i32, i32)>,
    pub old_selection: Option<SelectionData>,
    pub needs_redraw: bool,
}

impl RectSelectTool {
    pub open spec fn wf(&self) -> bool {
        self.old_selection matches Some(s) ==> s@.wf()
    }

    pub fn new() -> (t: RectSelectTool)
        ensures
            t.wf(),
            t.start_pos is None,
            t.old_selection is None,
            !t.needs_redraw,
    {
        RectSelectTool { start_pos: None, old_selection: None, needs_redraw: false }
    }

    /// Remembers the selection and selects the pressed pixel (negative
    /// coordinates taken as zero).
    pub fn on_pointer_down(&mut self, x: i32, y: i32, store: &mut PixelStore) -> (r: Result<(), CoreError>)
        requires
            old(store)@.wf(),
        ensures
            r is Ok,
            final(self).wf(),
            final(store)@.wf(),
            rect_press(old(store)@, x, y, *final(self), final(store)@),
    {
        self.old_selection = Some(store.selection.clone());
        self.start_pos = Some((x, y));
        let sx: u32 = if x > 0 {
            x as u32
        } else {
            0
        };
        let sy: u32 = if y > 0 {
            y as u32
        } else {
            0
        };
        store.selection.set_rect(sx, sy, 1, 1);
        self.needs_redraw = true;
        assert(store@.layers == old(store)@.layers);
        Ok(())
    }

    /// Selects the rectangle spanned by the pressed point and `(x, y)`, corners
    /// included (negative coordinates taken as zero). Nothing happens without a
    /// pressed point.
    pub fn on_pointer_move(&mut self, x: i32, y: i32, store: &mut PixelStore) -> (r: Result<(), CoreError>)
        requires
            old(store)@.wf(),
        ensures
            r is Ok,
            final(store)@.wf(),
            rect_drag(*old(self), old(store)@, x, y, *final(self), final(store)@),
    {
        match self.start_pos {
            Some((sx, sy)) => {
                let lo_x = if sx < x {
                    sx
                } else {
                    x
                };
                let lo_y = if sy < y {
                    sy
                } else {
                    y
                };
                let hi_x = if sx > x {
                    sx
                } else {
                    x
                };
                let hi_y = if sy > y {
                    sy
                } else {
                    y
                };
                let min_x: u32 = if lo_x > 0 {
                    lo_x as u32
                } else {
                    0
                };
                let min_y: u32 = if lo_y > 0 {
                    lo_y as u32
                } else {
                    0
                };
                let max_x: u32 = if hi_x > 0 {
                    hi_x as u32
                } else {
                    0
                };
                let max_y: u32 = if hi_y > 0 {
                    hi_y as u32
                } else {
                    0
                };
                store.selection.set_rect(min_x, min_y, max_x - min_x + 1, max_y - min_y + 1);
                self.needs_redraw = true;
                assert(store@.layers == old(store)@.layers);
            },
            None => {},
        }
        Ok(())
    }

    /// Ends the gesture: a selection of at most one pixel is cleared; the patch
    /// (named `patch_id`) records the change from the remembered selection. No
    /// patch without a gesture in progress or where nothing changed.
    pub fn on_pointer_up(&mut self, store: &mut PixelStore, patch_id: String) -> (r: Result<
        Option<ActionPatch>,
        CoreError,
    >)
        requires
            old(self).wf(),
            old(store)@.wf(),
        ensures
            final(self).wf(),
            final(store)@.wf(),
            final(self).start_pos is None,
            final(self).needs_redraw == old(self).needs_redraw,
            final(store)@ == (StoreModel { selection: final(store)@.selection, ..old(store)@ }),
            match (old(self).start_pos, old(self).old_selection) {
                (Some(_), Some(o)) => {
                    &&& final(self).old_selection is None
                    &&& if old(store)@.selection.count() <= 1 {
                        cleared(old(store)@.selection, final(store)@.selection)
                    } else {
                        final(store)@.selection == old(store)@.selection
                    }
                    &&& selection_patch(o@, final(store)@.selection, patch_id, r)
                },
                (None, _) => r == Ok::<Option<ActionPatch>, CoreError>(None) && final(self).old_selection
                    == old(self).old_selection && final(store)@ == old(store)@,
                (Some(_), None) => r == Ok::<Option<ActionPatch>, CoreError>(None) && final(self).old_selection is None
                    && final(store)@ == old(store)@,
            },
    {
        if self.start_pos.is_none() {
            return Ok(None);
        }
        self.start_pos = None;
        let old_sel = match self.old_selection.take() {
            Some(s) => s,
            None => {
                return Ok(None);
            },
        };
        if store.selection.count() <= 1 {
            store.selection.clear();
        }
        let new_sel = store.selection.clone();
        if old_sel.same_as(&new_sel) {
            return Ok(None);
        }
        Ok(Some(ActionPatch::new_selection_change(patch_id, old_sel, new_sel)))
    }

    /// Finishing the tool ends the gesture.
    pub fn on_commit(&mut self, store: &mut PixelStore, patch_id: String) -> (r: Result<
        Option<ActionPatch>,
        CoreError,
    >)
        requires
            old(self).wf(),
            old(store)@.wf(),
        ensures
            final(self).wf(),
            final(store)@.wf(),
            final(self).start_pos is None,
            final(store)@ == (StoreModel { selection: final(store)@.selection, ..old(store)@ }),
            match (old(self).start_pos, old(self).old_selection) {
                (Some(_), Some(o)) => {
                    &&& final(self).old_selection is None
                    &&& if old(store)@.selection.count() <= 1 {
                        cleared(old(store)@.selection, final(store)@.selection)
                    } else {
                        final(store)@.selection == old(store)@.selection
                    }
                    &&& selection_patch(o@, final(store)@.selection, patch_id, r)
                },
                (None, _) => r == Ok::<Option<ActionPatch>, CoreError>(None) && final(store)@ == old(store)@,
                (Some(_), None) => r == Ok::<Option<ActionPatch>, CoreError>(None) && final(store)@ == old(store)@,
            },
    {
        self.on_pointer_up(store, patch_id)
    }

    /// Abandons the gesture, putting back the remembered selection.
    pub fn on_cancel(&mut self, store: &mut PixelStore)
        requires
            old(self).wf(),
            old(store)@.wf(),
        ensures
            final(self).wf(),
            final(store)@.wf(),
            rect_cancel(*old(self), old(store)@, *final(self), final(store)@),
    {
        match self.old_selection.take() {
            Some(o) => {
                store.selection = o;
                self.needs_redraw = true;
            },
            None => {},
        }
        assert(store@.layers == old(store)@.layers);
    }

    /// The whole canvas once after the selection changed on screen, else nothing.
    pub fn take_dirty_rect(&mut self) -> (r: Option<(u32, u32, u32, u32)>)
        ensures
            r == (if old(self).needs_redraw {
                Some(whole_canvas())
            } else {
                None
            }),
            !final(self).needs_redraw,
            final(self).start_pos == old(self).start_pos,
            final(self).old_selection == old(self).old_selection,
    {
        if self.needs_redraw {
            self.needs_redraw = false;
            Some((0, 0, u32::MAX, u32::MAX))
        } else {
            None
        }
    }
}

/// The ellipse selection. Its gesture starts and continues with the
/// selection's ellipse fill, which is not part of this library; ending the
/// gesture and the redraw bookkeeping are here.
pub struct EllipseSelectTool {
    pub start_pos: Option<(u32, u32)>,
    pub old_selection: Option<SelectionData>,
    pub needs_redraw: bool,
}

impl EllipseSelectTool {
    pub open spec fn wf(&self) -> bool {
        self.old_selection matches Some(s) ==> s@.wf()
    }

    pub fn new() -> (t: EllipseSelectTool)
        ensures
            t.wf(),
            t.start_pos is None,
            t.old_selection is None,
            !t.needs_redraw,
    {
        EllipseSelectTool { start_pos: None, old_selection: None, needs_redraw: false }
    }

    /// Ends the gesture: an empty selection puts back the remembered one and
    /// yields no patch; otherwise the patch (named `patch_id`) records the change
    /// from the remembered selection, none where nothing changed.
    pub fn on_pointer_up(&mut self, store: &mut PixelStore, patch_id: String) -> (r: Result<
        Option<ActionPatch>,
        CoreError,
    >)
        requires
            old(self).wf(),
            old(store)@.wf(),
        ensures
            final(self).wf(),
            final(store)@.wf(),
            final(self).start_pos is None,
            final(self).old_selection is None,
            final(self).needs_redraw == old(self).needs_redraw,
            match old(self).old_selection {
                None => r == Ok::<Option<ActionPatch>, CoreError>(None) && final(store)@ == old(store)@,
                Some(o) => if old(store)@.selection.count() == 0 {
                    r == Ok::<Option<ActionPatch>, CoreError>(None) && final(store)@ == (StoreModel {
                        selection: o@,
                        ..old(store)@
                    })
                } else {
                    final(store)@ == old(store)@ && selection_patch(o@, old(store)@.selection, patch_id, r)
                },
            },
    {
        self.start_pos = None;
        let old_sel = match self.old_selection.take() {
            Some(s) => s,
            None => {
                return Ok(None);
            },
        };
        if store.selection.count() == 0 {
            store.selection = old_sel.clone();
            return Ok(None);
        }
        let new_sel = store.selection.clone();
        if old_sel.same_as(&new_sel) {
            return Ok(None);
        }
        Ok(Some(ActionPatch::new_selection_change(patch_id, old_sel, new_sel)))
    }

    /// The whole canvas once after the selection changed on screen, else nothing.
    pub fn take_dirty_rect(&mut self) -> (r: Option<(u32, u32, u32, u32)>)
        ensures
            r == (if old(self).needs_redraw {
                Some(whole_canvas())
            } else {
                None
            }),
            !final(self).needs_redraw,
            final(self).start_pos == old(self).start_pos,
            final(self).old_selection == old(self).old_selection,
    {
        if self.needs_redraw {
            self.needs_redraw = false;
            Some((0, 0, u32::MAX, u32::MAX))
        } else {
            None
        }
    }
}

/// The eyedropper: picks the composited colour under the pointer as the
/// primary colour.
pub struct EyedropperTool;

impl EyedropperTool {
    pub fn new() -> (t: EyedropperTool) {
        EyedropperTool
    }

    /// Takes the composited colour at canvas point `(x, y)` (transparent off
    /// the canvas) as the primary colour.
    pub fn on_pointer_down(&mut self, x: u32, y: u32, store: &mut PixelStore) -> (r: Result<(), CoreError>)
        ensures
            r is Ok,
            final(store)@ == (StoreModel {
                primary_color: composite_pixel(old(store)@, x as int, y as int),
                ..old(store)@
            }),
    {
        let picked: Color = store.get_composite_pixel(x, y);
        store.primary_color = picked;
        Ok(())
    }

    /// Moving picks again.
    pub fn on_pointer_move(&mut self, x: u32, y: u32, store: &mut PixelStore) -> (r: Result<(), CoreError>)
        ensures
            r is Ok,
            final(store)@ == (StoreModel {
                primary_color: composite_pixel(old(store)@, x as int, y as int),
                ..old(store)@
            }),
    {
        let picked: Color = store.get_composite_pixel(x, y);
        store.primary_color = picked;
        Ok(())
    }

    /// Picking records nothing to undo.
    pub fn on_pointer_up(&mut self, store: &PixelStore) -> (r: Result<Option<ActionPatch>, CoreError>)
        ensures
            r == Ok::<Option<ActionPatch>, CoreError>(None),
    {
        Ok(None)
    }
}

} // verus!
