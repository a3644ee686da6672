use vstd::prelude::*;
use crate::history::patch::{ActionPatch, apply_abs, apply_model, fail_id, is_not_found, patch_is_empty, patch_wf};
use crate::model::error::CoreError;
use crate::model::store::PixelStore;

verus! {

/// Undo and redo stacks of applied changes, keeping at most `max_steps` undo steps.
pub struct HistoryManager {
    pub undo_stack: Vec<ActionPatch>,
    pub redo_stack: Vec<ActionPatch>,
    pub max_steps: usize,
}

/// The undo stack after pushing `p` and dropping the oldest entry beyond `max`.
pub open spec fn pushed_bounded(stack: Seq<ActionPatch>, p: ActionPatch, max: usize) -> Seq<
    ActionPatch,
> {
    if stack.len() + 1 > max {
        stack.push(p).drop_first()
    } else {
        stack.push(p)
    }
}

impl HistoryManager {
    /// Together the two stacks never hold more than `max_steps` changes.
    pub open spec fn within_limit(&self) -> bool {
        self.undo_stack@.len() + self.redo_stack@.len() <= self.max_steps
    }

    pub fn new(max_steps: usize) -> (h: HistoryManager)
        ensures
            h.undo_stack@.len() == 0,
            h.redo_stack@.len() == 0,
            h.max_steps == max_steps,
            h.within_limit(),
    {
        HistoryManager { undo_stack: Vec::new(), redo_stack: Vec::new(), max_steps }
    }

    /// Applies `patch` and records it for undo, dropping the oldest step beyond the
    /// limit and forgetting everything that could be redone. An empty patch changes
    /// nothing; a patch that fails to apply is not recorded.
    pub fn commit(&mut self, patch: ActionPatch, store: &mut PixelStore) -> (r: Result<
        (),
        CoreError,
    >)
        requires
            old(store)@.wf(),
            patch_wf(patch, true),
        ensures
            final(store)@.wf(),
            final(self).max_steps == old(self).max_steps,
            patch_is_empty(patch) ==> r is Ok && final(store)@ == old(store)@ && *final(self)
                == *old(self),
            !patch_is_empty(patch) ==> {
                &&& final(store)@.abs() == apply_abs(patch, old(store)@.abs(), true).0
                &&& final(store)@ == apply_model(patch, old(store)@, true)
                &&& r is Ok == apply_abs(patch, old(store)@.abs(), true).1
                &&& r is Ok ==> final(self).undo_stack@ == pushed_bounded(
                    old(self).undo_stack@,
                    patch,
                    old(self).max_steps,
                ) && final(self).redo_stack@.len() == 0
                &&& r is Err ==> *final(self) == *old(self)
                &&& r is Err ==> is_not_found(r, fail_id(patch, old(store)@.abs(), true))
            },
            old(self).within_limit() ==> final(self).within_limit(),
    {
        if patch.is_empty() {
            return Ok(());
        }
        let res = self.apply_patch(&patch, store, true);
        if res.is_err() {
            return res;
        }
        self.undo_stack.push(patch);
        if self.undo_stack.len() > self.max_steps {
            self.undo_stack.remove(0);
            assert(self.undo_stack@ =~= old(self).undo_stack@.push(patch).drop_first());
        }
        self.redo_stack.clear();
        Ok(())
    }

    /// Takes back the most recent change and makes it redoable. Does nothing when
    /// there is nothing to undo; a change that fails to be taken back is dropped.
    pub fn undo(&mut self, store: &mut PixelStore) -> (r: Result<(), CoreError>)
        requires
            old(store)@.wf(),
            old(self).undo_stack@.len() > 0 ==> patch_wf(old(self).undo_stack@.last(), false),
        ensures
            final(store)@.wf(),
            final(self).max_steps == old(self).max_steps,
            old(self).undo_stack@.len() == 0 ==> r is Ok && final(store)@ == old(store)@
                && final(self).undo_stack@ == old(self).undo_stack@ && final(self).redo_stack@
                == old(self).redo_stack@,
            old(self).undo_stack@.len() > 0 ==> {
                let p = old(self).undo_stack@.last();
                &&& final(store)@.abs() == apply_abs(p, old(store)@.abs(), false).0
                &&& final(store)@ == apply_model(p, old(store)@, false)
                &&& r is Ok == apply_abs(p, old(store)@.abs(), false).1
                &&& final(self).undo_stack@ == old(self).undo_stack@.drop_last()
                &&& r is Ok ==> final(self).redo_stack@ == old(self).redo_stack@.push(p)
                &&& r is Err ==> final(self).redo_stack@ == old(self).redo_stack@
                &&& r is Err ==> is_not_found(r, fail_id(p, old(store)@.abs(), false))
            },
            old(self).within_limit() ==> final(self).within_limit(),
    {
        match self.undo_stack.pop() {
            Some(patch) => {
                let res = self.apply_patch(&patch, store, false);
                if res.is_err() {
                    return res;
                }
                self.redo_stack.push(patch);
                Ok(())
            },
            None => Ok(()),
        }
    }

    /// Applies again the most recently undone change and makes it undoable.
    pub fn redo(&mut self, store: &mut PixelStore) -> (r: Result<(), CoreError>)
        requires
            old(store)@.wf(),
            old(self).redo_stack@.len() > 0 ==> patch_wf(old(self).redo_stack@.last(), true),
        ensures
            final(store)@.wf(),
            final(self).max_steps == old(self).max_steps,
            old(self).redo_stack@.len() == 0 ==> r is Ok && final(store)@ == old(store)@
                && final(self).undo_stack@ == old(self).undo_stack@ && final(self).redo_stack@
                == old(self).redo_stack@,
            old(self).redo_stack@.len() > 0 ==> {
                let p = old(self).redo_stack@.last();
                &&& final(store)@.abs() == apply_abs(p, old(store)@.abs(), true).0
                &&& final(store)@ == apply_model(p, old(store)@, true)
                &&& r is Ok == apply_abs(p, old(store)@.abs(), true).1
                &&& final(self).redo_stack@ == old(self).redo_stack@.drop_last()
                &&& r is Ok ==> final(self).undo_stack@ == old(self).undo_stack@.push(p)
                &&& r is Err ==> final(self).undo_stack@ == old(self).undo_stack@
                &&& r is Err ==> is_not_found(r, fail_id(p, old(store)@.abs(), true))
            },
            old(self).within_limit() ==> final(self).within_limit(),
    {
        match self.redo_stack.pop() {
            Some(patch) => {
                let res = self.apply_patch(&patch, store, true);
                if res.is_err() {
                    return res;
                }
                self.undo_stack.push(patch);
                Ok(())
            },
            None => Ok(()),
        }
    }

    /// Applies `patch` to `store`, forward or backward.
    pub fn apply_patch(&self, patch: &ActionPatch, store: &mut PixelStore, forward: bool) -> (r:
        Result<(), CoreError>)
        requires
            old(store)@.wf(),
            patch_wf(*patch, forward),
        ensures
            final(store)@.wf(),
            final(store)@.abs() == apply_abs(*patch, old(store)@.abs(), forward).0,
            r is Ok == apply_abs(*patch, old(store)@.abs(), forward).1,
            r is Err ==> is_not_found(r, fail_id(*patch, old(store)@.abs(), forward)),
            final(store)@ == apply_model(*patch, old(store)@, forward),
    {
        patch.apply(store, forward)
    }
}

} // verus!
