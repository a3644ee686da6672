use vstd::prelude::*;

verus! {

/// Errors of the editing model.
#[derive(Debug)]
pub enum CoreError {
    /// No layer carries the given id.
    LayerNotFound(String),
    /// The layer is locked against edits.
    LayerLocked,
    /// A coordinate lies outside the layer.
    OutOfBounds,
}

} // verus!
