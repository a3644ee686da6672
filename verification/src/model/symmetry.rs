use vstd::prelude::*;

verus! {

/// Which mirror or repeat the brush is drawn with.
#[derive(Clone, Copy, Debug, PartialEq, Eq, Structural)]
pub enum SymmetryMode {
    Off,
    Horizontal,
    Vertical,
    Quad,
    Translational,
}

/// Symmetry settings of the canvas. The two axes are carried as the bit
/// patterns of their `f32` values, which is how they are stored on disk.
#[derive(Clone, Copy, Debug, PartialEq, Eq, Structural)]
pub struct SymmetryConfig {
    pub mode: SymmetryMode,
    pub axis_x: u32,
    pub axis_y: u32,
    pub translation_dx: i32,
    pub translation_dy: i32,
    pub visible_guides: bool,
}

impl SymmetryConfig {
    /// No symmetry, guides shown, the axes at the given `f32` bit patterns and no translation.
    pub fn new(axis_x: u32, axis_y: u32) -> (s: SymmetryConfig)
        ensures
            s == (SymmetryConfig {
                mode: SymmetryMode::Off,
                axis_x,
                axis_y,
                translation_dx: 0,
                translation_dy: 0,
                visible_guides: true,
            }),
    {
        SymmetryConfig {
            mode: SymmetryMode::Off,
            axis_x,
            axis_y,
            translation_dx: 0,
            translation_dy: 0,
            visible_guides: true,
        }
    }
}

} // verus!
