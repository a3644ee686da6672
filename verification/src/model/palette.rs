use vstd::prelude::*;
use crate::model::color::Color;

verus! {

/// A named list of swatch colours.
pub struct Palette {
    pub name: String,
    pub colors: Vec<Color>,
}

} // verus!
