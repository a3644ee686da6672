use vstd::prelude::*;

verus! {

/// How a layer's colour is combined with what lies beneath it.
#[derive(Clone, Copy, Debug, PartialEq, Eq, Structural)]
pub enum BlendMode {
    Normal,
    Multiply,
    Screen,
    Add,
}

/// The byte that stands for a blend mode in the file format.
pub open spec fn blend_mode_code(m: BlendMode) -> u8 {
    match m {
        BlendMode::Normal => 0,
        BlendMode::Multiply => 1,
        BlendMode::Screen => 2,
        BlendMode::Add => 3,
    }
}

/// The blend mode a byte of the file format stands for; unknown codes read as `Normal`.
pub open spec fn blend_mode_of_code(v: u8) -> BlendMode {
    if v == 1 {
        BlendMode::Multiply
    } else if v == 2 {
        BlendMode::Screen
    } else if v == 3 {
        BlendMode::Add
    } else {
        BlendMode::Normal
    }
}

impl BlendMode {
    pub fn to_u8(&self) -> (v: u8)
        ensures
            v == blend_mode_code(*self),
    {
        match self {
            BlendMode::Normal => 0,
            BlendMode::Multiply => 1,
            BlendMode::Screen => 2,
            BlendMode::Add => 3,
        }
    }

    pub fn from_u8(v: u8) -> (m: BlendMode)
        ensures
            m == blend_mode_of_code(v),
    {
        if v == 1 {
            BlendMode::Multiply
        } else if v == 2 {
            BlendMode::Screen
        } else if v == 3 {
            BlendMode::Add
        } else {
            BlendMode::Normal
        }
    }
}

/// Decoding the code of a blend mode gives the mode back.
pub proof fn law_blend_mode_code_roundtrip(m: BlendMode)
    ensures
        blend_mode_of_code(blend_mode_code(m)) == m,
{
}

} // verus!
