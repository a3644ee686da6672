use vstd::prelude::*;

verus! {

/// An RGBA colour with one byte per channel.
#[derive(Clone, Copy, Debug, PartialEq, Eq, Structural)]
pub struct Color {
    pub r: u8,
    pub g: u8,
    pub b: u8,
    pub a: u8,
}

/// The fully transparent colour: all four channels zero.
pub open spec fn transparent_color() -> Color {
    Color { r: 0, g: 0, b: 0, a: 0 }
}

/// The colour stored at byte offset `i` of an RGBA byte buffer.
pub open spec fn color_at(data: Seq<u8>, i: int) -> Color {
    Color { r: data[i], g: data[i + 1], b: data[i + 2], a: data[i + 3] }
}

/// The four bytes of a colour, in RGBA order.
pub open spec fn color_bytes(c: Color) -> Seq<u8> {
    seq![c.r, c.g, c.b, c.a]
}

impl Color {
    pub fn new(r: u8, g: u8, b: u8, a: u8) -> (c: Color)
        ensures
            c == (Color { r, g, b, a }),
    {
        Color { r, g, b, a }
    }

    pub fn transparent() -> (c: Color)
        ensures
            c == transparent_color(),
    {
        Color { r: 0, g: 0, b: 0, a: 0 }
    }
}

} // verus!
