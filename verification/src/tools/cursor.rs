use vstd::prelude::*;

verus! {

/// Half of `v`, rounded towards zero.
pub open spec fn half_toward_zero(v: int) -> int {
    if v >= 0 {
        v / 2
    } else {
        -((-v) / 2)
    }
}

/// The on-canvas cursor drawn over the editor.
pub struct CursorOverlay;

impl CursorOverlay {
    /// The square a brush of `size` covers around canvas point
    /// `(center_x, center_y)`: its top-left corner, half the size (rounded
    /// towards zero) up and to the left, and its side. Sizes and points are read
    /// as 32-bit signed numbers.
    pub fn calculate_brush_rect(center_x: u32, center_y: u32, size: u32) -> (r: (i32, i32, u32, u32))
        requires
            i32::MIN <= (center_x as i32) - half_toward_zero(size as i32 as int) <= i32::MAX,
            i32::MIN <= (center_y as i32) - half_toward_zero(size as i32 as int) <= i32::MAX,
        ensures
            r.0 == (center_x as i32) - half_toward_zero(size as i32 as int),
            r.1 == (center_y as i32) - half_toward_zero(size as i32 as int),
            r.2 == size,
            r.3 == size,
    {
        let size_i32 = size as i32;
        let offset = size_i32 / 2;
        let x = center_x as i32 - offset;
        let y = center_y as i32 - offset;
        (x, y, size, size)
    }
}

} // verus!
