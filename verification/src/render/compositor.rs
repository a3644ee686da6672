use vstd::prelude::*;
use crate::model::blend_mode::BlendMode;
use crate::model::color::color_bytes;
use crate::model::layer::LayerModel;
use crate::model::selection::SelectionModel;
use crate::model::store::{PixelStore, StoreModel, canvas_pixel};
use crate::render::blend::{blend_pixels, blended, coverage};

verus! {

/// The checkerboard shown under transparent pixels: 8-pixel squares of two greys.
pub open spec fn grid_color(x: int, y: int) -> Seq<u8> {
    if ((x / 8) + (y / 8)) % 2 == 0 {
        seq![45u8, 45, 45, 255]
    } else {
        seq![30u8, 30, 30, 255]
    }
}

/// `base` with the first `n` layers drawn over it in order, skipping hidden
/// layers, points off a layer and fully transparent pixels.
pub open spec fn layers_over(ls: Seq<LayerModel>, n: int, x: int, y: int, base: Seq<u8>) -> Seq<u8>
    decreases n,
{
    if n <= 0 {
        base
    } else {
        let below = layers_over(ls, n - 1, x, y, base);
        let l = ls[n - 1];
        if l.props.visible {
            match canvas_pixel(l, x, y) {
                Some(c) => if c.a > 0 {
                    blended(below, color_bytes(c), l.props.blend_mode, l.props.opacity)
                } else {
                    below
                },
                None => below,
            }
        } else {
            below
        }
    }
}

pub open spec fn sat_dec(v: int) -> int {
    if v > 0 {
        v - 1
    } else {
        0
    }
}

/// The selection overlay: outside an active selection the colour is darkened,
/// and on its border (a selected pixel at the canvas edge or next to an
/// unselected one) it is tinted cyan.
pub open spec fn selection_overlay(
    sel: SelectionModel,
    w: int,
    h: int,
    x: int,
    y: int,
    c: Seq<u8>,
) -> Seq<u8> {
    if !sel.is_active {
        c
    } else if sel.contains(x, y) {
        let border = x == 0 || y == 0 || x == w - 1 || y == h - 1 || !sel.contains(sat_dec(x), y)
            || !sel.contains(x + 1, y) || !sel.contains(x, sat_dec(y)) || !sel.contains(x, y + 1);
        if border {
            blended(c, seq![0u8, 255, 255, 255], BlendMode::Normal, 220)
        } else {
            c
        }
    } else {
        blended(c, seq![0u8, 0, 0, 255], BlendMode::Normal, 120)
    }
}

/// The colour the composite shows at canvas point `(x, y)`.
pub open spec fn composite_of(s: StoreModel, x: int, y: int) -> Seq<u8> {
    selection_overlay(
        s.selection,
        s.canvas_width as int,
        s.canvas_height as int,
        x,
        y,
        layers_over(s.layers, s.layers.len() as int, x, y, grid_color(x, y)),
    )
}

/// The rectangle to redraw, clamped to the canvas, as `(x_start, x_end,
/// y_start, y_end)`; the whole canvas where none is given.
pub open spec fn redraw_bounds(s: StoreModel, rect: Option<(u32, u32, u32, u32)>) -> (int, int, int, int) {
    let w = s.canvas_width as int;
    let h = s.canvas_height as int;
    match rect {
        Some((rx, ry, rw, rh)) => (
            if rx < w { rx as int } else { w },
            if rx + rw < w { rx + rw } else { w },
            if ry < h { ry as int } else { h },
            if ry + rh < h { ry + rh } else { h },
        ),
        None => (0, w, 0, h),
    }
}

/// Column of the pixel that byte `i` of a `w`-wide buffer belongs to.
pub open spec fn byte_col(i: int, w: int) -> int {
    (i / 4) % w
}

/// Row of the pixel that byte `i` of a `w`-wide buffer belongs to.
pub open spec fn byte_row(i: int, w: int) -> int {
    (i / 4) / w
}

/// Whether redrawing `rect` rewrites byte `i` of the composite buffer: the rows
/// of the rectangle must fit in the buffer, and the byte's pixel lie inside.
pub open spec fn redraws_byte(s: StoreModel, rect: Option<(u32, u32, u32, u32)>, i: int) -> bool {
    let (xs, xe, ys, ye) = redraw_bounds(s, rect);
    let w = s.canvas_width as int;
    &&& ys * w * 4 < ye * w * 4
    &&& ye * w * 4 <= s.composite_cache.len()
    &&& ys <= byte_row(i, w) < ye
    &&& xs <= byte_col(i, w) < xe
}

/// The composite buffer after redrawing `rect`.
pub open spec fn redrawn_cache(s: StoreModel, rect: Option<(u32, u32, u32, u32)>) -> Seq<u8> {
    let w = s.canvas_width as int;
    Seq::new(
        s.composite_cache.len(),
        |i: int|
            if redraws_byte(s, rect, i) {
                composite_of(s, byte_col(i, w), byte_row(i, w))[i % 4]
            } else {
                s.composite_cache[i]
            },
    )
}

proof fn lemma_byte_pixel(i: int, w: int, x: int, y: int)
    requires
        w > 0,
        0 <= x < w,
        0 <= y,
        (y * w + x) * 4 <= i < (y * w + x) * 4 + 4,
    ensures
        byte_col(i, w) == x,
        byte_row(i, w) == y,
        i % 4 == i - (y * w + x) * 4,
{
    assert(i / 4 == y * w + x);
    vstd::arithmetic::div_mod::lemma_fundamental_div_mod_converse(i / 4, w, y, x);
}

proof fn lemma_pixel_of_byte(i: int, w: int)
    requires
        w > 0,
        0 <= i,
    ensures
        0 <= byte_col(i, w) < w,
        0 <= byte_row(i, w),
        (byte_row(i, w) * w + byte_col(i, w)) * 4 <= i < (byte_row(i, w) * w + byte_col(i, w)) * 4
            + 4,
{
    let p = i / 4;
    vstd::arithmetic::div_mod::lemma_fundamental_div_mod(p, w);
    assert(p == w * (p / w) + p % w);
    assert(p / w >= 0) by (nonlinear_arith)
        requires
            p >= 0,
            w > 0,
    ;
    assert(w * (p / w) == (p / w) * w) by (nonlinear_arith);
}

/// The colour of the layers and the selection overlay at canvas point `(tx, ty)`.
pub fn composite_pixel_at(store: &PixelStore, tx: u32, ty: u32) -> (c: [u8; 4])
    requires
        store@.wf(),
        tx < store.canvas_width,
        ty < store.canvas_height,
    ensures
        c@ == composite_of(store@, tx as int, ty as int),
{
    proof {
        assert(tx >> 3 == tx / 8) by (bit_vector);
        assert(ty >> 3 == ty / 8) by (bit_vector);
    }
    let mut fc: [u8; 4] = if ((tx >> 3) + (ty >> 3)) % 2 == 0 {
        [45, 45, 45, 255]
    } else {
        [30, 30, 30, 255]
    };
    proof {
        assert(fc@ =~= grid_color(tx as int, ty as int));
    }
    let ghost base = fc@;
    let n = store.layers.len();
    for i in 0..n
        invariant
            n == store.layers@.len(),
            store@.wf(),
            base == grid_color(tx as int, ty as int),
            fc@ == layers_over(store@.layers, i as int, tx as int, ty as int, base),
    {
        let layer = &store.layers[i];
        assert(store@.layers[i as int] == layer@);
        if layer.visible {
            let lx = tx as i64 - layer.offset_x as i64;
            let ly = ty as i64 - layer.offset_y as i64;
            if lx >= 0 && lx < layer.width as i64 && ly >= 0 && ly < layer.height as i64 {
                assert(layer@.wf());
                let src = layer.pixel_at(lx as u32, ly as u32);
                if src.a > 0 {
                    fc = blend_pixels(fc, [src.r, src.g, src.b, src.a], layer.blend_mode, layer.opacity);
                    proof {
                        let s4 = [src.r, src.g, src.b, src.a];
                        assert(s4@ =~= color_bytes(src));
                    }
                }
            }
        }
    }
    let w = store.canvas_width;
    let h = store.canvas_height;
    if store.selection.is_active {
        if store.selection.contains(tx, ty) {
            let is_border = tx == 0 || ty == 0 || tx == w - 1 || ty == h - 1 || !store.selection.contains(tx.saturating_sub(1), ty) || (tx < u32::MAX
                && !store.selection.contains(tx + 1, ty)) || !store.selection.contains(
                tx,
                ty.saturating_sub(1),
            ) || (ty < u32::MAX && !store.selection.contains(tx, ty + 1));
            proof {
                let sel = store@.selection;
                if tx == u32::MAX {
                    assert(!sel.contains(tx + 1, ty as int));
                }
                if ty == u32::MAX {
                    assert(!sel.contains(tx as int, ty + 1));
                }
            }
            if is_border {
                fc = blend_pixels(fc, [0, 255, 255, 255], BlendMode::Normal, 220);
            }
        } else {
            fc = blend_pixels(fc, [0, 0, 0, 255], BlendMode::Normal, 120);
        }
    }
    proof {
        assert([0u8, 255, 255, 255]@ =~= seq![0u8, 255, 255, 255]);
        assert([0u8, 0, 0, 255]@ =~= seq![0u8, 0, 0, 255]);
    }
    fc
}

/// Recomposites the pixels of `rect` (the whole canvas where none is given)
/// into the composite buffer: the checkerboard, the visible layers from bottom
/// to top, and the selection overlay. Nothing is written where the rows of the
/// rectangle are empty or do not fit in the buffer.
pub fn update_composite_cache(store: &mut PixelStore, rect: Option<(u32, u32, u32, u32)>)
    requires
        old(store)@.wf(),
        old(store).canvas_width * old(store).canvas_height * 4 <= u32::MAX,
        rect matches Some((rx, ry, rw, rh)) ==> rx + rw <= u32::MAX && ry + rh <= u32::MAX,
    ensures
        final(store)@ == (StoreModel {
            composite_cache: redrawn_cache(old(store)@, rect),
            ..old(store)@
        }),
{
    let ghost s0 = store@;
    let w = store.canvas_width;
    let h = store.canvas_height;
    let (rx, ry, rw, rh) = match rect {
        Some(r) => r,
        None => (0, 0, w, h),
    };
    let x_start = if rx < w { rx } else { w };
    let x_end = if rx + rw < w { rx + rw } else { w };
    let y_start = if ry < h { ry } else { h };
    let y_end = if ry + rh < h { ry + rh } else { h };
    proof {
        assert(redraw_bounds(s0, rect) == (x_start as int, x_end as int, y_start as int, y_end as int));
        assert(y_start * w * 4 <= w * h * 4) by (nonlinear_arith)
            requires
                y_start <= h,
        ;
        assert(y_end * w * 4 <= w * h * 4) by (nonlinear_arith)
            requires
                y_end <= h,
        ;
    }
    let full_range_start = (y_start as usize) * (w as usize) * 4;
    let full_range_end = (y_end as usize) * (w as usize) * 4;
    if full_range_start >= full_range_end || full_range_end > store.composite_cache.len() {
        proof {
            assert forall|i: int| 0 <= i < s0.composite_cache.len() implies !redraws_byte(s0, rect, i) by {
            }
            assert(redrawn_cache(s0, rect) =~= s0.composite_cache);
        }
        return;
    }
    assert(w > 0) by {
        if w == 0 {
            assert(y_start * w * 4 == 0);
            assert(y_end * w * 4 == 0);
        }
    }
    let ghost target = redrawn_cache(s0, rect);
    for ty in y_start..y_end
        invariant
            s0 == old(store)@,
            store@ == (StoreModel { composite_cache: store@.composite_cache, ..s0 }),
            store@.wf(),
            w == s0.canvas_width,
            h == s0.canvas_height,
            w > 0,
            w * h * 4 <= u32::MAX,
            redraw_bounds(s0, rect) == (x_start as int, x_end as int, y_start as int, y_end as int),
            x_start <= x_end <= w,
            y_end <= h,
            y_start <= y_end,
            y_start * w * 4 < y_end * w * 4,
            y_end * w * 4 <= s0.composite_cache.len(),
            target == redrawn_cache(s0, rect),
            store.composite_cache@.len() == s0.composite_cache.len(),
            forall|i: int|
                0 <= i < s0.composite_cache.len() ==> #[trigger] store.composite_cache@[i] == if redraws_byte(
                    s0,
                    rect,
                    i,
                ) && byte_row(i, w as int) < ty {
                    target[i]
                } else {
                    s0.composite_cache[i]
                },
    {
        proof {
            assert(ty * w * 4 + w * 4 <= y_end * w * 4) by (nonlinear_arith)
                requires
                    ty < y_end,
            ;
            assert(ty * w * 4 + w * 4 <= w * h * 4) by (nonlinear_arith)
                requires
                    ty < h,
            ;
        }
        let row_base = (ty as usize) * (w as usize) * 4;
        for tx in x_start..x_end
            invariant
                s0 == old(store)@,
                store@ == (StoreModel { composite_cache: store@.composite_cache, ..s0 }),
                store@.wf(),
                w == s0.canvas_width,
                w > 0,
                y_start <= ty < y_end,
                redraw_bounds(s0, rect) == (x_start as int, x_end as int, y_start as int, y_end as int),
                x_start <= x_end <= w,
                y_start * w * 4 < y_end * w * 4,
                y_end * w * 4 <= s0.composite_cache.len(),
                row_base == ty * w * 4,
                row_base + w * 4 <= s0.composite_cache.len(),
                row_base + w * 4 <= u32::MAX,
                target == redrawn_cache(s0, rect),
                store.composite_cache@.len() == s0.composite_cache.len(),
                forall|i: int|
                    0 <= i < s0.composite_cache.len() ==> #[trigger] store.composite_cache@[i] == if redraws_byte(
                        s0,
                        rect,
                        i,
                    ) && (byte_row(i, w as int) < ty || (byte_row(i, w as int) == ty && byte_col(
                        i,
                        w as int,
                    ) < tx)) {
                        target[i]
                    } else {
                        s0.composite_cache[i]
                    },
        {
            let fc = composite_pixel_at(store, tx, ty);
            let idx = row_base + (tx as usize) * 4;
            let ghost before = store.composite_cache@;
            store.composite_cache.set(idx, fc[0]);
            store.composite_cache.set(idx + 1, fc[1]);
            store.composite_cache.set(idx + 2, fc[2]);
            store.composite_cache.set(idx + 3, fc[3]);
            proof {
                assert(idx == (ty * w + tx) * 4) by (nonlinear_arith)
                    requires
                        idx == row_base + tx * 4,
                        row_base == ty * w * 4,
                ;
                assert forall|i: int| 0 <= i < s0.composite_cache.len() implies #[trigger] store.composite_cache@[i]
                    == if redraws_byte(s0, rect, i) && (byte_row(i, w as int) < ty || (byte_row(
                    i,
                    w as int,
                ) == ty && byte_col(i, w as int) < tx + 1)) {
                    target[i]
                } else {
                    s0.composite_cache[i]
                } by {
                    if idx <= i < idx + 4 {
                        lemma_byte_pixel(i, w as int, tx as int, ty as int);
                        assert(redraws_byte(s0, rect, i));
                    } else {
                        lemma_pixel_of_byte(i, w as int);
                        if byte_row(i, w as int) == ty && byte_col(i, w as int) == tx {
                            assert(false);
                        }
                    }
                }
            }
        }
        proof {
            assert forall|i: int| 0 <= i < s0.composite_cache.len() implies #[trigger] store.composite_cache@[i]
                == if redraws_byte(s0, rect, i) && byte_row(i, w as int) < ty + 1 {
                target[i]
            } else {
                s0.composite_cache[i]
            } by {
            }
        }
    }
    proof {
        assert forall|i: int| 0 <= i < s0.composite_cache.len() implies #[trigger] store.composite_cache@[i]
            == target[i] by {
        }
        assert(store.composite_cache@ =~= target);
    }
}

proof fn lemma_weighted_range(f: int, g: int, a: int)
    requires
        0 <= f <= 255,
        0 <= g <= 255,
        0 <= a <= 255,
    ensures
        0 <= (f * a + g * (255 - a)) / 255 <= 255,
{
    assert(0 <= (f * a + g * (255 - a)) / 255 <= 255) by (nonlinear_arith)
        requires
            0 <= f <= 255,
            0 <= g <= 255,
            0 <= a <= 255,
    ;
}

proof fn lemma_layers_over_prefix(ls: Seq<LayerModel>, n: int, x: int, y: int, base: Seq<u8>)
    requires
        ls.len() > 0,
        n <= ls.len() - 1,
    ensures
        layers_over(ls, n, x, y, base) == layers_over(ls.drop_last(), n, x, y, base),
    decreases n,
{
    if n > 0 {
        lemma_layers_over_prefix(ls, n - 1, x, y, base);
        assert(ls[n - 1] == ls.drop_last()[n - 1]);
    }
}

/// Without an active selection, the composite of a canvas point is the top
/// layer's pixel there blended, with that layer's blend mode and its own
/// opacity, over the composite of the layers beneath it; a hidden top layer
/// or one that does not cover the point changes nothing.
pub proof fn law_composite_stacks(s: StoreModel, x: int, y: int)
    requires
        !s.selection.is_active,
        s.layers.len() > 0,
    ensures
        ({
            let top = s.layers.last();
            let below = composite_of(StoreModel { layers: s.layers.drop_last(), ..s }, x, y);
            composite_of(s, x, y) == if top.props.visible {
                match canvas_pixel(top, x, y) {
                    Some(c) => blended(below, color_bytes(c), top.props.blend_mode, top.props.opacity),
                    None => below,
                }
            } else {
                below
            }
        }),
{
    let n = s.layers.len() as int;
    lemma_layers_over_prefix(s.layers, n - 1, x, y, grid_color(x, y));
    let top = s.layers.last();
    match canvas_pixel(top, x, y) {
        Some(c) => {
            if c.a == 0 {
                assert(coverage(c.a, top.props.opacity) == 0);
            }
        },
        None => {},
    }
}

/// A canvas point covered by a single visible Normal-mode layer, without an
/// active selection, shows the layer's pixel over the checkerboard square
/// (grey 45 on even squares, 30 on odd ones) weighted by the pixel's coverage:
/// its alpha scaled by the layer's opacity. A pixel of zero coverage leaves the
/// checkerboard showing.
pub proof fn law_composite_single_layer(s: StoreModel, x: int, y: int)
    requires
        !s.selection.is_active,
        s.layers.len() == 1,
        s.layers[0].props.visible,
        s.layers[0].props.blend_mode == BlendMode::Normal,
        canvas_pixel(s.layers[0], x, y) is Some,
    ensures
        ({
            let c = canvas_pixel(s.layers[0], x, y)->0;
            let a = (c.a * s.layers[0].props.opacity) / 255;
            let g: int = if ((x / 8) + (y / 8)) % 2 == 0 {
                45
            } else {
                30
            };
            let r = composite_of(s, x, y);
            &&& r.len() == 4
            &&& r[3] == 255
            &&& a == 0 ==> r[0] == g && r[1] == g && r[2] == g
            &&& a > 0 ==> r[0] == (c.r * a + g * (255 - a)) / 255 && r[1] == (c.g * a + g * (255
                - a)) / 255 && r[2] == (c.b * a + g * (255 - a)) / 255
        }),
{
    law_composite_stacks(s, x, y);
    let below = StoreModel { layers: s.layers.drop_last(), ..s };
    assert(below.layers.len() == 0);
    assert(composite_of(below, x, y) == grid_color(x, y));
    let c = canvas_pixel(s.layers[0], x, y)->0;
    let o = s.layers[0].props.opacity;
    let a = (c.a * o) / 255;
    assert(0 <= a <= 255) by (nonlinear_arith)
        requires
            a == (c.a * o) / 255,
            0 <= c.a <= 255,
            0 <= o <= 255,
    ;
    let g: int = if ((x / 8) + (y / 8)) % 2 == 0 {
        45
    } else {
        30
    };
    lemma_weighted_range(c.r as int, g, a);
    lemma_weighted_range(c.g as int, g, a);
    lemma_weighted_range(c.b as int, g, a);
}

} // verus!
