use vstd::prelude::*;
use crate::history::diff::PixelDiff;
use crate::history::patch::{ActionPatch, PatchAction, PixelDiffPatch, global_id};
use crate::model::color::{Color, color_at, transparent_color};
use crate::model::error::CoreError;
use crate::model::layer::{ChunkModel, Layer, LayerModel, LayerProps, chunks_pixel, has_chunk, chunk_index, lemma_chunk_index_unique};
use crate::tools::bucket::{changed_tiles, push_tile_changes, store_tiles_addressable, tile_pixel_diff, tiles_addressable};
use crate::tools::fill::tile_data;
use crate::model::selection::{SelectionData, SelectionModel, lemma_grid_index};
use crate::model::store::{PixelStore, StoreModel};

verus! {

// ------------------------------------------------------------ lifting pixels
/// Layer pixel `(cx, cy)` is lifted: its canvas point is selected and it is
/// not fully transparent.
pub open spec fn lifted_at(l: LayerModel, sel: SelectionModel, cx: int, cy: int) -> Seq<(u32, u32, Color)> {
    let px = cx + l.props.offset_x;
    let py = cy + l.props.offset_y;
    let c = l.pixel(cx as u32, cy as u32);
    if px >= 0 && py >= 0 && sel.contains(px, py) && c.a > 0 {
        seq![(cx as u32, cy as u32, c)]
    } else {
        Seq::empty()
    }
}

/// The lifted pixels among the first `n` of row `cy`, left to right.
pub open spec fn row_lifted(l: LayerModel, sel: SelectionModel, cy: int, n: int) -> Seq<(u32, u32, Color)>
    decreases n,
{
    if n <= 0 {
        Seq::empty()
    } else {
        row_lifted(l, sel, cy, n - 1) + lifted_at(l, sel, n - 1, cy)
    }
}

/// The lifted pixels of the first `rows` rows, row by row.
pub open spec fn lifted(l: LayerModel, sel: SelectionModel, rows: int) -> Seq<(u32, u32, Color)>
    decreases rows,
{
    if rows <= 0 {
        Seq::empty()
    } else {
        lifted(l, sel, rows - 1) + row_lifted(l, sel, rows - 1, l.props.width as int)
    }
}

proof fn lemma_concat_contains(a: Seq<(u32, u32, Color)>, b: Seq<(u32, u32, Color)>, t: (u32, u32, Color))
    ensures
        (a + b).contains(t) <==> a.contains(t) || b.contains(t),
{
    if a.contains(t) {
        let i = choose|i: int| 0 <= i < a.len() && a[i] == t;
        assert((a + b)[i] == t);
    }
    if b.contains(t) {
        let i = choose|i: int| 0 <= i < b.len() && b[i] == t;
        assert((a + b)[a.len() + i] == t);
    }
    if (a + b).contains(t) {
        let i = choose|i: int| 0 <= i < (a + b).len() && (a + b)[i] == t;
        if i < a.len() {
            assert(a[i] == t);
        } else {
            assert(b[i - a.len()] == t);
        }
    }
}

/// Layer pixel `(cx, cy)` qualifies for lifting: its canvas point is selected
/// and its alpha is not zero.
spec fn liftable(l: LayerModel, sel: SelectionModel, cx: int, cy: int) -> bool {
    let px = cx + l.props.offset_x;
    let py = cy + l.props.offset_y;
    px >= 0 && py >= 0 && sel.contains(px, py) && l.pixel(cx as u32, cy as u32).a > 0
}

proof fn lemma_row_lifted_mem(l: LayerModel, sel: SelectionModel, cy: int, n: int, t: (u32, u32, Color))
    requires
        0 <= cy <= u32::MAX,
        n <= u32::MAX + 1,
    ensures
        row_lifted(l, sel, cy, n).contains(t) <==> (t.0 < n && t.1 == cy && t.2 == l.pixel(t.0, t.1)
            && liftable(l, sel, t.0 as int, cy)),
    decreases n,
{
    if n > 0 {
        lemma_row_lifted_mem(l, sel, cy, n - 1, t);
        lemma_concat_contains(row_lifted(l, sel, cy, n - 1), lifted_at(l, sel, n - 1, cy), t);
        let la = lifted_at(l, sel, n - 1, cy);
        if la.contains(t) {
            assert(la.len() == 1 && la[0] == t);
        }
        if t.0 == n - 1 && t.1 == cy && t.2 == l.pixel(t.0, t.1) && liftable(l, sel, t.0 as int, cy) {
            assert(la[0] == t);
        }
    }
}

proof fn lemma_lifted_mem(l: LayerModel, sel: SelectionModel, rows: int, t: (u32, u32, Color))
    requires
        rows <= u32::MAX + 1,
    ensures
        lifted(l, sel, rows).contains(t) <==> (t.1 < rows && t.0 < l.props.width && t.2 == l.pixel(t.0, t.1)
            && liftable(l, sel, t.0 as int, t.1 as int)),
    decreases rows,
{
    if rows > 0 {
        lemma_lifted_mem(l, sel, rows - 1, t);
        lemma_row_lifted_mem(l, sel, rows - 1, l.props.width as int, t);
        lemma_concat_contains(lifted(l, sel, rows - 1), row_lifted(l, sel, rows - 1, l.props.width as int), t);
    }
}

/// The move tool lifts exactly the layer pixels whose canvas point is selected
/// and whose alpha is not zero, half-transparent ones included, each with its
/// colour: a triple is among the lifted pixels if and only if it names a pixel
/// of the layer, carries that pixel's colour, and the pixel qualifies.
pub proof fn law_lift_selected(l: LayerModel, sel: SelectionModel, t: (u32, u32, Color))
    ensures
        lifted(l, sel, l.props.height as int).contains(t) <==> {
            let px = t.0 + l.props.offset_x;
            let py = t.1 + l.props.offset_y;
            &&& t.0 < l.props.width
            &&& t.1 < l.props.height
            &&& t.2 == l.pixel(t.0, t.1)
            &&& px >= 0
            &&& py >= 0
            &&& sel.contains(px, py)
            &&& t.2.a > 0
        },
{
    lemma_lifted_mem(l, sel, l.props.height as int, t);
}

/// The canvas coordinates of every pixel of the layer fit in `i32`.
pub open spec fn layer_fits(l: LayerModel) -> bool {
    &&& l.props.width <= i32::MAX
    &&& l.props.height <= i32::MAX
    &&& l.props.offset_x + l.props.width <= 0x8000_0000
    &&& l.props.offset_y + l.props.height <= 0x8000_0000
}

/// The move tool: drags the active layer, or with an active selection the
/// selected pixels of it together with the selection.
pub struct MoveTool {
    pub start_pos: Option<(i32, i32)>,
    pub layer_backup: Option<Layer>,
    pub sel_backup: Option<SelectionData>,
    pub extracted_pixels: Vec<(u32, u32, Color)>,
    pub needs_redraw: bool,
}

// ------------------------------------------------------------ moving lifted pixels
/// The last of the first `n` lifted pixels that, moved by `(dx, dy)`, lands on
/// `(x, y)` of a `w` by `h` layer.
pub open spec fn landing(es: Seq<(u32, u32, Color)>, n: int, dx: int, dy: int, w: int, h: int, x: int, y: int) -> Option<
    Color,
>
    decreases n,
{
    if n <= 0 {
        None
    } else {
        let e = es[n - 1];
        let nx = e.0 + dx;
        let ny = e.1 + dy;
        if nx == x && ny == y && 0 <= nx < w && 0 <= ny < h {
            Some(e.2)
        } else {
            landing(es, n - 1, dx, dy, w, h, x, y)
        }
    }
}

/// One of the first `n` lifted pixels was taken from `(x, y)`.
pub open spec fn lifted_from(es: Seq<(u32, u32, Color)>, n: int, x: int, y: int) -> bool {
    exists|j: int| 0 <= j < n && #[trigger] es[j].0 == x && es[j].1 == y
}

/// Pixel `(x, y)` of tiles `base` once the first `n` lifted pixels are cleared.
pub open spec fn erased_pixel(base: Seq<ChunkModel>, es: Seq<(u32, u32, Color)>, n: int, x: u32, y: u32) -> Color {
    if lifted_from(es, n, x as int, y as int) {
        transparent_color()
    } else {
        chunks_pixel(base, x, y)
    }
}

/// Pixel `(x, y)` of tiles `base` once every lifted pixel is cleared and then
/// the first `n` are pasted moved by `(dx, dy)` on a `w` by `h` layer.
pub open spec fn moved_pixel(
    base: Seq<ChunkModel>,
    es: Seq<(u32, u32, Color)>,
    n: int,
    dx: int,
    dy: int,
    w: int,
    h: int,
    x: u32,
    y: u32,
) -> Color {
    match landing(es, n, dx, dy, w, h, x as int, y as int) {
        Some(c) => c,
        None => erased_pixel(base, es, es.len() as int, x, y),
    }
}

/// The first `n` lifted pixels lie on a `w` by `h` layer.
pub open spec fn all_on(es: Seq<(u32, u32, Color)>, n: int, w: int, h: int) -> bool {
    forall|j: int| 0 <= j < n ==> #[trigger] es[j].0 < w && es[j].1 < h
}

/// `m` is the mask of `sel` moved by `(dx, dy)`, what moves off the canvas dropped.
pub open spec fn mask_shifted(sel: SelectionModel, m: Seq<bool>, dx: int, dy: int) -> bool {
    &&& m.len() == sel.width * sel.height
    &&& forall|nx: int, ny: int|
        0 <= nx < sel.width && 0 <= ny < sel.height ==> #[trigger] m[ny * sel.width + nx] == (0 <= nx - dx < sel.width
            && 0 <= ny - dy < sel.height && sel.mask[(ny - dy) * sel.width + (nx - dx)])
}

/// The mask of `sel` moved by `(dx, dy)`.
fn shift_mask(sel: &SelectionData, dx: i32, dy: i32) -> (m: Vec<bool>)
    requires
        sel@.wf(),
        sel.width * sel.height <= u32::MAX,
    ensures
        mask_shifted(sel@, m@, dx as int, dy as int),
{
    let w = sel.width;
    let h = sel.height;
    let mut m: Vec<bool> = Vec::new();
    let mut ny: u32 = 0;
    while ny < h
        invariant
            sel@.wf(),
            w == sel.width,
            h == sel.height,
            w * h <= u32::MAX,
            ny <= h,
            m@.len() == ny * w,
            forall|qx: int, qy: int|
                0 <= qx < w && 0 <= qy < ny ==> #[trigger] m@[qy * w + qx] == (0 <= qx - dx < w && 0 <= qy - dy < h
                    && sel@.mask[(qy - dy) * w + (qx - dx)]),
        decreases h - ny,
    {
        let mut nx: u32 = 0;
        while nx < w
            invariant
                sel@.wf(),
                w == sel.width,
                h == sel.height,
                w * h <= u32::MAX,
                ny < h,
                nx <= w,
                m@.len() == ny * w + nx,
                forall|qx: int, qy: int|
                    0 <= qx < w && 0 <= qy < ny ==> #[trigger] m@[qy * w + qx] == (0 <= qx - dx < w && 0 <= qy - dy
                        < h && sel@.mask[(qy - dy) * w + (qx - dx)]),
                forall|qx: int|
                    0 <= qx < nx ==> #[trigger] m@[ny * w + qx] == (0 <= qx - dx < w && 0 <= ny - dy < h
                        && sel@.mask[(ny - dy) * w + (qx - dx)]),
            decreases w - nx,
        {
            let sx = nx as i64 - dx as i64;
            let sy = ny as i64 - dy as i64;
            let v = if sx >= 0 && sx < w as i64 && sy >= 0 && sy < h as i64 {
                proof {
                    lemma_grid_index(sx as int, sy as int, w as int, h as int);
                }
                sel.mask[(sy as usize) * (w as usize) + (sx as usize)]
            } else {
                false
            };
            proof {
                lemma_grid_index(nx as int, ny as int, w as int, h as int);
            }
            let ghost before = m@;
            m.push(v);
            proof {
                assert forall|qx: int, qy: int|
                    0 <= qx < w && 0 <= qy < ny implies #[trigger] m@[qy * w + qx] == (0 <= qx - dx < w && 0 <= qy - dy
                        < h && sel@.mask[(qy - dy) * w + (qx - dx)]) by {
                    lemma_grid_index(qx, qy, w as int, h as int);
                    assert(qy * w + qx < (qy + 1) * w);
                    assert((qy + 1) * w <= ny * w) by (nonlinear_arith)
                        requires
                            qy + 1 <= ny,
                            0 <= w,
                    ;
                    assert(m@[qy * w + qx] == before[qy * w + qx]);
                }
                assert forall|qx: int|
                    0 <= qx < nx + 1 implies #[trigger] m@[ny * w + qx] == (0 <= qx - dx < w && 0 <= ny - dy < h
                        && sel@.mask[(ny - dy) * w + (qx - dx)]) by {
                    if qx < nx {
                        assert(m@[ny * w + qx] == before[ny * w + qx]);
                    }
                }
            }
            nx = nx + 1;
        }
        proof {
            assert((ny + 1) * w == ny * w + w) by (nonlinear_arith);
            assert forall|qx: int, qy: int|
                0 <= qx < w && 0 <= qy < ny + 1 implies #[trigger] m@[qy * w + qx] == (0 <= qx - dx < w && 0 <= qy - dy
                    < h && sel@.mask[(qy - dy) * w + (qx - dx)]) by {
                if qy == ny {
                } else {
                }
            }
        }
        ny = ny + 1;
    }
    assert(h * w == w * h) by (nonlinear_arith);
    m
}

/// Clears the lifted pixels of `layer`, its tiles first put back to `base`,
/// and pastes them moved by `(dx, dy)` where they land on the layer; fails at
/// the first lifted pixel off the layer.
fn move_lifted(layer: &mut Layer, base: &Layer, es: &Vec<(u32, u32, Color)>, dx: i32, dy: i32) -> (r: Result<(), CoreError>)
    requires
        old(layer)@.wf(),
        base@.wf(),
        old(layer).width <= i32::MAX,
        old(layer).height <= i32::MAX,
        forall|j: int| 0 <= j < es@.len() ==> (#[trigger] es@[j]).0 <= i32::MAX && es@[j].1 <= i32::MAX
            && i32::MIN <= es@[j].0 + dx <= i32::MAX && i32::MIN <= es@[j].1 + dy <= i32::MAX,
    ensures
        final(layer)@.wf(),
        final(layer)@.props == old(layer)@.props,
        all_on(es@, es@.len() as int, old(layer).width as int, old(layer).height as int) ==> r is Ok && forall|px: u32, py: u32|
            #[trigger] final(layer)@.pixel(px, py) == moved_pixel(
                base@.chunks,
                es@,
                es@.len() as int,
                dx as int,
                dy as int,
                old(layer).width as int,
                old(layer).height as int,
                px,
                py,
            ),
        !all_on(es@, es@.len() as int, old(layer).width as int, old(layer).height as int) ==> (r matches Err(
            CoreError::OutOfBounds,
        )) && exists|k: int|
            0 <= k < es@.len() && all_on(es@, k, old(layer).width as int, old(layer).height as int) && !(es@[k].0
                < old(layer).width && es@[k].1 < old(layer).height) && forall|px: u32, py: u32| #[trigger]
                final(layer)@.pixel(px, py) == erased_pixel(base@.chunks, es@, k, px, py),
{
    let ghost w = layer.width as int;
    let ghost h = layer.height as int;
    let ghost props = layer@.props;
    let copy = base.clone();
    layer.chunks = copy.chunks;
    assert(layer@.chunks == base@.chunks);
    let n = es.len();
    let mut k: usize = 0;
    while k < n
        invariant
            n == es@.len(),
            k <= n,
            layer@.wf(),
            layer@.props == props,
            props == old(layer)@.props,
            w == layer.width,
            h == layer.height,
            w == old(layer).width,
            h == old(layer).height,
            all_on(es@, k as int, w, h),
            forall|px: u32, py: u32| #[trigger] layer@.pixel(px, py) == erased_pixel(base@.chunks, es@, k as int, px, py),
        decreases n - k,
    {
        let (cx, cy, _c) = es[k];
        let ghost before = layer@;
        let res = layer.set_pixel(cx, cy, Color::transparent());
        if res.is_err() {
            assert(!before.in_bounds(cx as int, cy as int));
            assert(layer@ == before);
            assert(!(es@[k as int].0 < w && es@[k as int].1 < h));
            assert(!all_on(es@, n as int, w, h));
            return res;
        }
        proof {
            assert forall|px: u32, py: u32| #[trigger] layer@.pixel(px, py) == erased_pixel(base@.chunks, es@, k + 1, px, py) by {
                if px == cx && py == cy {
                    assert(es@[k as int].0 == px && es@[k as int].1 == py);
                } else {
                    if lifted_from(es@, k + 1, px as int, py as int) {
                        let j = choose|j: int| 0 <= j < k + 1 && #[trigger] es@[j].0 == px as int && es@[j].1 == py as int;
                        assert(j != k);
                    }
                }
            }
        }
        k = k + 1;
    }
    let mut k: usize = 0;
    while k < n
        invariant
            n == es@.len(),
            k <= n,
            layer@.wf(),
            layer@.props == props,
            w == layer.width,
            h == layer.height,
            w <= i32::MAX,
            h <= i32::MAX,
            all_on(es@, n as int, w, h),
            forall|j: int| 0 <= j < es@.len() ==> (#[trigger] es@[j]).0 <= i32::MAX && es@[j].1 <= i32::MAX
                && i32::MIN <= es@[j].0 + dx <= i32::MAX && i32::MIN <= es@[j].1 + dy <= i32::MAX,
            forall|px: u32, py: u32| #[trigger]
                layer@.pixel(px, py) == moved_pixel(base@.chunks, es@, k as int, dx as int, dy as int, w, h, px, py),
        decreases n - k,
    {
        let (cx, cy, c) = es[k];
        let new_cx = cx as i32 + dx;
        let new_cy = cy as i32 + dy;
        if new_cx >= 0 && new_cx < layer.width as i32 && new_cy >= 0 && new_cy < layer.height as i32 {
            let _ = layer.set_pixel(new_cx as u32, new_cy as u32, c);
        }
        proof {
            assert forall|px: u32, py: u32| #[trigger]
                layer@.pixel(px, py) == moved_pixel(base@.chunks, es@, k + 1, dx as int, dy as int, w, h, px, py) by {
                assert(es@[k as int] == (cx, cy, c));
            }
        }
        k = k + 1;
    }
    Ok(())
}

/// The canvas shift of a drag from the pressed point `start` to `(x, y)`.
pub open spec fn drag_delta(start: (i32, i32), x: u32, y: u32) -> (int, int) {
    ((x as i32) - start.0, (y as i32) - start.1)
}

/// The arithmetic of a drag to `(x, y)` stays within 32-bit numbers, and the
/// remembered selection covers the store's canvas.
pub open spec fn move_fits(t: MoveTool, s: StoreModel, x: u32, y: u32) -> bool {
    match t.start_pos {
        None => true,
        Some(st) => {
            let d = drag_delta(st, x, y);
            &&& i32::MIN <= d.0 <= i32::MAX
            &&& i32::MIN <= d.1 <= i32::MAX
            &&& t.layer_backup matches Some(b) ==> i32::MIN <= b.offset_x + d.0 <= i32::MAX && i32::MIN <= b.offset_y + d.1
                <= i32::MAX
            &&& forall|j: int|
                0 <= j < t.extracted_pixels@.len() ==> (#[trigger] t.extracted_pixels@[j]).0 <= i32::MAX
                    && t.extracted_pixels@[j].1 <= i32::MAX && i32::MIN <= t.extracted_pixels@[j].0 + d.0 <= i32::MAX
                    && i32::MIN <= t.extracted_pixels@[j].1 + d.1 <= i32::MAX
            &&& t.sel_backup matches Some(sb) ==> sb.width == s.selection.width && sb.height == s.selection.height
                && sb.width * sb.height <= u32::MAX
        },
    }
}

/// What a drag to `(x, y)` does, from tool `t0` and store `s0` to `t1` and `s1`
/// with result `r`. Nothing happens without a pressed point, where the point
/// has not moved, without an active layer or without a remembered selection.
/// Without an active selection the layer is placed at its remembered offset
/// plus the shift. With one, the layer's tiles are put back as remembered,
/// the lifted pixels cleared and pasted at their shifted places, and the
/// selection's mask moved by the shift; a lifted pixel off the layer stops
/// this with an error, the selection untouched.
pub open spec fn move_outcome(t0: MoveTool, s0: StoreModel, x: u32, y: u32, t1: MoveTool, s1: StoreModel, r: Result<(), CoreError>) -> bool {
    let same = r is Ok && t1 == t0 && s1 == s0;
    let redrawn = MoveTool { needs_redraw: true, ..t0 };
    match t0.start_pos {
        None => same,
        Some(st) => {
            let d = drag_delta(st, x, y);
            if d.0 == 0 && d.1 == 0 {
                same
            } else {
                match s0.active_layer_id {
                    None => same,
                    Some(id) => match t0.sel_backup {
                        None => same,
                        Some(sb) => {
                            let ox = match t0.layer_backup {
                                Some(b) => b.offset_x as int,
                                None => 0,
                            };
                            let oy = match t0.layer_backup {
                                Some(b) => b.offset_y as int,
                                None => 0,
                            };
                            let sel_moved = s1.selection.is_active && s1.selection.width == s0.selection.width
                                && s1.selection.height == s0.selection.height && mask_shifted(sb@, s1.selection.mask, d.0, d.1);
                            if !sb.is_active {
                                match s0.find_layer(id) {
                                    None => same,
                                    Some(i) => r is Ok && t1 == redrawn && s1 == (StoreModel {
                                        layers: s0.layers.update(
                                            i,
                                            LayerModel {
                                                props: LayerProps {
                                                    offset_x: (ox + d.0) as i32,
                                                    offset_y: (oy + d.1) as i32,
                                                    ..s0.layers[i].props
                                                },
                                                ..s0.layers[i]
                                            },
                                        ),
                                        ..s0
                                    }),
                                }
                            } else {
                                match s0.find_layer(id) {
                                    None => r is Ok && t1 == redrawn && sel_moved && s1 == (StoreModel {
                                        selection: s1.selection,
                                        ..s0
                                    }),
                                    Some(i) => {
                                        let l = s0.layers[i];
                                        let base = match t0.layer_backup {
                                            Some(b) => b@.chunks,
                                            None => l.chunks,
                                        };
                                        let es = t0.extracted_pixels@;
                                        let w = l.props.width as int;
                                        let h = l.props.height as int;
                                        if all_on(es, es.len() as int, w, h) {
                                            &&& r is Ok
                                            &&& t1 == redrawn
                                            &&& sel_moved
                                            &&& s1 == (StoreModel {
                                                layers: s0.layers.update(i, s1.layers[i]),
                                                selection: s1.selection,
                                                ..s0
                                            })
                                            &&& s1.layers[i].props == l.props
                                            &&& forall|px: u32, py: u32| #[trigger]
                                                s1.layers[i].pixel(px, py) == moved_pixel(
                                                    base,
                                                    es,
                                                    es.len() as int,
                                                    d.0,
                                                    d.1,
                                                    w,
                                                    h,
                                                    px,
                                                    py,
                                                )
                                        } else {
                                            &&& r matches Err(CoreError::OutOfBounds)
                                            &&& t1 == t0
                                            &&& s1 == (StoreModel { layers: s0.layers.update(i, s1.layers[i]), ..s0 })
                                            &&& s1.layers[i].props == l.props
                                            &&& exists|k: int|
                                                0 <= k < es.len() && all_on(es, k, w, h) && !(es[k].0 < w && es[k].1 < h)
                                                    && forall|px: u32, py: u32| #[trigger]
                                                    s1.layers[i].pixel(px, py) == erased_pixel(base, es, k, px, py)
                                        }
                                    },
                                }
                            }
                        },
                    },
                }
            }
        },
    }
}

// ------------------------------------------------------------ the recorded changes
/// The coordinates of the stored tiles, in storage order.
pub open spec fn keys_of(cs: Seq<ChunkModel>) -> Seq<(u32, u32)> {
    cs.map_values(|c: ChunkModel| (c.cx, c.cy))
}

/// The pixels of tile `k` with non-zero alpha among its first `n`, as changes
/// from transparent.
pub open spec fn shown_in_tile(k: (u32, u32), new_data: Seq<u8>, n: int) -> Seq<PixelDiff>
    decreases n,
{
    if n <= 0 {
        Seq::empty()
    } else {
        let prev = shown_in_tile(k, new_data, n - 1);
        let c = color_at(new_data, 4 * (n - 1));
        if c.a > 0 {
            prev.push(tile_pixel_diff(k, n - 1, transparent_color(), c))
        } else {
            prev
        }
    }
}

/// For each of the keys `ks` in turn that has no tile in `b`, the layer tile's
/// pixels with non-zero alpha as changes from transparent.
pub open spec fn shown_tiles(ks: Seq<(u32, u32)>, b: Seq<ChunkModel>, l: Seq<ChunkModel>) -> Seq<PixelDiff>
    decreases ks.len(),
{
    if ks.len() == 0 {
        Seq::empty()
    } else {
        let prev = shown_tiles(ks.drop_last(), b, l);
        let k = ks.last();
        if !has_chunk(b, k.0, k.1) {
            prev + shown_in_tile(k, tile_data(l, k.0, k.1), 4096)
        } else {
            prev
        }
    }
}

/// The pixel changes a drag of lifted pixels made, from the remembered tiles
/// `b` to the layer's tiles `l`: what changed in each remembered tile the
/// layer still stores, then the shown pixels of each tile that is new, both in
/// storage order.
pub open spec fn move_diffs(b: Seq<ChunkModel>, l: Seq<ChunkModel>) -> Seq<PixelDiff> {
    changed_tiles(keys_of(b), b, l) + shown_tiles(keys_of(l), b, l)
}

/// Appends the pixels with non-zero alpha of tile `(cx, cy)` as changes from transparent.
fn push_tile_shown(ds: &mut Vec<PixelDiff>, cx: u32, cy: u32, new_data: &Vec<u8>)
    requires
        new_data@.len() == 16384,
        cx < 67108864,
        cy < 67108864,
    ensures
        final(ds)@ == old(ds)@ + shown_in_tile((cx, cy), new_data@, 4096),
{
    let base_x = cx * 64;
    let base_y = cy * 64;
    let mut i: u32 = 0;
    while i < 4096
        invariant
            i <= 4096,
            new_data@.len() == 16384,
            base_x == cx * 64,
            base_y == cy * 64,
            cx < 67108864,
            cy < 67108864,
            ds@ == old(ds)@ + shown_in_tile((cx, cy), new_data@, i as int),
        decreases 4096 - i,
    {
        let idx = (i * 4) as usize;
        if new_data[idx + 3] > 0 {
            let c = Color::new(new_data[idx], new_data[idx + 1], new_data[idx + 2], new_data[idx + 3]);
            ds.push(PixelDiff { x: base_x + i % 64, y: base_y + i / 64, old_color: Color::transparent(), new_color: c });
        }
        proof {
            assert(color_at(new_data@, 4 * i).a == new_data@[4 * i + 3]);
        }
        i = i + 1;
    }
}

/// The pixel changes between a remembered layer and the current one.
pub(crate) fn collect_move_diffs(backup: &Layer, current: &Layer) -> (ds: Vec<PixelDiff>)
    requires
        backup@.wf(),
        current@.wf(),
        tiles_addressable(backup@.chunks),
        tiles_addressable(current@.chunks),
    ensures
        ds@ == move_diffs(backup@.chunks, current@.chunks),
{
    let ghost bv = backup@.chunks;
    let ghost lv = current@.chunks;
    let mut ds: Vec<PixelDiff> = Vec::new();
    let n = backup.chunks.len();
    let mut idx: usize = 0;
    while idx < n
        invariant
            n == backup.chunks@.len(),
            idx <= n,
            bv == backup@.chunks,
            lv == current@.chunks,
            backup@.wf(),
            current@.wf(),
            tiles_addressable(bv),
            ds@ == changed_tiles(keys_of(bv).take(idx as int), bv, lv),
        decreases n - idx,
    {
        let cx = backup.chunks[idx].cx;
        let cy = backup.chunks[idx].cy;
        assert(bv[idx as int] == backup.chunks@[idx as int]@);
        proof {
            lemma_chunk_index_unique(bv, idx as int);
            assert(keys_of(bv).take(idx + 1).drop_last() =~= keys_of(bv).take(idx as int));
            assert(keys_of(bv).take(idx + 1).last() == (cx, cy));
        }
        match current.find_chunk(cx, cy) {
            Some(j) => {
                assert(lv[j as int] == current.chunks@[j as int]@);
                proof {
                    lemma_chunk_index_unique(lv, j as int);
                }
                push_tile_changes(&mut ds, cx, cy, &backup.chunks[idx].data, &current.chunks[j].data);
            },
            None => {},
        }
        idx = idx + 1;
    }
    assert(keys_of(bv).take(n as int) =~= keys_of(bv));
    let ghost d1 = ds@;
    let m = current.chunks.len();
    let mut idx: usize = 0;
    while idx < m
        invariant
            m == current.chunks@.len(),
            idx <= m,
            bv == backup@.chunks,
            lv == current@.chunks,
            backup@.wf(),
            current@.wf(),
            tiles_addressable(lv),
            ds@ == d1 + shown_tiles(keys_of(lv).take(idx as int), bv, lv),
        decreases m - idx,
    {
        let cx = current.chunks[idx].cx;
        let cy = current.chunks[idx].cy;
        assert(lv[idx as int] == current.chunks@[idx as int]@);
        proof {
            lemma_chunk_index_unique(lv, idx as int);
            assert(keys_of(lv).take(idx + 1).drop_last() =~= keys_of(lv).take(idx as int));
            assert(keys_of(lv).take(idx + 1).last() == (cx, cy));
        }
        let ghost before = ds@;
        match backup.find_chunk(cx, cy) {
            None => {
                push_tile_shown(&mut ds, cx, cy, &current.chunks[idx].data);
            },
            Some(_) => {},
        }
        proof {
            let k2 = keys_of(lv).take(idx + 1);
            assert(d1 + shown_tiles(k2, bv, lv) =~= ds@) by {
                if !has_chunk(bv, cx, cy) {
                    assert(shown_tiles(k2, bv, lv) == shown_tiles(keys_of(lv).take(idx as int), bv, lv) + shown_in_tile(
                        (cx, cy),
                        tile_data(lv, cx, cy),
                        4096,
                    ));
                }
            }
        }
        idx = idx + 1;
    }
    assert(keys_of(lv).take(m as int) =~= keys_of(lv));
    ds
}

/// The patch a finished drag yields, from the remembered layer `b` and
/// selection `sb` to the store `s` whose layer `i` was dragged: without an
/// active selection, an offset change where the offset moved; with one, a
/// document-wide composite of the selection change (where the mask or its
/// activity changed) and the pixel changes (where there are any), or nothing.
pub open spec fn drag_patch(
    b: LayerModel,
    sb: SelectionModel,
    s: StoreModel,
    i: int,
    sel_patch_id: String,
    pixel_patch_id: String,
    patch_id: String,
    r: Result<Option<ActionPatch>, CoreError>,
) -> bool {
    let c = s.layers[i];
    if !sb.is_active {
        if b.props.offset_x == c.props.offset_x && b.props.offset_y == c.props.offset_y {
            r == Ok::<Option<ActionPatch>, CoreError>(None)
        } else {
            r matches Ok(Some(p)) && p.id == patch_id && p.layer_id@ == c.props.id && p.action == PatchAction::LayerOffset(
                crate::history::patch::LayerOffsetPatch {
                    old_offset: (b.props.offset_x, b.props.offset_y),
                    new_offset: (c.props.offset_x, c.props.offset_y),
                },
            )
        }
    } else {
        let sel_changed = sb.mask != s.selection.mask || sb.is_active != s.selection.is_active;
        let ds = move_diffs(b.chunks, c.chunks);
        if !sel_changed && ds.len() == 0 {
            r == Ok::<Option<ActionPatch>, CoreError>(None)
        } else {
            r matches Ok(Some(p)) && p.id == patch_id && p.layer_id@ == global_id() && (p.action matches PatchAction::Composite(cp) && {
                let parts = cp.patches@;
                &&& parts.len() == (if sel_changed { 1int } else { 0int }) + (if ds.len() > 0 { 1int } else { 0int })
                &&& sel_changed ==> parts[0].id == sel_patch_id && parts[0].layer_id@ == global_id() && (parts[0].action matches PatchAction::SelectionChange(sc)
                    && sc.old_sel@ == sb && sc.new_sel@ == s.selection)
                &&& ds.len() > 0 ==> parts.last().id == pixel_patch_id && parts.last().layer_id@ == c.props.id && (parts.last().action matches PatchAction::PixelDiff(
                    d,
                ) && d.diffs@ == ds)
            })
        }
    }
}

/// What ending a drag does, from tool `t0` to `t1` with result `r`: the
/// pressed point, the lifted pixels and the remembered layer are forgotten;
/// without a remembered layer nothing else happens; otherwise the remembered
/// selection is forgotten too and, where the active layer still exists, the
/// patch is the one `drag_patch` describes.
pub open spec fn drag_end(
    t0: MoveTool,
    s: StoreModel,
    sel_patch_id: String,
    pixel_patch_id: String,
    patch_id: String,
    t1: MoveTool,
    r: Result<Option<ActionPatch>, CoreError>,
) -> bool {
    &&& r is Ok
    &&& t1.start_pos is None
    &&& t1.extracted_pixels@.len() == 0
    &&& t1.layer_backup is None
    &&& t1.needs_redraw == t0.needs_redraw
    &&& match (t0.layer_backup, t0.sel_backup) {
        (None, _) => r == Ok::<Option<ActionPatch>, CoreError>(None) && t1.sel_backup == t0.sel_backup,
        (Some(_), None) => r == Ok::<Option<ActionPatch>, CoreError>(None) && t1.sel_backup is None,
        (Some(b), Some(sb)) => t1.sel_backup is None && match s.active_layer_id {
            None => r == Ok::<Option<ActionPatch>, CoreError>(None),
            Some(id) => match s.find_layer(id) {
                None => r == Ok::<Option<ActionPatch>, CoreError>(None),
                Some(i) => drag_patch(b@, sb@, s, i, sel_patch_id, pixel_patch_id, patch_id, r),
            },
        },
    }
}

/// What pressing at `(x, y)` does, from tool `t0` to `t1` with result `r`,
/// the store `s` unchanged: nothing without an active layer; a locked layer
/// is an error; otherwise the tool keeps copies of the layer and the
/// selection, the pressed point and, under an active selection, the lifted
/// pixels.
pub open spec fn press_outcome(t0: MoveTool, s: StoreModel, x: u32, y: u32, t1: MoveTool, r: Result<(), CoreError>) -> bool {
    &&& t1.needs_redraw == t0.needs_redraw
    &&& match s.active_layer_id {
        None => r is Ok && t1 == t0,
        Some(id) => match s.find_layer(id) {
            None => r is Ok && t1 == t0,
            Some(i) => {
                let l = s.layers[i];
                if l.props.locked {
                    (r matches Err(CoreError::LayerLocked)) && t1 == t0
                } else {
                    &&& r is Ok
                    &&& t1.layer_backup matches Some(b) && b@ == l
                    &&& t1.sel_backup matches Some(sb) && sb@ == s.selection
                    &&& t1.start_pos == Some((x as i32, y as i32))
                    &&& t1.extracted_pixels@ == if s.selection.is_active {
                        lifted(l, s.selection, l.props.height as int)
                    } else {
                        Seq::empty()
                    }
                }
            },
        },
    }
}

/// What abandoning a drag does, from tool `t0` and store `s0` to `t1` and
/// `s1`: the active layer gets back its remembered tiles and offset, the
/// selection the remembered one, and the tool forgets the drag.
pub open spec fn cancel_outcome(t0: MoveTool, s0: StoreModel, t1: MoveTool, s1: StoreModel) -> bool {
    &&& t1.start_pos is None
    &&& t1.extracted_pixels@.len() == 0
    &&& t1.layer_backup is None
    &&& t1.sel_backup is None
    &&& t1.needs_redraw
    &&& s1.selection == (match t0.sel_backup {
        Some(sb) => sb@,
        None => s0.selection,
    })
    &&& s1.layers == (match (t0.layer_backup, s0.active_layer_id) {
        (Some(b), Some(id)) => match s0.find_layer(id) {
            Some(i) => s0.layers.update(
                i,
                LayerModel {
                    props: LayerProps { offset_x: b.offset_x, offset_y: b.offset_y, ..s0.layers[i].props },
                    chunks: b@.chunks,
                },
            ),
            None => s0.layers,
        },
        _ => s0.layers,
    })
    &&& s1 == (StoreModel { layers: s1.layers, selection: s1.selection, ..s0 })
}

impl MoveTool {
    pub open spec fn wf(&self) -> bool {
        &&& self.layer_backup matches Some(l) ==> l@.wf()
        &&& self.sel_backup matches Some(s) ==> s@.wf()
    }

    pub fn new() -> (t: MoveTool)
        ensures
            t.wf(),
            t.start_pos is None,
            t.layer_backup is None,
            t.sel_backup is None,
            t.extracted_pixels@.len() == 0,
            !t.needs_redraw,
    {
        MoveTool {
            start_pos: None,
            layer_backup: None,
            sel_backup: None,
            extracted_pixels: Vec::new(),
            needs_redraw: false,
        }
    }

    /// Lifts the selected, non-transparent pixels of `layer` under `sel`, row by row.
    fn lift(layer: &Layer, sel: &SelectionData) -> (v: Vec<(u32, u32, Color)>)
        requires
            layer@.wf(),
            sel@.wf(),
            layer_fits(layer@),
        ensures
            v@ == lifted(layer@, sel@, layer.height as int),
    {
        let w = layer.width;
        let h = layer.height;
        let off_x = layer.offset_x;
        let off_y = layer.offset_y;
        let mut v: Vec<(u32, u32, Color)> = Vec::new();
        let mut cy: u32 = 0;
        while cy < h
            invariant
                layer@.wf(),
                sel@.wf(),
                layer_fits(layer@),
                w == layer.width,
                h == layer.height,
                off_x == layer.offset_x,
                off_y == layer.offset_y,
                cy <= h,
                v@ == lifted(layer@, sel@, cy as int),
            decreases h - cy,
        {
            let ghost v0 = v@;
            let mut cx: u32 = 0;
            while cx < w
                invariant
                    layer@.wf(),
                    sel@.wf(),
                    layer_fits(layer@),
                    w == layer.width,
                    h == layer.height,
                    off_x == layer.offset_x,
                    off_y == layer.offset_y,
                    cy < h,
                    cx <= w,
                    v@ == v0 + row_lifted(layer@, sel@, cy as int, cx as int),
                decreases w - cx,
            {
                let canvas_x = cx as i32 + off_x;
                let canvas_y = cy as i32 + off_y;
                if canvas_x >= 0 && canvas_y >= 0 && sel.contains(canvas_x as u32, canvas_y as u32) {
                    match layer.get_pixel(cx, cy) {
                        Some(color) => {
                            if color.a > 0 {
                                v.push((cx, cy, color));
                            }
                        },
                        None => {},
                    }
                }
                proof {
                    assert(v0 + row_lifted(layer@, sel@, cy as int, cx + 1) =~= v0 + row_lifted(layer@, sel@, cy as int, cx as int)
                        + lifted_at(layer@, sel@, cx as int, cy as int));
                }
                cx = cx + 1;
            }
            proof {
                assert(v0 + row_lifted(layer@, sel@, cy as int, w as int) =~= lifted(layer@, sel@, cy + 1));
            }
            cy = cy + 1;
        }
        v
    }

    /// Drags to canvas point `(x, y)`; see `move_outcome`.
    #[verifier::rlimit(30)]
    pub fn on_pointer_move(&mut self, x: u32, y: u32, store: &mut PixelStore) -> (r: Result<(), CoreError>)
        requires
            old(self).wf(),
            old(store)@.wf(),
            forall|i: int| 0 <= i < old(store)@.layers.len() ==> layer_fits(#[trigger] old(store)@.layers[i]),
            move_fits(*old(self), old(store)@, x, y),
        ensures
            final(self).wf(),
            final(store)@.wf(),
            move_outcome(*old(self), old(store)@, x, y, *final(self), final(store)@, r),
    {
        let (sx, sy) = match self.start_pos {
            Some(p) => p,
            None => {
                return Ok(());
            },
        };
        let dx = x as i32 - sx;
        let dy = y as i32 - sy;
        if dx == 0 && dy == 0 {
            return Ok(());
        }
        let layer_id = match &store.active_layer_id {
            Some(id) => id.clone(),
            None => {
                return Ok(());
            },
        };
        let sel_active = match &self.sel_backup {
            Some(sb) => sb.is_active,
            None => {
                return Ok(());
            },
        };
        let ox = match &self.layer_backup {
            Some(b) => b.offset_x,
            None => 0,
        };
        let oy = match &self.layer_backup {
            Some(b) => b.offset_y,
            None => 0,
        };
        if !sel_active {
            match store.find_layer(layer_id.as_str()) {
                Some(i) => {
                    store.layers[i].offset_x = ox + dx;
                    store.layers[i].offset_y = oy + dy;
                    self.needs_redraw = true;
                    proof {
                        let s0 = old(store)@;
                        assert(store@.layers =~= s0.layers.update(
                            i as int,
                            LayerModel {
                                props: LayerProps {
                                    offset_x: (ox + dx) as i32,
                                    offset_y: (oy + dy) as i32,
                                    ..s0.layers[i as int].props
                                },
                                ..s0.layers[i as int]
                            },
                        ));
                        assert forall|k: int| 0 <= k < store@.layers.len() implies (#[trigger] store@.layers[k]).wf() by {
                            if k != i {
                                assert(store@.layers[k] == s0.layers[k]);
                            }
                        }
                    }
                },
                None => {},
            }
            return Ok(());
        }
        match store.find_layer(layer_id.as_str()) {
            Some(i) => {
                let ghost s0 = store@;
                let mut layer = store.layers.remove(i);
                assert(layer@ == s0.layers[i as int]);
                let res = match &self.layer_backup {
                    Some(b) => move_lifted(&mut layer, b, &self.extracted_pixels, dx, dy),
                    None => {
                        let cur = layer.clone();
                        move_lifted(&mut layer, &cur, &self.extracted_pixels, dx, dy)
                    },
                };
                store.layers.insert(i, layer);
                proof {
                    assert(store@.layers =~= s0.layers.update(i as int, store@.layers[i as int]));
                    assert forall|k: int| 0 <= k < store@.layers.len() implies (#[trigger] store@.layers[k]).wf() by {
                        if k != i {
                            assert(store@.layers[k] == s0.layers[k]);
                        }
                    }
                }
                if res.is_err() {
                    return res;
                }
            },
            None => {},
        }
        let new_mask = match &self.sel_backup {
            Some(sb) => shift_mask(sb, dx, dy),
            None => Vec::new(),
        };
        store.selection.mask = new_mask;
        store.selection.is_active = true;
        self.needs_redraw = true;
        Ok(())
    }

    /// Starts a drag at canvas point `(x, y)` on the active layer: keeps copies
    /// of the layer and the selection and, with an active selection, lifts its
    /// pixels. Nothing happens without an active layer; a locked layer is an
    /// error.
    pub fn on_pointer_down(&mut self, x: u32, y: u32, store: &PixelStore) -> (r: Result<(), CoreError>)
        requires
            old(self).wf(),
            store@.wf(),
            forall|i: int| 0 <= i < store@.layers.len() ==> layer_fits(#[trigger] store@.layers[i]),
        ensures
            final(self).wf(),
            press_outcome(*old(self), store@, x, y, *final(self), r),
    {
        let layer_id = match &store.active_layer_id {
            Some(id) => id.clone(),
            None => {
                return Ok(());
            },
        };
        let i = match store.find_layer(layer_id.as_str()) {
            Some(i) => i,
            None => {
                return Ok(());
            },
        };
        let layer = &store.layers[i];
        assert(layer@ == store@.layers[i as int]);
        if layer.locked {
            return Err(CoreError::LayerLocked);
        }
        self.layer_backup = Some(layer.clone());
        self.sel_backup = Some(store.selection.clone());
        self.start_pos = Some((x as i32, y as i32));
        if store.selection.is_active {
            self.extracted_pixels = MoveTool::lift(layer, &store.selection);
        } else {
            self.extracted_pixels = Vec::new();
        }
        Ok(())
    }

    /// Ends the drag and forgets the lifted pixels; the patches are named
    /// `sel_patch_id` (the selection change), `pixel_patch_id` (the pixel
    /// changes) and `patch_id` (the offset change, or the composite holding
    /// the other two); see `drag_patch`. No patch without a drag in progress or
    /// where the active layer is gone.
    pub fn on_pointer_up(
        &mut self,
        store: &PixelStore,
        sel_patch_id: String,
        pixel_patch_id: String,
        patch_id: String,
    ) -> (r: Result<Option<ActionPatch>, CoreError>)
        requires
            old(self).wf(),
            store@.wf(),
            store_tiles_addressable(store@),
            old(self).layer_backup matches Some(b) ==> tiles_addressable(b@.chunks),
        ensures
            final(self).wf(),
            drag_end(*old(self), store@, sel_patch_id, pixel_patch_id, patch_id, *final(self), r),
    {
        self.start_pos = None;
        self.extracted_pixels = Vec::new();
        let backup = match self.layer_backup.take() {
            Some(b) => b,
            None => {
                return Ok(None);
            },
        };
        let sel_backup = match self.sel_backup.take() {
            Some(s) => s,
            None => {
                return Ok(None);
            },
        };
        let layer_id = match &store.active_layer_id {
            Some(id) => id.clone(),
            None => {
                return Ok(None);
            },
        };
        let i = match store.find_layer(layer_id.as_str()) {
            Some(i) => i,
            None => {
                return Ok(None);
            },
        };
        let current = &store.layers[i];
        assert(current@ == store@.layers[i as int]);
        if !sel_backup.is_active {
            if backup.offset_x == current.offset_x && backup.offset_y == current.offset_y {
                return Ok(None);
            }
            return Ok(
                Some(
                    ActionPatch::new_layer_offset(
                        patch_id,
                        current.id.clone(),
                        (backup.offset_x, backup.offset_y),
                        (current.offset_x, current.offset_y),
                    ),
                ),
            );
        }
        let mut sub_patches: Vec<ActionPatch> = Vec::new();
        let same_mask = sel_backup.mask == store.selection.mask;
        proof {
            if same_mask {
                assert(sel_backup.mask@ =~= store.selection.mask@);
            }
        }
        let sel_changed = !same_mask || sel_backup.is_active != store.selection.is_active;
        if sel_changed {
            sub_patches.push(ActionPatch::new_selection_change(sel_patch_id, sel_backup, store.selection.clone()));
        }
        let ds = collect_move_diffs(&backup, current);
        if ds.len() > 0 {
            sub_patches.push(
                ActionPatch {
                    id: pixel_patch_id,
                    layer_id: current.id.clone(),
                    action: PatchAction::PixelDiff(PixelDiffPatch { diffs: ds }),
                },
            );
        }
        if sub_patches.len() > 0 {
            return Ok(Some(ActionPatch::new_composite(patch_id, sub_patches)));
        }
        Ok(None)
    }

    /// Finishing the tool ends the drag.
    pub fn on_commit(
        &mut self,
        store: &PixelStore,
        sel_patch_id: String,
        pixel_patch_id: String,
        patch_id: String,
    ) -> (r: Result<Option<ActionPatch>, CoreError>)
        requires
            old(self).wf(),
            store@.wf(),
            store_tiles_addressable(store@),
            old(self).layer_backup matches Some(b) ==> tiles_addressable(b@.chunks),
        ensures
            final(self).wf(),
            drag_end(*old(self), store@, sel_patch_id, pixel_patch_id, patch_id, *final(self), r),
    {
        self.on_pointer_up(store, sel_patch_id, pixel_patch_id, patch_id)
    }

    /// Puts back the remembered tiles and offset of the active layer and the
    /// remembered selection, and forgets the drag.
    pub fn on_cancel(&mut self, store: &mut PixelStore)
        requires
            old(self).wf(),
            old(store)@.wf(),
            old(self).sel_backup matches Some(sb) ==> sb.width == old(store).selection.width && sb.height == old(
                store,
            ).selection.height,
        ensures
            final(self).wf(),
            final(store)@.wf(),
            cancel_outcome(*old(self), old(store)@, *final(self), final(store)@),
    {
        match self.layer_backup.take() {
            Some(b) => {
                match &store.active_layer_id {
                    Some(id) => {
                        let idc = id.clone();
                        match store.find_layer(idc.as_str()) {
                            Some(i) => {
                                let ghost s0 = store@;
                                store.layers[i].chunks = b.chunks;
                                store.layers[i].offset_x = b.offset_x;
                                store.layers[i].offset_y = b.offset_y;
                                proof {
                                    assert(store@.layers =~= s0.layers.update(
                                        i as int,
                                        LayerModel {
                                            props: LayerProps {
                                                offset_x: b.offset_x,
                                                offset_y: b.offset_y,
                                                ..s0.layers[i as int].props
                                            },
                                            chunks: b@.chunks,
                                        },
                                    ));
                                    assert forall|k: int| 0 <= k < store@.layers.len() implies (#[trigger] store@.layers[k]).wf() by {
                                        if k != i {
                                            assert(store@.layers[k] == s0.layers[k]);
                                        }
                                    }
                                }
                            },
                            None => {},
                        }
                    },
                    None => {},
                }
            },
            None => {},
        }
        match self.sel_backup.take() {
            Some(sel) => {
                store.selection = sel;
            },
            None => {},
        }
        self.start_pos = None;
        self.extracted_pixels = Vec::new();
        self.needs_redraw = true;
    }

    /// The whole canvas once after something moved on screen, else nothing.
    pub fn take_dirty_rect(&mut self) -> (r: Option<(u32, u32, u32, u32)>)
        ensures
            r == (if old(self).needs_redraw {
                Some((0u32, 0u32, u32::MAX, u32::MAX))
            } else {
                None
            }),
            *final(self) == (MoveTool { needs_redraw: false, ..*old(self) }),
    {
        if self.needs_redraw {
            self.needs_redraw = false;
            Some((0, 0, u32::MAX, u32::MAX))
        } else {
            None
        }
    }
}

} // verus!
