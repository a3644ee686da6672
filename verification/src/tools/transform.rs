use vstd::prelude::*;
use crate::model::color::{Color, transparent_color};
use crate::model::error::CoreError;
use crate::model::layer::{
    CHUNK_BYTES,
    Chunk,
    ChunkModel,
    Layer,
    LayerModel,
    chunk_has_key,
    chunk_index,
    chunks_wf,
    has_chunk,
    lemma_chunk_index_unique,
    lemma_push_blank_chunk,
};
use crate::model::selection::{SelectionData, SelectionModel, lemma_grid_index};
use crate::tools::fill::{backups_view, chunks_wf_keys, key_of, lemma_chunk_frame, tile_data, touched};
use crate::tools::fill_tiles::lemma_key_index;
use crate::tools::fill_tiles::{bbox_holds, bbox_tight};
use crate::tools::move_tool::{layer_fits, collect_move_diffs, move_diffs};
use crate::tools::bucket::{store_tiles_addressable, tiles_addressable};
use crate::history::patch::{ActionPatch, PatchAction, PixelDiffPatch, global_id};
use crate::model::layer::LayerProps;
use crate::model::store::{PixelStore, StoreModel};

verus! {

/// The pixels the transform tool lifts: the canvas box they cover, their
/// colours row by row, and which of them belong to the lifted shape.
#[derive(Clone)]
pub struct ExtractedImage {
    pub min_x: i32,
    pub min_y: i32,
    pub width: u32,
    pub height: u32,
    pub pixels: Vec<Color>,
    pub mask: Vec<bool>,
}

// ------------------------------------------------------------ the box to lift
/// The selected cells of a selection's grid.
pub open spec fn selected_cells(sel: SelectionModel) -> Set<(int, int)> {
    Set::new(|p: (int, int)| 0 <= p.0 < sel.width && 0 <= p.1 < sel.height && sel.mask[p.1 * sel.width + p.0])
}

/// The selected cells before cell `(c, r)` in row-major order.
pub open spec fn scanned(sel: SelectionModel, r: int, c: int) -> Set<(int, int)> {
    Set::new(
        |p: (int, int)|
            0 <= p.0 < sel.width && 0 <= p.1 < sel.height && sel.mask[p.1 * sel.width + p.0] && (p.1 < r || (p.1 == r
                && p.0 < c)),
    )
}

/// The empty box a scan starts from: left, right, top, bottom.
pub open spec fn empty_box() -> (i32, i32, i32, i32) {
    (i32::MAX, i32::MIN, i32::MAX, i32::MIN)
}

/// The canvas box to lift from layer `l`: the bounding box of the selected
/// cells under an active selection (empty where none is selected), else the
/// layer's own area.
pub open spec fn lift_box(l: LayerModel, sel: SelectionModel, b: (i32, i32, i32, i32)) -> bool {
    if sel.is_active {
        bbox_holds(selected_cells(sel), b.0, b.1, b.2, b.3) && bbox_tight(
            selected_cells(sel),
            b.0,
            b.1,
            b.2,
            b.3,
            empty_box(),
        )
    } else {
        b.0 == l.props.offset_x && b.1 == l.props.offset_x + l.props.width - 1 && b.2 == l.props.offset_y && b.3
            == l.props.offset_y + l.props.height - 1
    }
}

/// Cell `(cx, cy)` of a box at `b` belongs to the lifted shape.
pub open spec fn lift_mask_at(sel: SelectionModel, b: (i32, i32, i32, i32), cx: int, cy: int) -> bool {
    !sel.is_active || sel.contains(b.0 + cx, b.2 + cy)
}

/// The colour lifted for cell `(cx, cy)`: the layer's pixel under a shape
/// cell on the layer, else transparent.
pub open spec fn lift_pixel_at(l: LayerModel, sel: SelectionModel, b: (i32, i32, i32, i32), cx: int, cy: int) -> Color {
    let lx = b.0 + cx - l.props.offset_x;
    let ly = b.2 + cy - l.props.offset_y;
    if lift_mask_at(sel, b, cx, cy) && l.in_bounds(lx, ly) {
        l.pixel(lx as u32, ly as u32)
    } else {
        transparent_color()
    }
}

/// `img` holds, for the box `b`, the shape and colours lifted from `l`.
pub open spec fn image_of(img: ExtractedImage, l: LayerModel, sel: SelectionModel, b: (i32, i32, i32, i32)) -> bool {
    let w = b.1 - b.0 + 1;
    let h = b.3 - b.2 + 1;
    &&& img.min_x == b.0
    &&& img.min_y == b.2
    &&& img.width == w
    &&& img.height == h
    &&& img.pixels@.len() == w * h
    &&& img.mask@.len() == w * h
    &&& forall|cx: int, cy: int|
        0 <= cx < w && 0 <= cy < h ==> #[trigger] img.mask@[cy * w + cx] == lift_mask_at(sel, b, cx, cy)
            && img.pixels@[cy * w + cx] == lift_pixel_at(l, sel, b, cx, cy)
}

/// Layer pixel `(px, py)` of `l` lies under a shape cell of `img`.
pub open spec fn lifted_by(img: ExtractedImage, l: LayerModel, px: int, py: int) -> bool {
    let cx = px + l.props.offset_x - img.min_x;
    let cy = py + l.props.offset_y - img.min_y;
    &&& l.in_bounds(px, py)
    &&& 0 <= cx < img.width
    &&& 0 <= cy < img.height
    &&& img.mask@[cy * img.width + cx]
}

/// As `lifted_by`, for the shape cells before cell `(c, r)` in row-major order.
pub open spec fn lifted_before(img: ExtractedImage, l: LayerModel, r: int, c: int, px: int, py: int) -> bool {
    let cx = px + l.props.offset_x - img.min_x;
    let cy = py + l.props.offset_y - img.min_y;
    lifted_by(img, l, px, py) && (cy < r || (cy == r && cx < c))
}

/// The arithmetic of lifting from `l` under `sel` stays within 32-bit numbers.
pub open spec fn lift_fits(l: LayerModel, sel: SelectionModel) -> bool {
    &&& layer_fits(l)
    &&& l.props.offset_x + l.props.width <= i32::MAX
    &&& l.props.offset_y + l.props.height <= i32::MAX
    &&& l.props.width * l.props.height <= u32::MAX
    &&& sel.width <= i32::MAX
    &&& sel.height <= i32::MAX
    &&& sel.width * sel.height <= u32::MAX
    &&& -l.props.offset_x <= i32::MAX
    &&& -l.props.offset_y <= i32::MAX
    &&& sel.width - 1 - l.props.offset_x <= i32::MAX
    &&& sel.height - 1 - l.props.offset_y <= i32::MAX
}

/// Adding one cell to the scanned set keeps the box around it and tight.
proof fn lemma_bbox_point(
    fa: Set<(int, int)>,
    f: Set<(int, int)>,
    x: i32,
    y: i32,
    ob: (i32, i32, i32, i32),
    nb: (i32, i32, i32, i32),
    m0: (i32, i32, i32, i32),
)
    requires
        forall|p: (int, int)| #[trigger] f.contains(p) <==> fa.contains(p) || p == (x as int, y as int),
        bbox_holds(fa, ob.0, ob.1, ob.2, ob.3),
        bbox_tight(fa, ob.0, ob.1, ob.2, ob.3, m0),
        nb.0 == (if x < ob.0 { x } else { ob.0 }),
        nb.1 == (if x > ob.1 { x } else { ob.1 }),
        nb.2 == (if y < ob.2 { y } else { ob.2 }),
        nb.3 == (if y > ob.3 { y } else { ob.3 }),
    ensures
        bbox_holds(f, nb.0, nb.1, nb.2, nb.3),
        bbox_tight(f, nb.0, nb.1, nb.2, nb.3, m0),
{
    assert(f.contains((x as int, y as int)));
    if ob.0 != m0.0 && nb.0 == ob.0 {
        let p = choose|p: (int, int)| #[trigger] fa.contains(p) && p.0 == ob.0;
        assert(f.contains(p));
    }
    if ob.1 != m0.1 && nb.1 == ob.1 {
        let p = choose|p: (int, int)| #[trigger] fa.contains(p) && p.0 == ob.1;
        assert(f.contains(p));
    }
    if ob.2 != m0.2 && nb.2 == ob.2 {
        let p = choose|p: (int, int)| #[trigger] fa.contains(p) && p.1 == ob.2;
        assert(f.contains(p));
    }
    if ob.3 != m0.3 && nb.3 == ob.3 {
        let p = choose|p: (int, int)| #[trigger] fa.contains(p) && p.1 == ob.3;
        assert(f.contains(p));
    }
}

/// The bounding box of the selected cells (empty where none is selected).
fn selection_box(sel: &SelectionData) -> (b: (i32, i32, i32, i32))
    requires
        sel@.wf(),
        sel@.is_active,
        sel.width <= i32::MAX,
        sel.height <= i32::MAX,
    ensures
        bbox_holds(selected_cells(sel@), b.0, b.1, b.2, b.3),
        bbox_tight(selected_cells(sel@), b.0, b.1, b.2, b.3, empty_box()),
{
    let sw = sel.width;
    let sh = sel.height;
    let mut min_x = i32::MAX;
    let mut max_x = i32::MIN;
    let mut min_y = i32::MAX;
    let mut max_y = i32::MIN;
    assert(scanned(sel@, 0, 0) =~= Set::<(int, int)>::empty());
    let mut cy: u32 = 0;
    while cy < sh
        invariant
            sel@.wf(),
            sel@.is_active,
            sw == sel.width,
            sh == sel.height,
            sw <= i32::MAX,
            sh <= i32::MAX,
            cy <= sh,
            bbox_holds(scanned(sel@, cy as int, 0), min_x, max_x, min_y, max_y),
            bbox_tight(scanned(sel@, cy as int, 0), min_x, max_x, min_y, max_y, empty_box()),
        decreases sh - cy,
    {
        let mut cx: u32 = 0;
        while cx < sw
            invariant
                sel@.wf(),
                sel@.is_active,
                sw == sel.width,
                sh == sel.height,
                sw <= i32::MAX,
                sh <= i32::MAX,
                cy < sh,
                cx <= sw,
                bbox_holds(scanned(sel@, cy as int, cx as int), min_x, max_x, min_y, max_y),
                bbox_tight(scanned(sel@, cy as int, cx as int), min_x, max_x, min_y, max_y, empty_box()),
            decreases sw - cx,
        {
            let ghost fa = scanned(sel@, cy as int, cx as int);
            let ghost f = scanned(sel@, cy as int, cx + 1);
            if sel.contains(cx, cy) {
                let ghost ob = (min_x, max_x, min_y, max_y);
                let x = cx as i32;
                let y = cy as i32;
                if x < min_x {
                    min_x = x;
                }
                if x > max_x {
                    max_x = x;
                }
                if y < min_y {
                    min_y = y;
                }
                if y > max_y {
                    max_y = y;
                }
                proof {
                    assert((x as int, y as int) == (cx as int, cy as int));
                    assert forall|p: (int, int)| #[trigger] f.contains(p) <==> fa.contains(p) || p == (x as int, y as int) by {
                        if p == (cx as int, cy as int) {
                            assert(f.contains(p));
                        }
                    }
                    lemma_bbox_point(fa, f, x, y, ob, (min_x, max_x, min_y, max_y), empty_box());
                }
            } else {
                proof {
                    assert(f =~= fa);
                }
            }
            cx = cx + 1;
        }
        proof {
            assert(scanned(sel@, cy as int, sw as int) =~= scanned(sel@, cy + 1, 0));
        }
        cy = cy + 1;
    }
    proof {
        assert(scanned(sel@, sh as int, 0) =~= selected_cells(sel@));
    }
    (min_x, max_x, min_y, max_y)
}

/// Builds the lifted image of the box `b` (non-empty) from `layer` under `sel`.
fn build_image(layer: &Layer, sel: &SelectionData, b: (i32, i32, i32, i32)) -> (img: ExtractedImage)
    requires
        layer@.wf(),
        sel@.wf(),
        b.0 <= b.1,
        b.2 <= b.3,
        b.1 - b.0 < i32::MAX,
        b.3 - b.2 < i32::MAX,
        (b.1 - b.0 + 1) * (b.3 - b.2 + 1) <= u32::MAX,
        i32::MIN <= b.0 - layer.offset_x,
        b.1 - layer.offset_x <= i32::MAX,
        i32::MIN <= b.2 - layer.offset_y,
        b.3 - layer.offset_y <= i32::MAX,
        layer.width <= i32::MAX,
        layer.height <= i32::MAX,
        sel.is_active ==> 0 <= b.0 && 0 <= b.2,
    ensures
        image_of(img, layer@, sel@, b),
{
    let w = (b.1 - b.0 + 1) as u32;
    let h = (b.3 - b.2 + 1) as u32;
    let off_x = layer.offset_x;
    let off_y = layer.offset_y;
    let mut pixels: Vec<Color> = Vec::new();
    let mut mask: Vec<bool> = Vec::new();
    let ghost l = layer@;
    let mut cy: u32 = 0;
    while cy < h
        invariant
            l == layer@,
            l.wf(),
            sel@.wf(),
            w == b.1 - b.0 + 1,
            h == b.3 - b.2 + 1,
            w <= i32::MAX,
            h <= i32::MAX,
            w * h <= u32::MAX,
            off_x == layer.offset_x,
            off_y == layer.offset_y,
            i32::MIN <= b.0 - off_x,
            b.1 - off_x <= i32::MAX,
            i32::MIN <= b.2 - off_y,
            b.3 - off_y <= i32::MAX,
            layer.width <= i32::MAX,
            layer.height <= i32::MAX,
            sel.is_active ==> 0 <= b.0 && 0 <= b.2,
            cy <= h,
            pixels@.len() == cy * w,
            mask@.len() == cy * w,
            forall|qx: int, qy: int|
                0 <= qx < w && 0 <= qy < cy ==> #[trigger] mask@[qy * w + qx] == lift_mask_at(sel@, b, qx, qy)
                    && pixels@[qy * w + qx] == lift_pixel_at(l, sel@, b, qx, qy),
        decreases h - cy,
    {
        let mut cx: u32 = 0;
        while cx < w
            invariant
                l == layer@,
                l.wf(),
                sel@.wf(),
                w == b.1 - b.0 + 1,
                h == b.3 - b.2 + 1,
                w <= i32::MAX,
                h <= i32::MAX,
                w * h <= u32::MAX,
                off_x == layer.offset_x,
                off_y == layer.offset_y,
                i32::MIN <= b.0 - off_x,
                b.1 - off_x <= i32::MAX,
                i32::MIN <= b.2 - off_y,
                b.3 - off_y <= i32::MAX,
                layer.width <= i32::MAX,
                layer.height <= i32::MAX,
                sel.is_active ==> 0 <= b.0 && 0 <= b.2,
                cy < h,
                cx <= w,
                pixels@.len() == cy * w + cx,
                mask@.len() == cy * w + cx,
                forall|qx: int, qy: int|
                    0 <= qx < w && 0 <= qy < cy ==> #[trigger] mask@[qy * w + qx] == lift_mask_at(sel@, b, qx, qy)
                        && pixels@[qy * w + qx] == lift_pixel_at(l, sel@, b, qx, qy),
                forall|qx: int|
                    0 <= qx < cx ==> #[trigger] mask@[cy * w + qx] == lift_mask_at(sel@, b, qx, cy as int)
                        && pixels@[cy * w + qx] == lift_pixel_at(l, sel@, b, qx, cy as int),
            decreases w - cx,
        {
            let canvas_x = b.0 + cx as i32;
            let canvas_y = b.2 + cy as i32;
            let m = !sel.is_active || sel.contains(canvas_x as u32, canvas_y as u32);
            let mut c = Color::transparent();
            if m {
                let lx = canvas_x - off_x;
                let ly = canvas_y - off_y;
                if lx >= 0 && ly >= 0 && lx < layer.width as i32 && ly < layer.height as i32 {
                    match layer.get_pixel(lx as u32, ly as u32) {
                        Some(p) => {
                            c = p;
                        },
                        None => {},
                    }
                }
            }
            proof {
                let lw = layer.width;
                let lh = layer.height;
                assert(lw <= 0x7fff_ffff ==> (lw as i32) >= 0 && ((lw as i32) as u32) == lw) by (bit_vector);
                assert(lh <= 0x7fff_ffff ==> (lh as i32) >= 0 && ((lh as i32) as u32) == lh) by (bit_vector);
                lemma_grid_index(cx as int, cy as int, w as int, h as int);
            }
            let ghost pb = pixels@;
            let ghost mb = mask@;
            pixels.push(c);
            mask.push(m);
            proof {
                assert forall|qx: int, qy: int|
                    0 <= qx < w && 0 <= qy < cy implies #[trigger] mask@[qy * w + qx] == lift_mask_at(sel@, b, qx, qy)
                        && pixels@[qy * w + qx] == lift_pixel_at(l, sel@, b, qx, qy) by {
                    lemma_grid_index(qx, qy, w as int, h as int);
                    assert((qy + 1) * w <= cy * w) by (nonlinear_arith)
                        requires
                            qy + 1 <= cy,
                            0 <= w,
                    ;
                    assert(mask@[qy * w + qx] == mb[qy * w + qx]);
                    assert(pixels@[qy * w + qx] == pb[qy * w + qx]);
                }
                assert forall|qx: int|
                    0 <= qx < cx + 1 implies #[trigger] mask@[cy * w + qx] == lift_mask_at(sel@, b, qx, cy as int)
                        && pixels@[cy * w + qx] == lift_pixel_at(l, sel@, b, qx, cy as int) by {
                    if qx < cx {
                        assert(mask@[cy * w + qx] == mb[cy * w + qx]);
                        assert(pixels@[cy * w + qx] == pb[cy * w + qx]);
                    }
                }
            }
            cx = cx + 1;
        }
        proof {
            assert((cy + 1) * w == cy * w + w) by (nonlinear_arith);
        }
        cy = cy + 1;
    }
    assert(h * w == w * h) by (nonlinear_arith);
    ExtractedImage { min_x: b.0, min_y: b.2, width: w, height: h, pixels, mask }
}

/// Clears layer pixel `(x, y)`, storing a blank tile there where none was.
fn erase_pixel(layer: &mut Layer, x: u32, y: u32)
    requires
        old(layer)@.wf(),
        x < old(layer).width,
        y < old(layer).height,
    ensures
        final(layer)@.wf(),
        final(layer)@.props == old(layer)@.props,
        forall|px: u32, py: u32| #[trigger] final(layer)@.pixel(px, py) == if px == x && py == y {
            transparent_color()
        } else {
            old(layer)@.pixel(px, py)
        },
        has_chunk(final(layer)@.chunks, x / 64, y / 64),
        forall|kx: u32, ky: u32| !(kx == x / 64 && ky == y / 64) ==> #[trigger] has_chunk(final(layer)@.chunks, kx, ky)
            == has_chunk(old(layer)@.chunks, kx, ky),
{
    let ghost l0 = layer@;
    let cx = x / 64;
    let cy = y / 64;
    match layer.find_chunk(cx, cy) {
        Some(i) => {
            proof {
                lemma_chunk_index_unique(l0.chunks, i as int);
            }
            let _ = layer.set_pixel(x, y, Color::transparent());
            proof {
                let i2 = chunk_index(l0.chunks, cx, cy);
                lemma_chunk_frame(l0.chunks, layer@.chunks, cx, cy, layer@.chunks[i2]);
            }
        },
        None => {
            proof {
                lemma_push_blank_chunk(l0.chunks, cx, cy);
            }
            let data = vec![0u8; CHUNK_BYTES];
            assert(data@ =~= Seq::new(CHUNK_BYTES as nat, |k: int| 0u8));
            layer.chunks.push(Chunk { cx, cy, data });
            proof {
                let t = ChunkModel { cx, cy, data: Seq::new(CHUNK_BYTES as nat, |k: int| 0u8) };
                assert(layer@.chunks =~= l0.chunks.push(t));
                lemma_chunk_frame(l0.chunks, layer@.chunks, cx, cy, t);
            }
        },
    }
}

/// The layer pixels under the shape cells of `img`.
pub open spec fn lifted_set(img: ExtractedImage, l: LayerModel) -> Set<(int, int)> {
    Set::new(|p: (int, int)| lifted_by(img, l, p.0, p.1))
}

/// Whether `v` holds `k`.
fn has_key(v: &Vec<(u32, u32)>, k: (u32, u32)) -> (b: bool)
    ensures
        b == v@.contains(k),
{
    let n = v.len();
    for i in 0..n
        invariant
            n == v@.len(),
            forall|j: int| 0 <= j < i ==> v@[j] != k,
    {
        if v[i].0 == k.0 && v[i].1 == k.1 {
            assert(v@[i as int] == k);
            return true;
        }
    }
    false
}

/// What the erasing scan has done after the cells before `(c, r)`.
pub open spec fn erase_progress(
    img: ExtractedImage,
    l0: LayerModel,
    cur: LayerModel,
    keys: Seq<(u32, u32)>,
    wits: Seq<(int, int)>,
    r: int,
    c: int,
) -> bool {
    &&& cur.wf()
    &&& cur.props == l0.props
    &&& forall|px: u32, py: u32| #[trigger] cur.pixel(px, py) == if lifted_before(img, l0, r, c, px as int, py as int) {
        transparent_color()
    } else {
        l0.pixel(px, py)
    }
    &&& forall|i: int, j: int| 0 <= i < keys.len() && 0 <= j < keys.len() && i != j ==> keys[i] != keys[j]
    &&& forall|j: int| 0 <= j < keys.len() ==> has_chunk(cur.chunks, (#[trigger] keys[j]).0, keys[j].1)
    &&& wits.len() == keys.len()
    &&& forall|j: int|
        0 <= j < keys.len() ==> lifted_before(img, l0, r, c, (#[trigger] wits[j]).0, wits[j].1) && key_of(wits[j])
            == keys[j]
    &&& forall|p: (int, int)| #[trigger] lifted_before(img, l0, r, c, p.0, p.1) ==> keys.contains(key_of(p))
}

/// One cell of the erasing scan: `hit` says whether its pixel was cleared.
proof fn lemma_erase_step(
    img: ExtractedImage,
    l0: LayerModel,
    cur: LayerModel,
    ks: Seq<(u32, u32)>,
    ws: Seq<(int, int)>,
    cur2: LayerModel,
    ks2: Seq<(u32, u32)>,
    ws2: Seq<(int, int)>,
    cx: int,
    cy: int,
    hit: bool,
    q: (int, int),
)
    requires
        erase_progress(img, l0, cur, ks, ws, cy, cx),
        0 <= cx < img.width,
        0 <= cy < img.height,
        img.mask@.len() == img.width * img.height,
        hit == (img.mask@[cy * img.width + cx] && l0.in_bounds(
            img.min_x + cx - l0.props.offset_x,
            img.min_y + cy - l0.props.offset_y,
        )),
        hit ==> q == (img.min_x + cx - l0.props.offset_x, img.min_y + cy - l0.props.offset_y),
        !hit ==> cur2 == cur && ks2 == ks && ws2 == ws,
        hit ==> cur2.wf() && cur2.props == cur.props,
        hit ==> forall|px: u32, py: u32| #[trigger] cur2.pixel(px, py) == if px == q.0 && py == q.1 {
            transparent_color()
        } else {
            cur.pixel(px, py)
        },
        hit ==> has_chunk(cur2.chunks, key_of(q).0, key_of(q).1),
        hit ==> forall|kx: u32, ky: u32| !(kx == key_of(q).0 && ky == key_of(q).1) ==> #[trigger] has_chunk(cur2.chunks, kx, ky)
            == has_chunk(cur.chunks, kx, ky),
        hit ==> ks2 == (if ks.contains(key_of(q)) {
            ks
        } else {
            ks.push(key_of(q))
        }),
        hit ==> ws2 == (if ks.contains(key_of(q)) {
            ws
        } else {
            ws.push(q)
        }),
    ensures
        erase_progress(img, l0, cur2, ks2, ws2, cy, cx + 1),
{
    assert forall|x: int, y: int| #[trigger] lifted_before(img, l0, cy, cx + 1, x, y) == (lifted_before(img, l0, cy, cx, x, y)
        || (hit && (x, y) == q)) by {
        let pcx = x + l0.props.offset_x - img.min_x;
        let pcy = y + l0.props.offset_y - img.min_y;
        if pcx == cx && pcy == cy {
            assert((x, y) == (img.min_x + cx - l0.props.offset_x, img.min_y + cy - l0.props.offset_y));
        }
    }
    if hit {
        assert(lifted_before(img, l0, cy, cx + 1, q.0, q.1));
        assert forall|px: u32, py: u32| #[trigger] cur2.pixel(px, py) == if lifted_before(img, l0, cy, cx + 1, px as int, py as int) {
            transparent_color()
        } else {
            l0.pixel(px, py)
        } by {
            if px == q.0 && py == q.1 {
                assert((px as int, py as int) == q);
            } else {
                assert((px as int, py as int) != q);
            }
        }
        assert forall|j: int| 0 <= j < ks2.len() implies has_chunk(cur2.chunks, (#[trigger] ks2[j]).0, ks2[j].1) by {
            if j < ks.len() {
                assert(ks2[j] == ks[j]);
            }
        }
        assert forall|i: int, j: int| 0 <= i < ks2.len() && 0 <= j < ks2.len() && i != j implies ks2[i] != ks2[j] by {
            if i == ks.len() && j < ks.len() {
                assert(ks2[j] == ks[j]);
                assert(ks.contains(ks[j]));
            } else if j == ks.len() && i < ks.len() {
                assert(ks2[i] == ks[i]);
                assert(ks.contains(ks[i]));
            }
        }
        assert forall|j: int| 0 <= j < ks2.len() implies lifted_before(img, l0, cy, cx + 1, (#[trigger] ws2[j]).0, ws2[j].1)
            && key_of(ws2[j]) == ks2[j] by {
            if j < ks.len() {
                assert(ks2[j] == ks[j]);
                assert(ws2[j] == ws[j]);
                assert(lifted_before(img, l0, cy, cx, ws[j].0, ws[j].1));
            }
        }
        assert forall|p: (int, int)| #[trigger] lifted_before(img, l0, cy, cx + 1, p.0, p.1) implies ks2.contains(key_of(p)) by {
            if p == q {
                if !ks.contains(key_of(q)) {
                    assert(ks2[ks.len() as int] == key_of(q));
                }
            } else {
                assert(lifted_before(img, l0, cy, cx, p.0, p.1));
                assert(ks.contains(key_of(p)));
                let j = choose|j: int| 0 <= j < ks.len() && ks[j] == key_of(p);
                assert(ks2[j] == ks[j]);
            }
        }
    } else {
        assert forall|j: int| 0 <= j < ks2.len() implies lifted_before(img, l0, cy, cx + 1, (#[trigger] ws2[j]).0, ws2[j].1)
            && key_of(ws2[j]) == ks2[j] by {
            assert(lifted_before(img, l0, cy, cx, ws[j].0, ws[j].1));
        }
    }
}

/// The end of a row is the start of the next.
proof fn lemma_erase_row(img: ExtractedImage, l0: LayerModel, cur: LayerModel, ks: Seq<(u32, u32)>, ws: Seq<(int, int)>, cy: int)
    requires
        erase_progress(img, l0, cur, ks, ws, cy, img.width as int),
    ensures
        erase_progress(img, l0, cur, ks, ws, cy + 1, 0),
{
    assert forall|x: int, y: int| #[trigger] lifted_before(img, l0, cy + 1, 0, x, y) == lifted_before(
        img,
        l0,
        cy,
        img.width as int,
        x,
        y,
    ) by {}
    assert forall|j: int| 0 <= j < ks.len() implies lifted_before(img, l0, cy + 1, 0, (#[trigger] ws[j]).0, ws[j].1) by {
        assert(lifted_before(img, l0, cy, img.width as int, ws[j].0, ws[j].1));
    }
    assert forall|px: u32, py: u32| #[trigger] cur.pixel(px, py) == if lifted_before(img, l0, cy + 1, 0, px as int, py as int) {
        transparent_color()
    } else {
        l0.pixel(px, py)
    } by {
        assert(lifted_before(img, l0, cy + 1, 0, px as int, py as int) == lifted_before(img, l0, cy, img.width as int, px as int, py as int));
    }
    assert forall|p: (int, int)| #[trigger] lifted_before(img, l0, cy + 1, 0, p.0, p.1) implies ks.contains(key_of(p)) by {
        assert(lifted_before(img, l0, cy, img.width as int, p.0, p.1));
    }
}

/// After the last row every shape pixel has been cleared.
proof fn lemma_erase_done(img: ExtractedImage, l0: LayerModel, cur: LayerModel, ks: Seq<(u32, u32)>, ws: Seq<(int, int)>)
    requires
        erase_progress(img, l0, cur, ks, ws, img.height as int, 0),
    ensures
        forall|px: u32, py: u32| #[trigger] cur.pixel(px, py) == if lifted_by(img, l0, px as int, py as int) {
            transparent_color()
        } else {
            l0.pixel(px, py)
        },
        forall|p: (int, int)| #[trigger] lifted_before(img, l0, img.height as int, 0, p.0, p.1) == lifted_by(img, l0, p.0, p.1),
{
    assert forall|x: int, y: int| #[trigger] lifted_before(img, l0, img.height as int, 0, x, y) == lifted_by(img, l0, x, y) by {}
    assert forall|px: u32, py: u32| #[trigger] cur.pixel(px, py) == if lifted_by(img, l0, px as int, py as int) {
        transparent_color()
    } else {
        l0.pixel(px, py)
    } by {
        assert(lifted_before(img, l0, img.height as int, 0, px as int, py as int) == lifted_by(img, l0, px as int, py as int));
    }
}

/// Clears the layer pixels under the shape cells of `img`, row by row, and
/// hands back copies of the tiles that held them, each once.
#[verifier::rlimit(30)]
fn erase_lifted(layer: &mut Layer, img: &ExtractedImage) -> (tiles: Vec<Chunk>)
    requires
        old(layer)@.wf(),
        img.mask@.len() == img.width * img.height,
        img.width * img.height <= u32::MAX,
        img.width <= i32::MAX,
        img.height <= i32::MAX,
        img.min_x + img.width - 1 <= i32::MAX,
        img.min_y + img.height - 1 <= i32::MAX,
        i32::MIN <= img.min_x - old(layer).offset_x,
        img.min_x + img.width - 1 - old(layer).offset_x <= i32::MAX,
        i32::MIN <= img.min_y - old(layer).offset_y,
        img.min_y + img.height - 1 - old(layer).offset_y <= i32::MAX,
        old(layer).width <= i32::MAX,
        old(layer).height <= i32::MAX,
    ensures
        final(layer)@.wf(),
        final(layer)@.props == old(layer)@.props,
        forall|px: u32, py: u32| #[trigger] final(layer)@.pixel(px, py) == if lifted_by(*img, old(layer)@, px as int, py as int) {
            transparent_color()
        } else {
            old(layer)@.pixel(px, py)
        },
        chunks_wf_keys(backups_view(tiles@)),
        forall|i: int|
            0 <= i < tiles@.len() ==> has_chunk(final(layer)@.chunks, (#[trigger] tiles@[i]).cx, tiles@[i].cy)
                && tiles@[i]@.data == tile_data(final(layer)@.chunks, tiles@[i].cx, tiles@[i].cy),
        forall|kx: u32, ky: u32| #[trigger] has_chunk(backups_view(tiles@), kx, ky) <==> touched(lifted_set(*img, old(layer)@), kx, ky),
{
    let ghost l0 = layer@;
    let w = img.width;
    let h = img.height;
    let off_x = layer.offset_x;
    let off_y = layer.offset_y;
    let mut keys: Vec<(u32, u32)> = Vec::new();
    let ghost mut wits: Seq<(int, int)> = Seq::empty();
    let mut cy: u32 = 0;
    while cy < h
        invariant
            w == img.width,
            h == img.height,
            img.mask@.len() == w * h,
            w * h <= u32::MAX,
            w <= i32::MAX,
            h <= i32::MAX,
            img.min_x + w - 1 <= i32::MAX,
            img.min_y + h - 1 <= i32::MAX,
            off_x == l0.props.offset_x,
            off_y == l0.props.offset_y,
            i32::MIN <= img.min_x - off_x,
            img.min_x + w - 1 - off_x <= i32::MAX,
            i32::MIN <= img.min_y - off_y,
            img.min_y + h - 1 - off_y <= i32::MAX,
            l0.props.width <= i32::MAX,
            l0.props.height <= i32::MAX,
            cy <= h,
            erase_progress(*img, l0, layer@, keys@, wits, cy as int, 0),
        decreases h - cy,
    {
        let mut cx: u32 = 0;
        while cx < w
            invariant
                w == img.width,
                h == img.height,
                img.mask@.len() == w * h,
                w * h <= u32::MAX,
                w <= i32::MAX,
                h <= i32::MAX,
                img.min_x + w - 1 <= i32::MAX,
                img.min_y + h - 1 <= i32::MAX,
                off_x == l0.props.offset_x,
                off_y == l0.props.offset_y,
                i32::MIN <= img.min_x - off_x,
                img.min_x + w - 1 - off_x <= i32::MAX,
                i32::MIN <= img.min_y - off_y,
                img.min_y + h - 1 - off_y <= i32::MAX,
                l0.props.width <= i32::MAX,
                l0.props.height <= i32::MAX,
                cy < h,
                cx <= w,
                erase_progress(*img, l0, layer@, keys@, wits, cy as int, cx as int),
            decreases w - cx,
        {
            proof {
                lemma_grid_index(cx as int, cy as int, w as int, h as int);
            }
            let idx = (cy * w + cx) as usize;
            let ghost cur = layer@;
            let ghost ks = keys@;
            let ghost ws = wits;
            let mut hit = false;
            let mut lxu: u32 = 0;
            let mut lyu: u32 = 0;
            if img.mask[idx] {
                let lx = img.min_x + cx as i32 - off_x;
                let ly = img.min_y + cy as i32 - off_y;
                if lx >= 0 && ly >= 0 && lx < layer.width as i32 && ly < layer.height as i32 {
                    hit = true;
                    lxu = lx as u32;
                    lyu = ly as u32;
                }
            }
            proof {
                let lw = layer.width;
                let lh = layer.height;
                assert(lw <= 0x7fff_ffff ==> (lw as i32) >= 0 && ((lw as i32) as u32) == lw) by (bit_vector);
                assert(lh <= 0x7fff_ffff ==> (lh as i32) >= 0 && ((lh as i32) as u32) == lh) by (bit_vector);
            }
            let ghost q = (lxu as int, lyu as int);
            if hit {
                erase_pixel(layer, lxu, lyu);
                let k = (lxu / 64, lyu / 64);
                if !has_key(&keys, k) {
                    keys.push(k);
                    proof {
                        wits = wits.push(q);
                    }
                }
            }
            proof {
                lemma_erase_step(*img, l0, cur, ks, ws, layer@, keys@, wits, cx as int, cy as int, hit, q);
            }
            cx = cx + 1;
        }
        proof {
            lemma_erase_row(*img, l0, layer@, keys@, wits, cy as int);
        }
        cy = cy + 1;
    }
    proof {
        lemma_erase_done(*img, l0, layer@, keys@, wits);
    }
    let ghost fin = layer@;
    let mut tiles: Vec<Chunk> = Vec::new();
    let nk = keys.len();
    for j in 0..nk
        invariant
            nk == keys@.len(),
            fin == layer@,
            fin.wf(),
            erase_progress(*img, l0, fin, keys@, wits, h as int, 0),
            tiles@.len() == j,
            forall|i: int|
                0 <= i < j ==> (#[trigger] tiles@[i]).cx == keys@[i].0 && tiles@[i].cy == keys@[i].1
                    && tiles@[i]@.data == tile_data(fin.chunks, keys@[i].0, keys@[i].1),
    {
        let k = keys[j];
        assert(has_chunk(fin.chunks, k.0, k.1));
        match layer.find_chunk(k.0, k.1) {
            Some(i) => {
                proof {
                    lemma_chunk_index_unique(fin.chunks, i as int);
                }
                let t = layer.chunks[i].clone();
                assert(t@ == fin.chunks[i as int]);
                tiles.push(t);
            },
            None => {},
        }
    }
    proof {
        let tv = backups_view(tiles@);
        assert forall|a: int, b: int| 0 <= a < tv.len() && 0 <= b < tv.len() && a != b implies !chunk_has_key(
            #[trigger] tv[a],
            #[trigger] tv[b].cx,
            tv[b].cy,
        ) by {
            assert(tv[a] == tiles@[a]@);
            assert(tv[b] == tiles@[b]@);
        }
        assert forall|kx: u32, ky: u32| #[trigger] has_chunk(tv, kx, ky) <==> touched(lifted_set(*img, l0), kx, ky) by {
            if has_chunk(tv, kx, ky) {
                let a = choose|a: int| 0 <= a < tv.len() && chunk_has_key(#[trigger] tv[a], kx, ky);
                assert(tv[a] == tiles@[a]@);
                let p = wits[a];
                assert(lifted_before(*img, l0, h as int, 0, p.0, p.1) && key_of(p) == keys@[a]);
                assert(lifted_set(*img, l0).contains(p));
            }
            if touched(lifted_set(*img, l0), kx, ky) {
                let p = choose|p: (int, int)| #[trigger] lifted_set(*img, l0).contains(p) && key_of(p) == (kx, ky);
                assert(lifted_before(*img, l0, h as int, 0, p.0, p.1));
                assert(keys@.contains(key_of(p)));
                let a = choose|a: int| 0 <= a < keys@.len() && keys@[a] == key_of(p);
                assert(tv[a] == tiles@[a]@);
                assert(chunk_has_key(tv[a], kx, ky));
            }
        }
        assert forall|i: int| 0 <= i < tiles@.len() implies has_chunk(fin.chunks, (#[trigger] tiles@[i]).cx, tiles@[i].cy)
            && tiles@[i]@.data == tile_data(fin.chunks, tiles@[i].cx, tiles@[i].cy) by {
            assert(has_chunk(fin.chunks, keys@[i].0, keys@[i].1));
        }
    }
    tiles
}

/// A non-empty box of selected cells lies inside the selection's grid.
proof fn lemma_box_in_grid(sel: SelectionModel, b: (i32, i32, i32, i32))
    requires
        bbox_holds(selected_cells(sel), b.0, b.1, b.2, b.3),
        bbox_tight(selected_cells(sel), b.0, b.1, b.2, b.3, empty_box()),
        b.0 <= b.1,
        sel.width <= i32::MAX,
        sel.height <= i32::MAX,
    ensures
        0 <= b.0 <= b.1 < sel.width,
        0 <= b.2 <= b.3 < sel.height,
        (b.1 - b.0 + 1) * (b.3 - b.2 + 1) <= sel.width * sel.height,
{
    let cells = selected_cells(sel);
    let q = if b.1 != i32::MIN {
        choose|p: (int, int)| #[trigger] cells.contains(p) && p.0 == b.1
    } else {
        choose|p: (int, int)| #[trigger] cells.contains(p) && p.0 == b.0
    };
    assert(cells.contains(q));
    let p0 = choose|p: (int, int)| #[trigger] cells.contains(p) && p.0 == b.0;
    let p1 = choose|p: (int, int)| #[trigger] cells.contains(p) && p.0 == b.1;
    let p2 = choose|p: (int, int)| #[trigger] cells.contains(p) && p.1 == b.2;
    let p3 = choose|p: (int, int)| #[trigger] cells.contains(p) && p.1 == b.3;
    assert(cells.contains(p0) && cells.contains(p1) && cells.contains(p2) && cells.contains(p3));
    let w = b.1 - b.0 + 1;
    let h = b.3 - b.2 + 1;
    assert(w * h <= sel.width * sel.height) by (nonlinear_arith)
        requires
            0 < w <= sel.width,
            0 < h <= sel.height,
    ;
}

/// The transform tool's lift from `layer` under `selection`: fails on a
/// locked layer; otherwise takes the box `lift_box` describes and, where it
/// is not empty, returns the lifted image of it together with copies of the
/// tiles of the layer that held lifted pixels, after clearing those pixels
/// (a blank tile is stored where a cleared pixel had none). An empty box
/// changes nothing.
#[verifier::rlimit(30)]
pub fn extract_pixels(layer: &mut Layer, selection: &SelectionData) -> (r: Result<
    Option<(ExtractedImage, Vec<Chunk>)>,
    CoreError,
>)
    requires
        old(layer)@.wf(),
        selection@.wf(),
        lift_fits(old(layer)@, selection@),
    ensures
        final(layer)@.wf(),
        final(layer)@.props == old(layer)@.props,
        old(layer).locked ==> (r matches Err(CoreError::LayerLocked)) && final(layer)@ == old(layer)@,
        !old(layer).locked ==> exists|b: (i32, i32, i32, i32)| #[trigger]
            lift_box(old(layer)@, selection@, b) && if b.0 > b.1 || b.2 > b.3 {
                r == Ok::<Option<(ExtractedImage, Vec<Chunk>)>, CoreError>(None) && final(layer)@ == old(layer)@
            } else {
                r matches Ok(Some(out)) && {
                    let img = out.0;
                    let tiles = out.1;
                    &&& image_of(img, old(layer)@, selection@, b)
                    &&& forall|px: u32, py: u32| #[trigger] final(layer)@.pixel(px, py) == if lifted_by(
                        img,
                        old(layer)@,
                        px as int,
                        py as int,
                    ) {
                        transparent_color()
                    } else {
                        old(layer)@.pixel(px, py)
                    }
                    &&& chunks_wf_keys(backups_view(tiles@))
                    &&& forall|i: int|
                        0 <= i < tiles@.len() ==> has_chunk(final(layer)@.chunks, (#[trigger] tiles@[i]).cx, tiles@[i].cy)
                            && tiles@[i]@.data == tile_data(final(layer)@.chunks, tiles@[i].cx, tiles@[i].cy)
                    &&& forall|kx: u32, ky: u32| #[trigger] has_chunk(backups_view(tiles@), kx, ky) <==> touched(
                        lifted_set(img, old(layer)@),
                        kx,
                        ky,
                    )
                }
            },
{
    if layer.locked {
        return Err(CoreError::LayerLocked);
    }
    proof {
        let lw = layer.width;
        let lh = layer.height;
        assert(lw <= 0x7fff_ffff ==> (lw as i32) >= 0 && ((lw as i32) as u32) == lw) by (bit_vector);
        assert(lh <= 0x7fff_ffff ==> (lh as i32) >= 0 && ((lh as i32) as u32) == lh) by (bit_vector);
    }
    let b = if selection.is_active {
        selection_box(selection)
    } else {
        (
            layer.offset_x,
            layer.offset_x + layer.width as i32 - 1,
            layer.offset_y,
            layer.offset_y + layer.height as i32 - 1,
        )
    };
    assert(lift_box(old(layer)@, selection@, b));
    if b.0 > b.1 || b.2 > b.3 {
        return Ok(None);
    }
    proof {
        if selection.is_active {
            lemma_box_in_grid(selection@, b);
        } else {
            assert((b.1 - b.0 + 1) * (b.3 - b.2 + 1) == layer.width * layer.height);
        }
    }
    let ghost l0 = layer@;
    let img = build_image(layer, selection, b);
    let tiles = erase_lifted(layer, &img);
    Ok(Some((img, tiles)))
}


// ------------------------------------------------------------ the tool's lift
/// The transform tool's lift: whether pixels are lifted, the pressed point,
/// the lifted image, copies of the layer and the selection from before the
/// lift, the tiles the lift erased, and whether the view needs redrawing.
/// The placement of the image (pivot, offset, scale, rotation) is kept by
/// the caller.
pub struct TransformState {
    pub is_active: bool,
    pub start_pos: Option<(i32, i32)>,
    pub extracted: Option<ExtractedImage>,
    pub layer_backup: Option<Layer>,
    pub sel_backup: Option<SelectionData>,
    pub erased_chunks: Vec<Chunk>,
    pub needs_redraw: bool,
}

/// The patch that placing the lifted pixels yields, from the layer `b` and
/// selection `sb` before the lift to the store `s` whose layer `i` holds the
/// result: a document-wide composite of the selection change (where the
/// selection differs) and the layer's pixel changes (where there are any),
/// or nothing.
pub open spec fn placed_patch(
    b: LayerModel,
    sb: SelectionModel,
    s: StoreModel,
    i: int,
    sel_patch_id: String,
    pixel_patch_id: String,
    patch_id: String,
    r: Option<ActionPatch>,
) -> bool {
    let c = s.layers[i];
    let sel_changed = sb != s.selection;
    let ds = move_diffs(b.chunks, c.chunks);
    if !sel_changed && ds.len() == 0 {
        r is None
    } else {
        r matches Some(p) && p.id == patch_id && p.layer_id@ == global_id() && (p.action matches PatchAction::Composite(cp) && {
            let parts = cp.patches@;
            &&& parts.len() == (if sel_changed { 1int } else { 0int }) + (if ds.len() > 0 { 1int } else { 0int })
            &&& sel_changed ==> parts[0].id == sel_patch_id && parts[0].layer_id@ == global_id() && (parts[0].action matches PatchAction::SelectionChange(sc)
                && sc.old_sel@ == sb && sc.new_sel@ == s.selection)
            &&& ds.len() > 0 ==> parts.last().id == pixel_patch_id && parts.last().layer_id@ == c.props.id && (parts.last().action matches PatchAction::PixelDiff(
                d,
            ) && d.diffs@ == ds)
        })
    }
}

/// What finishing the transform does, from tool `t0` to `t1` with result `r`:
/// nothing while no pixels are lifted; otherwise the lift ends and, taking the
/// remembered layer and then the remembered selection where there is an active
/// layer, the patch is the one `placed_patch` describes for the active layer,
/// or nothing where a copy is missing or the layer is gone.
pub open spec fn commit_outcome(
    t0: TransformState,
    s: StoreModel,
    sel_patch_id: String,
    pixel_patch_id: String,
    patch_id: String,
    t1: TransformState,
    r: Result<Option<ActionPatch>, CoreError>,
) -> bool {
    &&& r is Ok
    &&& t1.start_pos == t0.start_pos
    &&& t1.extracted == t0.extracted
    &&& t1.erased_chunks == t0.erased_chunks
    &&& t1.needs_redraw == t0.needs_redraw
    &&& if !t0.is_active {
        r == Ok::<Option<ActionPatch>, CoreError>(None) && t1 == t0
    } else {
        &&& !t1.is_active
        &&& match s.active_layer_id {
            None => r == Ok::<Option<ActionPatch>, CoreError>(None) && t1.layer_backup == t0.layer_backup
                && t1.sel_backup == t0.sel_backup,
            Some(id) => {
                &&& t1.layer_backup is None
                &&& match t0.layer_backup {
                    None => r == Ok::<Option<ActionPatch>, CoreError>(None) && t1.sel_backup == t0.sel_backup,
                    Some(b) => t1.sel_backup is None && match t0.sel_backup {
                        None => r == Ok::<Option<ActionPatch>, CoreError>(None),
                        Some(sb) => match s.find_layer(id) {
                            None => r == Ok::<Option<ActionPatch>, CoreError>(None),
                            Some(i) => r matches Ok(o) && placed_patch(
                                b@,
                                sb@,
                                s,
                                i,
                                sel_patch_id,
                                pixel_patch_id,
                                patch_id,
                                o,
                            ),
                        },
                    },
                }
            },
        }
    }
}

/// What abandoning the transform does, from tool `t0` and store `s0` to `t1`
/// and `s1`: nothing while no pixels are lifted; otherwise the lift ends, the
/// active layer gets back the tiles it had before the lift, the selection the
/// remembered one, the copies are forgotten and the view is redrawn.
pub open spec fn lift_cancel_outcome(t0: TransformState, s0: StoreModel, t1: TransformState, s1: StoreModel) -> bool {
    if !t0.is_active {
        t1 == t0 && s1 == s0
    } else {
        &&& !t1.is_active
        &&& t1.layer_backup is None
        &&& t1.sel_backup is None
        &&& t1.needs_redraw
        &&& t1.start_pos == t0.start_pos
        &&& t1.extracted == t0.extracted
        &&& t1.erased_chunks == t0.erased_chunks
        &&& s1.selection == (match t0.sel_backup {
            Some(sb) => sb@,
            None => s0.selection,
        })
        &&& s1.layers == (match (t0.layer_backup, s0.active_layer_id) {
            (Some(b), Some(id)) => match s0.find_layer(id) {
                Some(i) => s0.layers.update(i, LayerModel { props: s0.layers[i].props, chunks: b@.chunks }),
                None => s0.layers,
            },
            _ => s0.layers,
        })
        &&& s1 == (StoreModel { layers: s1.layers, selection: s1.selection, ..s0 })
    }
}

impl TransformState {
    /// The remembered copies are well formed.
    pub open spec fn wf(&self) -> bool {
        &&& self.layer_backup matches Some(l) ==> l@.wf()
        &&& self.sel_backup matches Some(s) ==> s@.wf()
    }

    pub fn new() -> (t: TransformState)
        ensures
            t.wf(),
            !t.is_active,
            t.start_pos is None,
            t.extracted is None,
            t.layer_backup is None,
            t.sel_backup is None,
            t.erased_chunks@.len() == 0,
            !t.needs_redraw,
    {
        TransformState {
            is_active: false,
            start_pos: None,
            extracted: None,
            layer_backup: None,
            sel_backup: None,
            erased_chunks: Vec::new(),
            needs_redraw: false,
        }
    }

    /// Ends the lift and returns the patch that records it; the patches are
    /// named `sel_patch_id` (the selection change), `pixel_patch_id` (the pixel
    /// changes) and `patch_id` (the composite holding them); see
    /// `commit_outcome`.
    pub fn on_commit(
        &mut self,
        store: &PixelStore,
        sel_patch_id: String,
        pixel_patch_id: String,
        patch_id: String,
    ) -> (r: Result<Option<ActionPatch>, CoreError>)
        requires
            old(self).wf(),
            store@.wf(),
            store_tiles_addressable(store@),
            old(self).layer_backup matches Some(b) ==> tiles_addressable(b@.chunks),
        ensures
            final(self).wf(),
            commit_outcome(*old(self), store@, sel_patch_id, pixel_patch_id, patch_id, *final(self), r),
    {
        if !self.is_active {
            return Ok(None);
        }
        self.is_active = false;
        let layer_id = match &store.active_layer_id {
            Some(id) => id.clone(),
            None => {
                return Ok(None);
            },
        };
        let backup = match self.layer_backup.take() {
            Some(b) => b,
            None => {
                return Ok(None);
            },
        };
        let sel_backup = match self.sel_backup.take() {
            Some(s) => s,
            None => {
                return Ok(None);
            },
        };
        let i = match store.find_layer(layer_id.as_str()) {
            Some(i) => i,
            None => {
                return Ok(None);
            },
        };
        let current = &store.layers[i];
        assert(current@ == store@.layers[i as int]);
        proof {
            assert(store_tiles_addressable(store@));
            assert(store@.layers[i as int].wf());
        }
        let mut sub_patches: Vec<ActionPatch> = Vec::new();
        let sel_changed = !sel_backup.same_as(&store.selection);
        if sel_changed {
            sub_patches.push(ActionPatch::new_selection_change(sel_patch_id, sel_backup, store.selection.clone()));
        }
        let ds = collect_move_diffs(&backup, current);
        if ds.len() > 0 {
            sub_patches.push(
                ActionPatch {
                    id: pixel_patch_id,
                    layer_id: current.id.clone(),
                    action: PatchAction::PixelDiff(PixelDiffPatch { diffs: ds }),
                },
            );
        }
        if sub_patches.len() > 0 {
            return Ok(Some(ActionPatch::new_composite(patch_id, sub_patches)));
        }
        Ok(None)
    }

    /// Abandons the lift: the active layer gets back its tiles from before the
    /// lift and the selection the remembered one; see `lift_cancel_outcome`.
    pub fn on_cancel(&mut self, store: &mut PixelStore)
        requires
            old(self).wf(),
            old(store)@.wf(),
        ensures
            final(self).wf(),
            final(store)@.wf(),
            lift_cancel_outcome(*old(self), old(store)@, *final(self), final(store)@),
    {
        if !self.is_active {
            return;
        }
        self.is_active = false;
        match self.layer_backup.take() {
            Some(b) => {
                match &store.active_layer_id {
                    Some(id) => {
                        let idc = id.clone();
                        match store.find_layer(idc.as_str()) {
                            Some(i) => {
                                let ghost s0 = store@;
                                store.layers[i].chunks = b.chunks;
                                proof {
                                    assert(store@.layers =~= s0.layers.update(
                                        i as int,
                                        LayerModel { props: s0.layers[i as int].props, chunks: b@.chunks },
                                    ));
                                    assert forall|k: int| 0 <= k < store@.layers.len() implies (#[trigger] store@.layers[k]).wf() by {
                                        if k != i {
                                            assert(store@.layers[k] == s0.layers[k]);
                                        }
                                    }
                                }
                            },
                            None => {},
                        }
                    },
                    None => {},
                }
            },
            None => {},
        }
        match self.sel_backup.take() {
            Some(sel) => {
                store.selection = sel;
            },
            None => {},
        }
        self.needs_redraw = true;
    }

    /// The whole canvas, once, after a change that needs redrawing.
    pub fn take_dirty_rect(&mut self) -> (r: Option<(u32, u32, u32, u32)>)
        ensures
            r == (if old(self).needs_redraw {
                Some((0u32, 0u32, u32::MAX, u32::MAX))
            } else {
                None
            }),
            !final(self).needs_redraw,
            final(self).is_active == old(self).is_active,
            final(self).start_pos == old(self).start_pos,
            final(self).extracted == old(self).extracted,
            final(self).layer_backup == old(self).layer_backup,
            final(self).sel_backup == old(self).sel_backup,
            final(self).erased_chunks == old(self).erased_chunks,
    {
        if self.needs_redraw {
            self.needs_redraw = false;
            Some((0, 0, u32::MAX, u32::MAX))
        } else {
            None
        }
    }
}

} // verus!
