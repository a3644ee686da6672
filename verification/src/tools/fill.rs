use vstd::prelude::*;
use crate::model::color::{Color, transparent_color};
use crate::model::layer::{Chunk, ChunkModel, Layer, LayerModel, chunk_has_key, chunk_index, has_chunk};
use crate::model::selection::{SelectionData, SelectionModel};
use crate::tools::fill_tiles::{backups_track, bbox_holds, bbox_tight, lemma_track_init, lemma_track_step, tiles_frame, tiles_full};

verus! {

// ------------------------------------------------------------ colours as words
/// A colour as the little-endian word of its four bytes.
pub open spec fn color_u32(c: Color) -> u32 {
    (c.r + 256 * c.g + 65536 * c.b + 16777216 * c.a) as u32
}

/// The colour whose little-endian word is `v`.
pub open spec fn color_of_u32(v: u32) -> Color {
    Color {
        r: (v % 256) as u8,
        g: ((v / 256) % 256) as u8,
        b: ((v / 65536) % 256) as u8,
        a: (v / 16777216) as u8,
    }
}

pub proof fn lemma_color_u32(c: Color, d: Color)
    ensures
        color_of_u32(color_u32(c)) == c,
        color_u32(c) == color_u32(d) <==> c == d,
        color_u32(c) == c.r + 256 * c.g + 65536 * c.b + 16777216 * c.a,
{
    lemma_decode(c);
    lemma_decode(d);
}

proof fn lemma_decode(c: Color)
    ensures
        color_u32(c) == c.r + 256 * c.g + 65536 * c.b + 16777216 * c.a,
        color_of_u32(color_u32(c)) == c,
{
    let v: int = c.r + 256 * c.g + 65536 * c.b + 16777216 * c.a;
    assert(0 <= v <= 0xFFFF_FFFF);
    assert(color_u32(c) == v);
    vstd::arithmetic::div_mod::lemma_fundamental_div_mod_converse(v, 256, c.g + 256 * c.b + 65536 * c.a, c.r as int);
    vstd::arithmetic::div_mod::lemma_fundamental_div_mod_converse(v / 256, 256, c.b + 256 * c.a, c.g as int);
    vstd::arithmetic::div_mod::lemma_fundamental_div_mod_converse(v, 65536, c.b + 256 * c.a, c.r + 256 * c.g);
    vstd::arithmetic::div_mod::lemma_fundamental_div_mod_converse(v / 65536, 256, c.a as int, c.b as int);
    vstd::arithmetic::div_mod::lemma_fundamental_div_mod_converse(v, 16777216, c.a as int, c.r + 256 * c.g + 65536 * c.b);
}

fn word_of_color(c: Color) -> (v: u32)
    ensures
        v == color_u32(c),
{
    c.r as u32 + 256 * c.g as u32 + 65536 * c.b as u32 + 16777216 * c.a as u32
}

fn color_of_word(v: u32) -> (c: Color)
    ensures
        c == color_of_u32(v),
{
    Color::new((v % 256) as u8, ((v / 256) % 256) as u8, ((v / 65536) % 256) as u8, (v / 16777216) as u8)
}

// ------------------------------------------------------------ what may be filled
/// The selection lets the fill reach layer pixel `(x, y)`: its canvas point lies
/// inside the selection's extent and, while a selection is active, is selected.
pub open spec fn sel_allows(l: LayerModel, sel: SelectionModel, has_selection: bool, x: int, y: int) -> bool {
    let cx = x + l.props.offset_x;
    let cy = y + l.props.offset_y;
    &&& 0 <= cx < sel.width
    &&& 0 <= cy < sel.height
    &&& has_selection ==> sel.mask[cy * sel.width + cx]
}

/// Layer pixel `(x, y)` lies on the layer, may be reached and has the target colour.
pub open spec fn fillable(
    l: LayerModel,
    sel: SelectionModel,
    has_selection: bool,
    t: Color,
    q: (int, int),
) -> bool {
    &&& l.in_bounds(q.0, q.1)
    &&& sel_allows(l, sel, has_selection, q.0, q.1)
    &&& l.pixel(q.0 as u32, q.1 as u32) == t
}

pub open spec fn adjacent(a: (int, int), b: (int, int)) -> bool {
    ||| a.0 == b.0 && (a.1 - b.1 == 1 || b.1 - a.1 == 1)
    ||| a.1 == b.1 && (a.0 - b.0 == 1 || b.0 - a.0 == 1)
}

/// A walk through fillable pixels, each step to a 4-neighbour.
pub open spec fn fill_path(
    l: LayerModel,
    sel: SelectionModel,
    has_selection: bool,
    t: Color,
    p: Seq<(int, int)>,
) -> bool {
    &&& p.len() > 0
    &&& forall|i: int| 0 <= i < p.len() ==> fillable(l, sel, has_selection, t, #[trigger] p[i])
    &&& forall|i: int| 0 <= i < p.len() - 1 ==> adjacent(#[trigger] p[i], p[i + 1])
}

/// Pixel `q` is 4-connected to `s` through fillable pixels.
pub open spec fn reachable(
    l: LayerModel,
    sel: SelectionModel,
    has_selection: bool,
    t: Color,
    s: (int, int),
    q: (int, int),
) -> bool {
    exists|p: Seq<(int, int)>| #[trigger] fill_path(l, sel, has_selection, t, p) && p[0] == s && p.last() == q
}

/// The pixels 4-connected to `s` through fillable pixels.
pub open spec fn reach_set(l: LayerModel, sel: SelectionModel, has_selection: bool, t: Color, s: (int, int)) -> Set<(int, int)> {
    Set::new(|q: (int, int)| reachable(l, sel, has_selection, t, s, q))
}

proof fn lemma_reach_start(l: LayerModel, sel: SelectionModel, hs: bool, t: Color, s: (int, int))
    requires
        fillable(l, sel, hs, t, s),
    ensures
        reachable(l, sel, hs, t, s, s),
{
    let p = seq![s];
    assert(fill_path(l, sel, hs, t, p));
}

proof fn lemma_reach_step(l: LayerModel, sel: SelectionModel, hs: bool, t: Color, s: (int, int), a: (int, int), b: (int, int))
    requires
        reachable(l, sel, hs, t, s, a),
        adjacent(a, b),
        fillable(l, sel, hs, t, b),
    ensures
        reachable(l, sel, hs, t, s, b),
{
    let p = choose|p: Seq<(int, int)>| #[trigger] fill_path(l, sel, hs, t, p) && p[0] == s && p.last() == a;
    let p2 = p.push(b);
    assert forall|i: int| 0 <= i < p2.len() implies fillable(l, sel, hs, t, #[trigger] p2[i]) by {
        if i < p.len() {
            assert(p2[i] == p[i]);
        }
    }
    assert forall|i: int| 0 <= i < p2.len() - 1 implies adjacent(#[trigger] p2[i], p2[i + 1]) by {
        if i < p.len() - 1 {
            assert(p2[i] == p[i] && p2[i + 1] == p[i + 1]);
        } else {
            assert(p2[i] == a);
        }
    }
    assert(fill_path(l, sel, hs, t, p2));
}

/// Reachability spreads along a row of fillable pixels.
proof fn lemma_reach_row(
    l: LayerModel,
    sel: SelectionModel,
    hs: bool,
    t: Color,
    s: (int, int),
    y: int,
    a: int,
    b: int,
)
    requires
        reachable(l, sel, hs, t, s, (a, y)),
        forall|x: int| (a <= x <= b || b <= x <= a) ==> fillable(l, sel, hs, t, (x, y)),
    ensures
        reachable(l, sel, hs, t, s, (b, y)),
    decreases if a <= b {
        b - a
    } else {
        a - b
    },
{
    if a < b {
        lemma_reach_row(l, sel, hs, t, s, y, a, b - 1);
        lemma_reach_step(l, sel, hs, t, s, (b - 1, y), (b, y));
    } else if b < a {
        lemma_reach_row(l, sel, hs, t, s, y, a, b + 1);
        lemma_reach_step(l, sel, hs, t, s, (b + 1, y), (b, y));
    }
}

/// A set that holds `s` and every fillable neighbour of its members holds every
/// pixel reachable from `s`.
proof fn lemma_closed_holds_reachable(
    l: LayerModel,
    sel: SelectionModel,
    hs: bool,
    t: Color,
    s: (int, int),
    f: Set<(int, int)>,
    q: (int, int),
)
    requires
        f.contains(s),
        forall|a: (int, int), b: (int, int)|
            #![trigger f.contains(a), adjacent(a, b)]
            f.contains(a) && adjacent(a, b) && fillable(l, sel, hs, t, b) ==> f.contains(b),
        reachable(l, sel, hs, t, s, q),
    ensures
        f.contains(q),
{
    let p = choose|p: Seq<(int, int)>| #[trigger] fill_path(l, sel, hs, t, p) && p[0] == s && p.last() == q;
    assert forall|i: int| 0 <= i < p.len() implies f.contains(#[trigger] p[i]) by {
        lemma_path_in_closed(l, sel, hs, t, f, p, i);
    }
    assert(f.contains(p[p.len() - 1]));
}

proof fn lemma_path_in_closed(
    l: LayerModel,
    sel: SelectionModel,
    hs: bool,
    t: Color,
    f: Set<(int, int)>,
    p: Seq<(int, int)>,
    i: int,
)
    requires
        fill_path(l, sel, hs, t, p),
        f.contains(p[0]),
        forall|a: (int, int), b: (int, int)|
            #![trigger f.contains(a), adjacent(a, b)]
            f.contains(a) && adjacent(a, b) && fillable(l, sel, hs, t, b) ==> f.contains(b),
        0 <= i < p.len(),
    ensures
        f.contains(p[i]),
    decreases i,
{
    if i > 0 {
        lemma_path_in_closed(l, sel, hs, t, f, p, i - 1);
        assert(adjacent(p[i - 1], p[(i - 1) + 1]));
        assert(fillable(l, sel, hs, t, p[i]));
    }
}


// ------------------------------------------------------------ fill progress
/// Pixel `q` may still be filled: fillable and not yet filled.
pub open spec fn open_px(
    l: LayerModel,
    sel: SelectionModel,
    hs: bool,
    t: Color,
    f: Set<(int, int)>,
    q: (int, int),
) -> bool {
    fillable(l, sel, hs, t, q) && !f.contains(q)
}

/// Every pixel of row `y` between columns `a` and `b` may still be filled.
pub open spec fn run_open(
    l: LayerModel,
    sel: SelectionModel,
    hs: bool,
    t: Color,
    f: Set<(int, int)>,
    y: int,
    a: int,
    b: int,
) -> bool {
    forall|x: int| (a <= x <= b || b <= x <= a) ==> #[trigger] open_px(l, sel, hs, t, f, (x, y))
}

/// Some pending seed in `q`'s row reaches `q` through pixels that may still be filled.
pub open spec fn covered(
    l: LayerModel,
    sel: SelectionModel,
    hs: bool,
    t: Color,
    f: Set<(int, int)>,
    st: Seq<(i32, i32)>,
    q: (int, int),
) -> bool {
    exists|i: int|
        0 <= i < st.len() && st[i].1 == q.1 && #[trigger] run_open(l, sel, hs, t, f, q.1, st[i].0 as int, q.0)
}

/// The pixel of index `k` in a row-by-row walk over a `w`-wide rectangle.
pub open spec fn cell(k: int, w: int) -> (int, int) {
    (k % w, k / w)
}

/// How many of the first `n` pixels of the layer may still be filled.
pub open spec fn open_count(
    l: LayerModel,
    sel: SelectionModel,
    hs: bool,
    t: Color,
    f: Set<(int, int)>,
    n: int,
) -> nat
    decreases n,
{
    if n <= 0 {
        0
    } else {
        open_count(l, sel, hs, t, f, n - 1) + if open_px(l, sel, hs, t, f, cell(n - 1, l.props.width as int)) {
            1nat
        } else {
            0nat
        }
    }
}

proof fn lemma_cell_index(k: int, w: int, h: int)
    requires
        w > 0,
        0 <= k < w * h,
    ensures
        0 <= cell(k, w).0 < w,
        0 <= cell(k, w).1 < h,
        cell(k, w).1 * w + cell(k, w).0 == k,
{
    vstd::arithmetic::div_mod::lemma_fundamental_div_mod(k, w);
    assert(k / w < h) by (nonlinear_arith)
        requires
            0 <= k < w * h,
            w > 0,
            k == w * (k / w) + k % w,
            0 <= k % w < w,
    ;
    assert(k / w >= 0) by (nonlinear_arith)
        requires
            k >= 0,
            w > 0,
    ;
    assert(w * (k / w) == (k / w) * w) by (nonlinear_arith);
}

/// Filling one more open pixel leaves one fewer open pixel.
proof fn lemma_open_count_insert(
    l: LayerModel,
    sel: SelectionModel,
    hs: bool,
    t: Color,
    f: Set<(int, int)>,
    q: (int, int),
    n: int,
)
    requires
        l.props.width > 0,
        open_px(l, sel, hs, t, f, q),
        0 <= n <= l.props.width * l.props.height,
    ensures
        open_count(l, sel, hs, t, f.insert(q), n) == open_count(l, sel, hs, t, f, n) - (if q.1 * l.props.width + q.0 < n {
            1int
        } else {
            0int
        }),
        open_count(l, sel, hs, t, f.insert(q), n) <= open_count(l, sel, hs, t, f, n),
    decreases n,
{
    let w = l.props.width as int;
    if n > 0 {
        lemma_open_count_insert(l, sel, hs, t, f, q, n - 1);
        lemma_cell_index(n - 1, w, l.props.height as int);
        let c = cell(n - 1, w);
        if c == q {
            assert(q.1 * w + q.0 == n - 1);
        } else {
            assert(open_px(l, sel, hs, t, f.insert(q), c) == open_px(l, sel, hs, t, f, c));
            if q.1 * w + q.0 == n - 1 {
                assert(0 <= q.0 < w);
                vstd::arithmetic::div_mod::lemma_fundamental_div_mod_converse(n - 1, w, q.1, q.0);
            }
        }
    }
}

/// The layer's pixels as tiles: the tile holding pixel `q`.
pub open spec fn key_of(q: (int, int)) -> (u32, u32) {
    ((q.0 as u32) / 64, (q.1 as u32) / 64)
}

/// Some filled pixel lies in tile `(cx, cy)`.
pub open spec fn touched(f: Set<(int, int)>, cx: u32, cy: u32) -> bool {
    exists|q: (int, int)| #[trigger] f.contains(q) && key_of(q) == (cx, cy)
}

/// A backup list holds a copy of tile `(cx, cy)`.
pub open spec fn has_backup(b: Seq<ChunkModel>, cx: u32, cy: u32) -> bool {
    has_chunk(b, cx, cy)
}

/// The tile data stored for `(cx, cy)`.
pub open spec fn tile_data(cs: Seq<ChunkModel>, cx: u32, cy: u32) -> Seq<u8> {
    cs[chunk_index(cs, cx, cy)].data
}

// ------------------------------------------------------------ the fill context
/// The layer being filled, the copies of its tiles taken before their first
/// change, and the bounding box of the filled pixels.
pub struct SafeFillContext {
    pub layer: Layer,
    pub backups: Vec<Chunk>,
    pub min_x: i32,
    pub min_y: i32,
    pub max_x: i32,
    pub max_y: i32,
}

pub open spec fn backups_view(b: Seq<Chunk>) -> Seq<ChunkModel> {
    b.map_values(|c: Chunk| c@)
}

impl SafeFillContext {
    /// A context over `layer`, adding to `backups`, with an empty bounding box.
    pub fn new(layer: Layer, backups: Vec<Chunk>) -> (c: SafeFillContext)
        ensures
            c.layer == layer,
            c.backups == backups,
            c.min_x == i32::MAX,
            c.min_y == i32::MAX,
            c.max_x == i32::MIN,
            c.max_y == i32::MIN,
    {
        SafeFillContext { layer, backups, min_x: i32::MAX, min_y: i32::MAX, max_x: i32::MIN, max_y: i32::MIN }
    }

    /// The colour word of layer pixel `(x, y)`: zero where no tile is stored.
    pub fn get_pixel_u32(&self, x: i32, y: i32) -> (v: u32)
        requires
            self.layer@.wf(),
            0 <= x,
            0 <= y,
        ensures
            v == color_u32(self.layer@.pixel(x as u32, y as u32)),
    {
        word_of_color(self.layer.pixel_at(x as u32, y as u32))
    }

    /// Whether layer pixel `(x, y)` may be filled: inside the selection's extent,
    /// selected where a selection is active, and of colour word `target_u32`.
    pub fn is_fillable(&self, x: i32, y: i32, target_u32: u32, has_selection: bool, sel: &SelectionData) -> (b: bool)
        requires
            self.layer@.wf(),
            sel@.wf(),
            sel.width * sel.height <= u32::MAX,
            0 <= x,
            0 <= y,
        ensures
            b == (sel_allows(self.layer@, sel@, has_selection, x as int, y as int) && color_u32(
                self.layer@.pixel(x as u32, y as u32),
            ) == target_u32),
    {
        let canvas_x = x as i64 + self.layer.offset_x as i64;
        let canvas_y = y as i64 + self.layer.offset_y as i64;
        if canvas_x < 0 || canvas_y < 0 || canvas_x >= sel.width as i64 || canvas_y >= sel.height as i64 {
            return false;
        }
        if has_selection {
            proof {
                crate::model::selection::lemma_grid_index(canvas_x as int, canvas_y as int, sel.width as int, sel.height as int);
            }
            let idx = (canvas_y as u64 * sel.width as u64 + canvas_x as u64) as usize;
            if !sel.mask[idx] {
                return false;
            }
        }
        self.get_pixel_u32(x, y) == target_u32
    }

    /// Paints layer pixel `(x, y)` with colour word `fill_u32`, first copying its
    /// tile into the backups unless a copy exists; nothing happens where the fill
    /// is fully transparent and no tile is stored there.
    #[verifier::spinoff_prover]
    #[verifier::rlimit(30)]
    pub fn set_pixel_u32(&mut self, x: i32, y: i32, fill_u32: u32)
        requires
            old(self).layer@.wf(),
            chunks_wf_keys(backups_view(old(self).backups@)),
            0 <= x < old(self).layer.width,
            0 <= y < old(self).layer.height,
        ensures
            final(self).layer@.wf(),
            final(self).layer@.props == old(self).layer@.props,
            final(self).min_x == old(self).min_x,
            final(self).min_y == old(self).min_y,
            final(self).max_x == old(self).max_x,
            final(self).max_y == old(self).max_y,
            chunks_wf_keys(backups_view(final(self).backups@)),
            forall|px: u32, py: u32| #[trigger] final(self).layer@.pixel(px, py) == if !fill_skipped(old(self).layer@, x, y, fill_u32) && px == x && py == y {
                color_of_u32(fill_u32)
            } else {
                old(self).layer@.pixel(px, py)
            },
            fill_skipped(old(self).layer@, x, y, fill_u32) ==> final(self).layer@ == old(self).layer@
                && final(self).backups@ == old(self).backups@,
            !fill_skipped(old(self).layer@, x, y, fill_u32) ==> backups_view(final(self).backups@)
                == backups_after(backups_view(old(self).backups@), old(self).layer@, (x as u32) / 64, (y as u32) / 64),
            !fill_skipped(old(self).layer@, x, y, fill_u32) ==> forall|cx: u32, cy: u32|
                !(cx == (x as u32) / 64 && cy == (y as u32) / 64) ==> #[trigger] has_chunk(final(self).layer@.chunks, cx, cy)
                    == has_chunk(old(self).layer@.chunks, cx, cy),
            !fill_skipped(old(self).layer@, x, y, fill_u32) ==> forall|cx: u32, cy: u32|
                !(cx == (x as u32) / 64 && cy == (y as u32) / 64) && has_chunk(old(self).layer@.chunks, cx, cy)
                    ==> #[trigger] tile_data(final(self).layer@.chunks, cx, cy) == tile_data(old(self).layer@.chunks, cx, cy),
            !fill_skipped(old(self).layer@, x, y, fill_u32) ==> has_chunk(final(self).layer@.chunks, (x as u32) / 64, (y as u32) / 64),
    {
        let c = color_of_word(fill_u32);
        let cx = (x as u32) / 64;
        let cy = (y as u32) / 64;
        let found = self.layer.find_chunk(cx, cy);
        assert(key_of((x as int, y as int)) == (cx, cy));
        if c.a == 0 && found.is_none() {
            return;
        }
        let ghost l = self.layer@;
        let ghost b0 = backups_view(self.backups@);
        let mut has_copy = false;
        let nb = self.backups.len();
        for i in 0..nb
            invariant
                nb == self.backups@.len(),
                b0 == backups_view(self.backups@),
                has_copy == exists|j: int| 0 <= j < i && chunk_has_key(#[trigger] b0[j], cx, cy),
        {
            if self.backups[i].cx == cx && self.backups[i].cy == cy {
                has_copy = true;
            }
            assert(b0[i as int] == self.backups@[i as int]@);
        }
        if !has_copy {
            match found {
                Some(i) => {
                    let copy = self.layer.chunks[i].clone();
                    proof {
                        crate::model::layer::lemma_chunk_index_unique(l.chunks, i as int);
                    }
                    self.backups.push(copy);
                    proof {
                        assert(backups_view(self.backups@) =~= b0.push(l.chunks[i as int]));
                        let bv = backups_view(self.backups@);
                        assert forall|p: int, q: int| 0 <= p < bv.len() && 0 <= q < bv.len() && p != q implies !chunk_has_key(
                            #[trigger] bv[p],
                            #[trigger] bv[q].cx,
                            bv[q].cy,
                        ) by {
                            if p < b0.len() && q < b0.len() {
                                assert(bv[p] == b0[p] && bv[q] == b0[q]);
                            } else if p < b0.len() {
                                assert(bv[p] == b0[p]);
                            } else if q < b0.len() {
                                assert(bv[q] == b0[q]);
                            }
                        }
                    }
                },
                None => {},
            }
        }
        proof {
            if has_chunk(l.chunks, cx, cy) {
                let i = chunk_index(l.chunks, cx, cy);
                crate::model::layer::lemma_chunk_index_unique(l.chunks, i);
            }
        }
        let ghost bk = backups_view(self.backups@);
        assert(has_copy == has_backup(b0, cx, cy));
        assert(bk == if !has_backup(b0, cx, cy) && has_chunk(l.chunks, cx, cy) {
            b0.push(l.chunks[chunk_index(l.chunks, cx, cy)])
        } else {
            b0
        });
        let _ = self.layer.set_pixel(x as u32, y as u32, c);
        proof {
            let l2 = self.layer@;
            if has_chunk(l.chunks, cx, cy) {
                let i = chunk_index(l.chunks, cx, cy);
                lemma_chunk_frame(l.chunks, l2.chunks, cx, cy, l2.chunks[i]);
            } else {
                lemma_chunk_frame(l.chunks, l2.chunks, cx, cy, l2.chunks[l.chunks.len() as int]);
            }
        }
    }
}

/// Replacing or adding tile `(cx, cy)` leaves every other tile as it was.
pub(crate) proof fn lemma_chunk_frame(l: Seq<ChunkModel>, l2: Seq<ChunkModel>, cx: u32, cy: u32, t: ChunkModel)
    requires
        crate::model::layer::chunks_wf(l),
        crate::model::layer::chunks_wf(l2),
        chunk_has_key(t, cx, cy),
        has_chunk(l, cx, cy) ==> l2 == l.update(chunk_index(l, cx, cy), t),
        !has_chunk(l, cx, cy) ==> l2 == l.push(t),
    ensures
        has_chunk(l2, cx, cy),
        forall|kx: u32, ky: u32| !(kx == cx && ky == cy) ==> #[trigger] has_chunk(l2, kx, ky) == has_chunk(l, kx, ky),
        forall|kx: u32, ky: u32|
            !(kx == cx && ky == cy) && has_chunk(l, kx, ky) ==> #[trigger] tile_data(l2, kx, ky) == tile_data(l, kx, ky),
{
    if has_chunk(l, cx, cy) {
        let i = chunk_index(l, cx, cy);
        assert(chunk_has_key(l2[i], cx, cy));
    } else {
        assert(chunk_has_key(l2[l.len() as int], cx, cy));
    }
    assert forall|kx: u32, ky: u32| !(kx == cx && ky == cy) implies #[trigger] has_chunk(l2, kx, ky) == has_chunk(l, kx, ky) by {
        if has_chunk(l, kx, ky) {
            let j = chunk_index(l, kx, ky);
            assert(l2[j] == l[j]);
            assert(chunk_has_key(l2[j], kx, ky));
        }
        if has_chunk(l2, kx, ky) {
            let j = chunk_index(l2, kx, ky);
            if j < l.len() {
                assert(l2[j] == l[j]);
                assert(chunk_has_key(l[j], kx, ky));
            }
        }
    }
    assert forall|kx: u32, ky: u32| !(kx == cx && ky == cy) && has_chunk(l, kx, ky) implies #[trigger] tile_data(l2, kx, ky) == tile_data(l, kx, ky) by {
        let j = chunk_index(l, kx, ky);
        crate::model::layer::lemma_chunk_index_unique(l, j);
        assert(l2[j] == l[j]);
        assert(chunk_has_key(l2[j], kx, ky));
        crate::model::layer::lemma_chunk_index_unique(l2, j);
    }
}

/// Painting `fill` at `(x, y)` does nothing: the fill is fully transparent and
/// no tile is stored there.
pub open spec fn fill_skipped(l: LayerModel, x: i32, y: i32, fill: u32) -> bool {
    color_of_u32(fill).a == 0 && !has_chunk(l.chunks, (x as u32) / 64, (y as u32) / 64)
}

/// The backups after the first change to tile `(cx, cy)`: a copy of the tile is
/// added unless one exists or the tile is not stored.
pub open spec fn backups_after(b: Seq<ChunkModel>, l: LayerModel, cx: u32, cy: u32) -> Seq<ChunkModel> {
    if !has_backup(b, cx, cy) && has_chunk(l.chunks, cx, cy) {
        b.push(l.chunks[chunk_index(l.chunks, cx, cy)])
    } else {
        b
    }
}

/// No two tiles of a list share coordinates.
pub open spec fn chunks_wf_keys(cs: Seq<ChunkModel>) -> bool {
    forall|i: int, j: int|
        0 <= i < cs.len() && 0 <= j < cs.len() && i != j ==> !chunk_has_key(
            #[trigger] cs[i],
            #[trigger] cs[j].cx,
            cs[j].cy,
        )
}


// ------------------------------------------------------------ scanning a row
/// What `is_fillable` answers for layer pixel `(x, y)`.
pub open spec fn word_fillable(l: LayerModel, sel: SelectionModel, hs: bool, tw: u32, x: int, y: int) -> bool {
    sel_allows(l, sel, hs, x, y) && color_u32(l.pixel(x as u32, y as u32)) == tw
}

/// Column `x` starts a run of fillable pixels within `x1..`.
pub open spec fn run_start(l: LayerModel, sel: SelectionModel, hs: bool, tw: u32, x1: int, x: int, y: int) -> bool {
    word_fillable(l, sel, hs, tw, x, y) && (x == x1 || !word_fillable(l, sel, hs, tw, x - 1, y))
}

/// Every fillable pixel of a row lies in a run that starts at or after `x1`.
pub proof fn lemma_run_start_exists(l: LayerModel, sel: SelectionModel, hs: bool, tw: u32, x1: int, x: int, y: int)
    requires
        x1 <= x,
        word_fillable(l, sel, hs, tw, x, y),
    ensures
        exists|s: int|
            x1 <= s <= x && #[trigger] run_start(l, sel, hs, tw, x1, s, y) && forall|z: int|
                s <= z <= x ==> word_fillable(l, sel, hs, tw, z, y),
    decreases x - x1,
{
    if x == x1 || !word_fillable(l, sel, hs, tw, x - 1, y) {
        assert(run_start(l, sel, hs, tw, x1, x, y));
    } else {
        lemma_run_start_exists(l, sel, hs, tw, x1, x - 1, y);
        let s = choose|s: int|
            x1 <= s <= x - 1 && #[trigger] run_start(l, sel, hs, tw, x1, s, y) && forall|z: int|
                s <= z <= x - 1 ==> word_fillable(l, sel, hs, tw, z, y);
        assert(run_start(l, sel, hs, tw, x1, s, y));
    }
}

/// Pushes the leftmost pixel of each run of fillable pixels of row `y` between
/// columns `x1` and `x2`, from left to right.
#[verifier::spinoff_prover]
pub fn scan_line(
    ctx: &SafeFillContext,
    x1: i32,
    x2: i32,
    y: i32,
    target_u32: u32,
    stack: &mut Vec<(i32, i32)>,
    has_selection: bool,
    sel: &SelectionData,
)
    requires
        ctx.layer@.wf(),
        sel@.wf(),
        sel.width * sel.height <= u32::MAX,
        0 <= x1 <= x2 + 1,
        0 <= y,
        x2 < i32::MAX,
    ensures
        final(stack)@.len() >= old(stack)@.len(),
        forall|k: int| 0 <= k < old(stack)@.len() ==> #[trigger] final(stack)@[k] == old(stack)@[k],
        forall|k: int|
            old(stack)@.len() <= k < final(stack)@.len() ==> (#[trigger] final(stack)@[k]).1 == y && x1
                <= final(stack)@[k].0 <= x2 && run_start(
                ctx.layer@,
                sel@,
                has_selection,
                target_u32,
                x1 as int,
                final(stack)@[k].0 as int,
                y as int,
            ),
        forall|k: int, j: int|
            old(stack)@.len() <= k < j < final(stack)@.len() ==> (#[trigger] final(stack)@[k]).0 < (
            #[trigger] final(stack)@[j]).0,
        forall|x: int|
            x1 <= x <= x2 && #[trigger] run_start(ctx.layer@, sel@, has_selection, target_u32, x1 as int, x, y as int)
                ==> exists|k: int| old(stack)@.len() <= k < final(stack)@.len() && (#[trigger] final(stack)@[k]).0 == x,
{
    let ghost l = ctx.layer@;
    let ghost n0 = stack@.len();
    let mut in_span = false;
    let mut x = x1;
    while x <= x2
        invariant
            l == ctx.layer@,
            ctx.layer@.wf(),
            sel@.wf(),
            sel.width * sel.height <= u32::MAX,
            0 <= x1 <= x,
            x <= x2 + 1,
            x2 < i32::MAX,
            0 <= y,
            n0 == old(stack)@.len(),
            stack@.len() >= n0,
            forall|k: int| 0 <= k < n0 ==> #[trigger] stack@[k] == old(stack)@[k],
            forall|k: int|
                n0 <= k < stack@.len() ==> (#[trigger] stack@[k]).1 == y && x1 <= stack@[k].0 < x && run_start(
                    l,
                    sel@,
                    has_selection,
                    target_u32,
                    x1 as int,
                    stack@[k].0 as int,
                    y as int,
                ),
            forall|k: int, j: int| n0 <= k < j < stack@.len() ==> (#[trigger] stack@[k]).0 < (#[trigger] stack@[j]).0,
            forall|z: int|
                x1 <= z < x && #[trigger] run_start(l, sel@, has_selection, target_u32, x1 as int, z, y as int) ==> exists|k: int|
                    n0 <= k < stack@.len() && (#[trigger] stack@[k]).0 == z,
            in_span == (x > x1 && word_fillable(l, sel@, has_selection, target_u32, x - 1, y as int)),
        decreases x2 + 1 - x,
    {
        let f = ctx.is_fillable(x, y, target_u32, has_selection, sel);
        let ghost before = stack@;
        if f {
            if !in_span {
                stack.push((x, y));
                proof {
                    assert(stack@[stack@.len() - 1] == (x, y));
                    assert forall|k: int| 0 <= k < n0 implies #[trigger] stack@[k] == old(stack)@[k] by {
                        assert(stack@[k] == before[k]);
                    }
                    assert forall|k: int, j: int| n0 <= k < j < stack@.len() implies (#[trigger] stack@[k]).0 < (
                    #[trigger] stack@[j]).0 by {
                        if j < before.len() {
                            assert(stack@[k] == before[k] && stack@[j] == before[j]);
                        } else {
                            assert(stack@[k] == before[k]);
                        }
                    }
                    assert forall|z: int|
                        x1 <= z < x + 1 && #[trigger] run_start(l, sel@, has_selection, target_u32, x1 as int, z, y as int)
                        implies exists|k: int| n0 <= k < stack@.len() && (#[trigger] stack@[k]).0 == z by {
                        if z < x {
                            let k = choose|k: int| n0 <= k < before.len() && (#[trigger] before[k]).0 == z;
                            assert(stack@[k] == before[k]);
                        } else {
                            assert(stack@[stack@.len() - 1].0 == z);
                        }
                    }
                }
                in_span = true;
            } else {
                proof {
                    assert(!run_start(l, sel@, has_selection, target_u32, x1 as int, x as int, y as int));
                }
            }
        } else {
            in_span = false;
        }
        x = x + 1;
    }
}


// ------------------------------------------------------------ the fill
/// The pixels already filled, inside the layer.
pub open spec fn filled_image(cur: LayerModel, l0: LayerModel, f: Set<(int, int)>, fill: Color) -> bool {
    &&& cur.wf()
    &&& cur.props == l0.props
    &&& forall|x: u32, y: u32| #[trigger] cur.pixel(x, y) == if f.contains((x as int, y as int)) {
        fill
    } else {
        l0.pixel(x, y)
    }
}

/// Every filled pixel with an unfilled fillable neighbour has that neighbour
/// covered by a pending seed.
pub open spec fn fill_covered(
    l0: LayerModel,
    sel: SelectionModel,
    hs: bool,
    t: Color,
    f: Set<(int, int)>,
    st: Seq<(i32, i32)>,
) -> bool {
    forall|a: (int, int), b: (int, int)|
        #![trigger f.contains(a), adjacent(a, b)]
        f.contains(a) && adjacent(a, b) && open_px(l0, sel, hs, t, f, b) ==> covered(l0, sel, hs, t, f, st, b)
}

proof fn lemma_cur_fillable(cur: LayerModel, l0: LayerModel, sel: SelectionModel, hs: bool, t: Color, f: Set<(int, int)>, fill: Color, q: (int, int))
    requires
        filled_image(cur, l0, f, fill),
        fill != t,
        l0.in_bounds(q.0, q.1),
        forall|p: (int, int)| #[trigger] f.contains(p) ==> l0.in_bounds(p.0, p.1),
    ensures
        word_fillable(cur, sel, hs, color_u32(t), q.0, q.1) == open_px(l0, sel, hs, t, f, q),
{
    lemma_color_u32(cur.pixel(q.0 as u32, q.1 as u32), t);
    assert(cur.pixel(q.0 as u32, q.1 as u32) == if f.contains(((q.0 as u32) as int, (q.1 as u32) as int)) {
        fill
    } else {
        l0.pixel(q.0 as u32, q.1 as u32)
    });
    assert(((q.0 as u32) as int, (q.1 as u32) as int) == q);
}

/// A row run of open pixels that meets a maximal open span stays inside it.
proof fn lemma_span_maximal(
    l0: LayerModel,
    sel: SelectionModel,
    hs: bool,
    t: Color,
    f: Set<(int, int)>,
    py: int,
    x1: int,
    x2: int,
    u: int,
    v: int,
)
    requires
        x1 <= u <= x2,
        !open_px(l0, sel, hs, t, f, (x1 - 1, py)),
        !open_px(l0, sel, hs, t, f, (x2 + 1, py)),
        run_open(l0, sel, hs, t, f, py, u, v),
    ensures
        x1 <= v <= x2,
{
    if v < x1 {
        assert(open_px(l0, sel, hs, t, f, (x1 - 1, py)));
    }
    if v > x2 {
        assert(open_px(l0, sel, hs, t, f, (x2 + 1, py)));
    }
}


/// What holds between rounds of the fill: every filled pixel lies on the layer
/// and is reachable; every seed lies on the layer and, while it may still be
/// filled, is reachable; every unfilled fillable neighbour of a filled pixel,
/// and the start while it is unfilled and fillable, is covered by a seed.
#[verifier::opaque]
pub open spec fn fill_inv(
    l0: LayerModel,
    sel: SelectionModel,
    hs: bool,
    t: Color,
    s0: (int, int),
    f: Set<(int, int)>,
    st: Seq<(i32, i32)>,
) -> bool {
    &&& forall|p: (int, int)| #[trigger] f.contains(p) ==> l0.in_bounds(p.0, p.1) && reachable(l0, sel, hs, t, s0, p)
    &&& forall|i: int|
        0 <= i < st.len() ==> l0.in_bounds((#[trigger] st[i]).0 as int, st[i].1 as int) && (open_px(
            l0,
            sel,
            hs,
            t,
            f,
            (st[i].0 as int, st[i].1 as int),
        ) ==> reachable(l0, sel, hs, t, s0, (st[i].0 as int, st[i].1 as int)))
    &&& fill_covered(l0, sel, hs, t, f, st)
    &&& open_px(l0, sel, hs, t, f, s0) ==> covered(l0, sel, hs, t, f, st, s0)
}

pub proof fn lemma_inv_facts(l0: LayerModel, sel: SelectionModel, hs: bool, t: Color, s0: (int, int), f: Set<(int, int)>, st: Seq<(i32, i32)>)
    requires
        fill_inv(l0, sel, hs, t, s0, f, st),
    ensures
        forall|p: (int, int)| #[trigger] f.contains(p) ==> l0.in_bounds(p.0, p.1),
        forall|i: int| 0 <= i < st.len() ==> l0.in_bounds((#[trigger] st[i]).0 as int, st[i].1 as int),
{
    reveal(fill_inv);
}

proof fn lemma_inv_init(l0: LayerModel, sel: SelectionModel, hs: bool, t: Color, s0: (int, int))
    requires
        l0.in_bounds(s0.0, s0.1),
        -0x8000_0000 <= s0.0 < 0x8000_0000,
        -0x8000_0000 <= s0.1 < 0x8000_0000,
    ensures
        fill_inv(l0, sel, hs, t, s0, Set::empty(), seq![(s0.0 as i32, s0.1 as i32)]),
{
    reveal(fill_inv);
    let f = Set::<(int, int)>::empty();
    let st = seq![(s0.0 as i32, s0.1 as i32)];
    if open_px(l0, sel, hs, t, f, s0) {
        lemma_reach_start(l0, sel, hs, t, s0);
        assert(run_open(l0, sel, hs, t, f, s0.1, st[0].0 as int, s0.0));
    }
    assert forall|i: int| 0 <= i < st.len() implies l0.in_bounds((#[trigger] st[i]).0 as int, st[i].1 as int) && (open_px(
        l0,
        sel,
        hs,
        t,
        f,
        (st[i].0 as int, st[i].1 as int),
    ) ==> reachable(l0, sel, hs, t, s0, (st[i].0 as int, st[i].1 as int))) by {
        if open_px(l0, sel, hs, t, f, s0) {
            lemma_reach_start(l0, sel, hs, t, s0);
        }
    }
}

/// Dropping a seed that may no longer be filled keeps the invariant.
proof fn lemma_inv_drop(
    l0: LayerModel,
    sel: SelectionModel,
    hs: bool,
    t: Color,
    s0: (int, int),
    f: Set<(int, int)>,
    st: Seq<(i32, i32)>,
    e: (i32, i32),
)
    requires
        fill_inv(l0, sel, hs, t, s0, f, st.push(e)),
        !open_px(l0, sel, hs, t, f, (e.0 as int, e.1 as int)),
    ensures
        fill_inv(l0, sel, hs, t, s0, f, st),
{
    reveal(fill_inv);
    let st0 = st.push(e);
    assert forall|i: int| 0 <= i < st.len() implies l0.in_bounds((#[trigger] st[i]).0 as int, st[i].1 as int) && (open_px(
        l0,
        sel,
        hs,
        t,
        f,
        (st[i].0 as int, st[i].1 as int),
    ) ==> reachable(l0, sel, hs, t, s0, (st[i].0 as int, st[i].1 as int))) by {
        assert(st[i] == st0[i]);
    }
    assert forall|a: (int, int), b: (int, int)|
        #![trigger f.contains(a), adjacent(a, b)]
        f.contains(a) && adjacent(a, b) && open_px(l0, sel, hs, t, f, b) implies covered(l0, sel, hs, t, f, st, b) by {
        lemma_cover_drop(l0, sel, hs, t, f, st, e, b);
    }
    if open_px(l0, sel, hs, t, f, s0) {
        lemma_cover_drop(l0, sel, hs, t, f, st, e, s0);
    }
}

proof fn lemma_cover_drop(
    l0: LayerModel,
    sel: SelectionModel,
    hs: bool,
    t: Color,
    f: Set<(int, int)>,
    st: Seq<(i32, i32)>,
    e: (i32, i32),
    b: (int, int),
)
    requires
        covered(l0, sel, hs, t, f, st.push(e), b),
        !open_px(l0, sel, hs, t, f, (e.0 as int, e.1 as int)),
    ensures
        covered(l0, sel, hs, t, f, st, b),
{
    let st0 = st.push(e);
    let i = choose|i: int| 0 <= i < st0.len() && st0[i].1 == b.1 && #[trigger] run_open(l0, sel, hs, t, f, b.1, st0[i].0 as int, b.0);
    if i == st.len() {
        assert(open_px(l0, sel, hs, t, f, (st0[i].0 as int, b.1)));
    } else {
        assert(st[i] == st0[i]);
        assert(run_open(l0, sel, hs, t, f, b.1, st[i].0 as int, b.0));
    }
}

/// Every open pixel of a row lies in a run of open pixels that starts at or
/// after `x1`.
proof fn lemma_open_run_start(l0: LayerModel, sel: SelectionModel, hs: bool, t: Color, f: Set<(int, int)>, x1: int, x: int, y: int)
    requires
        x1 <= x,
        open_px(l0, sel, hs, t, f, (x, y)),
    ensures
        exists|s: int|
            x1 <= s <= x && (s == x1 || !open_px(l0, sel, hs, t, f, (s - 1, y))) && #[trigger] run_open(l0, sel, hs, t, f, y, s, x),
    decreases x - x1,
{
    if x == x1 || !open_px(l0, sel, hs, t, f, (x - 1, y)) {
        assert(run_open(l0, sel, hs, t, f, y, x, x));
    } else {
        lemma_open_run_start(l0, sel, hs, t, f, x1, x - 1, y);
        let s = choose|s: int|
            x1 <= s <= x - 1 && (s == x1 || !open_px(l0, sel, hs, t, f, (s - 1, y))) && #[trigger] run_open(l0, sel, hs, t, f, y, s, x - 1);
        assert(run_open(l0, sel, hs, t, f, y, s, x));
    }
}

/// One round of the fill: the seed `e` lay in the maximal span of open pixels
/// `x1..=x2` of its row, the span was filled (`f` became `f2`), the seed was
/// popped from `st` and the run starts of the rows above and below the span
/// were pushed (giving `st2`).
pub open spec fn span_step(
    l0: LayerModel,
    sel: SelectionModel,
    hs: bool,
    t: Color,
    f: Set<(int, int)>,
    st: Seq<(i32, i32)>,
    e: (i32, i32),
    x1: int,
    x2: int,
    f2: Set<(int, int)>,
    st2: Seq<(i32, i32)>,
) -> bool {
    &&& x1 <= e.0 <= x2
    &&& forall|z: int| x1 <= z <= x2 ==> #[trigger] open_px(l0, sel, hs, t, f, (z, e.1 as int))
    &&& !open_px(l0, sel, hs, t, f, (x1 - 1, e.1 as int))
    &&& !open_px(l0, sel, hs, t, f, (x2 + 1, e.1 as int))
    &&& forall|p: (int, int)| #[trigger] f2.contains(p) <==> f.contains(p) || (p.1 == e.1 && x1 <= p.0 <= x2)
    &&& st2.len() >= st.len()
    &&& forall|i: int| 0 <= i < st.len() ==> #[trigger] st2[i] == st[i]
    &&& forall|k: int|
        st.len() <= k < st2.len() ==> (#[trigger] st2[k].1 == e.1 - 1 || st2[k].1 == e.1 + 1) && x1 <= st2[k].0 <= x2
            && open_px(l0, sel, hs, t, f2, (st2[k].0 as int, st2[k].1 as int))
    &&& forall|r: int, x: int|
        (r == e.1 - 1 || r == e.1 + 1) && x1 <= x <= x2 && #[trigger] open_px(l0, sel, hs, t, f2, (x, r)) && (x == x1
            || !open_px(l0, sel, hs, t, f2, (x - 1, r))) ==> exists|k: int|
            st.len() <= k < st2.len() && #[trigger] st2[k] == (x as i32, r as i32)
}

proof fn lemma_span_filled(
    l0: LayerModel,
    sel: SelectionModel,
    hs: bool,
    t: Color,
    s0: (int, int),
    f: Set<(int, int)>,
    st: Seq<(i32, i32)>,
    e: (i32, i32),
    x1: int,
    x2: int,
    f2: Set<(int, int)>,
    st2: Seq<(i32, i32)>,
)
    requires
        fill_inv(l0, sel, hs, t, s0, f, st.push(e)),
        span_step(l0, sel, hs, t, f, st, e, x1, x2, f2, st2),
    ensures
        reachable(l0, sel, hs, t, s0, (e.0 as int, e.1 as int)),
        forall|p: (int, int)| #[trigger] f2.contains(p) ==> l0.in_bounds(p.0, p.1) && reachable(l0, sel, hs, t, s0, p),
{
    reveal(fill_inv);
    let st0 = st.push(e);
    let py = e.1 as int;
    assert(st0[st.len() as int] == e);
    assert(open_px(l0, sel, hs, t, f, (e.0 as int, py)));
    assert forall|p: (int, int)| #[trigger] f2.contains(p) implies l0.in_bounds(p.0, p.1) && reachable(l0, sel, hs, t, s0, p) by {
        if !f.contains(p) {
            assert(open_px(l0, sel, hs, t, f, (p.0, py)));
            assert forall|x: int| (e.0 <= x <= p.0 || p.0 <= x <= e.0) implies fillable(l0, sel, hs, t, (x, py)) by {
                assert(open_px(l0, sel, hs, t, f, (x, py)));
            }
            lemma_reach_row(l0, sel, hs, t, s0, py, e.0 as int, p.0);
        }
    }
}

proof fn lemma_span_seeds(
    l0: LayerModel,
    sel: SelectionModel,
    hs: bool,
    t: Color,
    s0: (int, int),
    f: Set<(int, int)>,
    st: Seq<(i32, i32)>,
    e: (i32, i32),
    x1: int,
    x2: int,
    f2: Set<(int, int)>,
    st2: Seq<(i32, i32)>,
)
    requires
        fill_inv(l0, sel, hs, t, s0, f, st.push(e)),
        span_step(l0, sel, hs, t, f, st, e, x1, x2, f2, st2),
        forall|p: (int, int)| #[trigger] f2.contains(p) ==> l0.in_bounds(p.0, p.1) && reachable(l0, sel, hs, t, s0, p),
    ensures
        forall|i: int|
            0 <= i < st2.len() ==> l0.in_bounds((#[trigger] st2[i]).0 as int, st2[i].1 as int) && (open_px(
                l0,
                sel,
                hs,
                t,
                f2,
                (st2[i].0 as int, st2[i].1 as int),
            ) ==> reachable(l0, sel, hs, t, s0, (st2[i].0 as int, st2[i].1 as int))),
{
    reveal(fill_inv);
    let st0 = st.push(e);
    let py = e.1 as int;
    assert forall|i: int| 0 <= i < st2.len() implies l0.in_bounds((#[trigger] st2[i]).0 as int, st2[i].1 as int) && (open_px(
        l0,
        sel,
        hs,
        t,
        f2,
        (st2[i].0 as int, st2[i].1 as int),
    ) ==> reachable(l0, sel, hs, t, s0, (st2[i].0 as int, st2[i].1 as int))) by {
        if i < st.len() {
            assert(st2[i] == st0[i]);
            if open_px(l0, sel, hs, t, f2, (st2[i].0 as int, st2[i].1 as int)) {
                assert(open_px(l0, sel, hs, t, f, (st0[i].0 as int, st0[i].1 as int)));
            }
        } else {
            let q = (st2[i].0 as int, st2[i].1 as int);
            assert(open_px(l0, sel, hs, t, f2, q));
            assert(f2.contains((q.0, py)));
            lemma_reach_step(l0, sel, hs, t, s0, (q.0, py), q);
        }
    }
}

proof fn lemma_span_keeps_cover(
    l0: LayerModel,
    sel: SelectionModel,
    hs: bool,
    t: Color,
    f: Set<(int, int)>,
    st: Seq<(i32, i32)>,
    e: (i32, i32),
    x1: int,
    x2: int,
    f2: Set<(int, int)>,
    st2: Seq<(i32, i32)>,
    b: (int, int),
)
    requires
        span_step(l0, sel, hs, t, f, st, e, x1, x2, f2, st2),
        open_px(l0, sel, hs, t, f2, b),
        covered(l0, sel, hs, t, f, st.push(e), b),
    ensures
        covered(l0, sel, hs, t, f2, st2, b),
{
    let st0 = st.push(e);
    let py = e.1 as int;
    let i = choose|i: int| 0 <= i < st0.len() && st0[i].1 == b.1 && #[trigger] run_open(l0, sel, hs, t, f, b.1, st0[i].0 as int, b.0);
    if i == st.len() {
        assert(st0[i] == e);
        lemma_span_maximal(l0, sel, hs, t, f, py, x1, x2, e.0 as int, b.0);
        assert(f2.contains(b));
    } else {
        assert(st2[i] == st[i] && st[i] == st0[i]);
        assert forall|z: int| (st2[i].0 <= z <= b.0 || b.0 <= z <= st2[i].0) implies #[trigger] open_px(l0, sel, hs, t, f2, (z, b.1)) by {
            assert(open_px(l0, sel, hs, t, f, (z, b.1)));
            if b.1 == py && x1 <= z <= x2 {
                assert(run_open(l0, sel, hs, t, f, py, z, b.0)) by {
                    assert forall|zz: int| (z <= zz <= b.0 || b.0 <= zz <= z) implies #[trigger] open_px(l0, sel, hs, t, f, (zz, py)) by {
                        assert(open_px(l0, sel, hs, t, f, (zz, b.1)));
                    }
                }
                lemma_span_maximal(l0, sel, hs, t, f, py, x1, x2, z, b.0);
                assert(f2.contains(b));
            }
        }
        assert(run_open(l0, sel, hs, t, f2, b.1, st2[i].0 as int, b.0));
    }
}

#[verifier::spinoff_prover]
#[verifier::rlimit(50)]
proof fn lemma_span_new_cover(
    l0: LayerModel,
    sel: SelectionModel,
    hs: bool,
    t: Color,
    f: Set<(int, int)>,
    st: Seq<(i32, i32)>,
    e: (i32, i32),
    x1: int,
    x2: int,
    f2: Set<(int, int)>,
    st2: Seq<(i32, i32)>,
    a: (int, int),
    b: (int, int),
)
    requires
        span_step(l0, sel, hs, t, f, st, e, x1, x2, f2, st2),
        f2.contains(a),
        !f.contains(a),
        adjacent(a, b),
        open_px(l0, sel, hs, t, f2, b),
        l0.props.width <= i32::MAX,
        l0.props.height <= i32::MAX,
    ensures
        covered(l0, sel, hs, t, f2, st2, b),
{
    let py = e.1 as int;
    assert(f2.contains(a));
    assert(a.1 == py && x1 <= a.0 <= x2);
    assert(open_px(l0, sel, hs, t, f, b));
    if b.1 == py {
        assert(!f2.contains(b));
        assert(b.0 == x1 - 1 || b.0 == x2 + 1);
    } else {
        let r = b.1;
        lemma_open_run_start(l0, sel, hs, t, f2, x1, b.0, r);
        let sx = choose|sx: int|
            x1 <= sx <= b.0 && (sx == x1 || !open_px(l0, sel, hs, t, f2, (sx - 1, r))) && #[trigger] run_open(
                l0,
                sel,
                hs,
                t,
                f2,
                r,
                sx,
                b.0,
            );
        assert(open_px(l0, sel, hs, t, f2, (sx, r)));
        let k = choose|k: int| st.len() <= k < st2.len() && #[trigger] st2[k] == (sx as i32, r as i32);
        assert(st2[k].0 as int == sx && st2[k].1 as int == r);
        assert(run_open(l0, sel, hs, t, f2, r, st2[k].0 as int, b.0));
    }
}

/// Filling a maximal span of open pixels around a seed, then pushing the run
/// starts of the rows above and below it, keeps the invariant.
proof fn lemma_inv_span(
    l0: LayerModel,
    sel: SelectionModel,
    hs: bool,
    t: Color,
    s0: (int, int),
    f: Set<(int, int)>,
    st: Seq<(i32, i32)>,
    e: (i32, i32),
    x1: int,
    x2: int,
    f2: Set<(int, int)>,
    st2: Seq<(i32, i32)>,
)
    requires
        fill_inv(l0, sel, hs, t, s0, f, st.push(e)),
        span_step(l0, sel, hs, t, f, st, e, x1, x2, f2, st2),
        l0.props.width <= i32::MAX,
        l0.props.height <= i32::MAX,
    ensures
        fill_inv(l0, sel, hs, t, s0, f2, st2),
{
    lemma_span_filled(l0, sel, hs, t, s0, f, st, e, x1, x2, f2, st2);
    lemma_span_seeds(l0, sel, hs, t, s0, f, st, e, x1, x2, f2, st2);
    reveal(fill_inv);
    let st0 = st.push(e);
    assert forall|a: (int, int), b: (int, int)|
        #![trigger f2.contains(a), adjacent(a, b)]
        f2.contains(a) && adjacent(a, b) && open_px(l0, sel, hs, t, f2, b) implies covered(l0, sel, hs, t, f2, st2, b) by {
        if f.contains(a) {
            assert(open_px(l0, sel, hs, t, f, b));
            assert(covered(l0, sel, hs, t, f, st0, b));
            lemma_span_keeps_cover(l0, sel, hs, t, f, st, e, x1, x2, f2, st2, b);
        } else {
            lemma_span_new_cover(l0, sel, hs, t, f, st, e, x1, x2, f2, st2, a, b);
        }
    }
    if open_px(l0, sel, hs, t, f2, s0) {
        assert(open_px(l0, sel, hs, t, f, s0));
        lemma_span_keeps_cover(l0, sel, hs, t, f, st, e, x1, x2, f2, st2, s0);
    }
}

/// Once no seed is left, the filled pixels are exactly the reachable ones.
proof fn lemma_inv_done(l0: LayerModel, sel: SelectionModel, hs: bool, t: Color, s0: (int, int), f: Set<(int, int)>, q: (int, int))
    requires
        fill_inv(l0, sel, hs, t, s0, f, Seq::empty()),
    ensures
        f.contains(q) <==> reachable(l0, sel, hs, t, s0, q),
{
    reveal(fill_inv);
    if reachable(l0, sel, hs, t, s0, q) {
        let p = choose|p: Seq<(int, int)>| #[trigger] fill_path(l0, sel, hs, t, p) && p[0] == s0 && p.last() == q;
        assert(fillable(l0, sel, hs, t, p[0]));
        if !f.contains(s0) {
            assert(open_px(l0, sel, hs, t, f, s0));
        }
        assert forall|a: (int, int), b: (int, int)|
            #![trigger f.contains(a), adjacent(a, b)]
            f.contains(a) && adjacent(a, b) && fillable(l0, sel, hs, t, b) implies f.contains(b) by {
            if !f.contains(b) {
                assert(open_px(l0, sel, hs, t, f, b));
            }
        }
        lemma_closed_holds_reachable(l0, sel, hs, t, s0, f, q);
    }
}


/// The run starts `scan_line` pushed, restated over the filled set.
proof fn lemma_scan_open(
    cur: LayerModel,
    l0: LayerModel,
    sel: SelectionModel,
    hs: bool,
    t: Color,
    f: Set<(int, int)>,
    fill: Color,
    st: Seq<(i32, i32)>,
    st2: Seq<(i32, i32)>,
    x1: int,
    x2: int,
    r: int,
)
    requires
        filled_image(cur, l0, f, fill),
        fill != t,
        forall|p: (int, int)| #[trigger] f.contains(p) ==> l0.in_bounds(p.0, p.1),
        0 <= x1 <= x2 < l0.props.width,
        0 <= r < l0.props.height,
        st2.len() >= st.len(),
        forall|k: int|
            st.len() <= k < st2.len() ==> (#[trigger] st2[k]).1 == r && x1 <= st2[k].0 <= x2 && run_start(
                cur,
                sel,
                hs,
                color_u32(t),
                x1,
                st2[k].0 as int,
                r,
            ),
        forall|x: int|
            x1 <= x <= x2 && #[trigger] run_start(cur, sel, hs, color_u32(t), x1, x, r) ==> exists|k: int|
                st.len() <= k < st2.len() && (#[trigger] st2[k]).0 == x,
    ensures
        forall|k: int|
            st.len() <= k < st2.len() ==> (#[trigger] st2[k]).1 == r && x1 <= st2[k].0 <= x2 && open_px(
                l0,
                sel,
                hs,
                t,
                f,
                (st2[k].0 as int, st2[k].1 as int),
            ),
        forall|x: int|
            x1 <= x <= x2 && #[trigger] open_px(l0, sel, hs, t, f, (x, r)) && (x == x1 || !open_px(l0, sel, hs, t, f, (x - 1, r)))
                ==> exists|k: int| st.len() <= k < st2.len() && #[trigger] st2[k] == (x as i32, r as i32),
{
    assert forall|k: int| st.len() <= k < st2.len() implies (#[trigger] st2[k]).1 == r && x1 <= st2[k].0 <= x2 && open_px(
        l0,
        sel,
        hs,
        t,
        f,
        (st2[k].0 as int, st2[k].1 as int),
    ) by {
        lemma_cur_fillable(cur, l0, sel, hs, t, f, fill, (st2[k].0 as int, r));
    }
    assert forall|x: int|
        x1 <= x <= x2 && #[trigger] open_px(l0, sel, hs, t, f, (x, r)) && (x == x1 || !open_px(l0, sel, hs, t, f, (x - 1, r)))
        implies exists|k: int| st.len() <= k < st2.len() && #[trigger] st2[k] == (x as i32, r as i32) by {
        lemma_cur_fillable(cur, l0, sel, hs, t, f, fill, (x, r));
        if x > x1 {
            lemma_cur_fillable(cur, l0, sel, hs, t, f, fill, (x - 1, r));
        }
        assert(run_start(cur, sel, hs, color_u32(t), x1, x, r));
        let k = choose|k: int| st.len() <= k < st2.len() && (#[trigger] st2[k]).0 == x;
        assert(st2[k] == (x as i32, r as i32));
    }
}

/// The fill never meets a pixel it cannot paint: with a fully transparent
/// fill colour and a transparent target, every reachable pixel lies in a
/// stored tile.
pub open spec fn fill_paints_all(l: LayerModel, sel: SelectionModel, hs: bool, t: Color, s: (int, int), fill: Color) -> bool {
    fill.a != 0 || t != transparent_color() || forall|q: (int, int)|
        #[trigger] reachable(l, sel, hs, t, s, q) ==> has_chunk(l.chunks, key_of(q).0, key_of(q).1)
}

/// A seed that may still be filled is reachable, and so is every pixel of an
/// open run through it.
proof fn lemma_span_reachable(
    l0: LayerModel,
    sel: SelectionModel,
    hs: bool,
    t: Color,
    s0: (int, int),
    f: Set<(int, int)>,
    st: Seq<(i32, i32)>,
    px: int,
    py: int,
    x1: int,
    x2: int,
    z: int,
)
    requires
        fill_inv(l0, sel, hs, t, s0, f, st),
        st.len() > 0,
        st.last() == (px as i32, py as i32),
        px == st.last().0,
        py == st.last().1,
        x1 <= px <= x2,
        forall|w: int| x1 <= w <= x2 ==> #[trigger] open_px(l0, sel, hs, t, f, (w, py)),
        x1 <= z <= x2,
    ensures
        reachable(l0, sel, hs, t, s0, (z, py)),
{
    reveal(fill_inv);
    assert(st[st.len() - 1] == st.last());
    assert(open_px(l0, sel, hs, t, f, (px, py)));
    assert(reachable(l0, sel, hs, t, s0, (px, py)));
    assert forall|w: int| (px <= w <= z || z <= w <= px) implies fillable(l0, sel, hs, t, (w, py)) by {
        assert(open_px(l0, sel, hs, t, f, (w, py)));
    }
    lemma_reach_row(l0, sel, hs, t, s0, py, px, z);
}

/// Growing the box to hold a filled row span keeps it around the filled pixels
/// and tight.
proof fn lemma_bbox_span(
    fa: Set<(int, int)>,
    f: Set<(int, int)>,
    x1: i32,
    x2: i32,
    py: i32,
    ob: (i32, i32, i32, i32),
    nb: (i32, i32, i32, i32),
    m0: (i32, i32, i32, i32),
)
    requires
        x1 <= x2,
        forall|p: (int, int)| #[trigger] f.contains(p) <==> fa.contains(p) || (p.1 == py && x1 <= p.0 <= x2),
        bbox_holds(fa, ob.0, ob.1, ob.2, ob.3),
        bbox_tight(fa, ob.0, ob.1, ob.2, ob.3, m0),
        nb.0 == (if x1 < ob.0 { x1 } else { ob.0 }),
        nb.1 == (if x2 > ob.1 { x2 } else { ob.1 }),
        nb.2 == (if py < ob.2 { py } else { ob.2 }),
        nb.3 == (if py > ob.3 { py } else { ob.3 }),
    ensures
        bbox_holds(f, nb.0, nb.1, nb.2, nb.3),
        bbox_tight(f, nb.0, nb.1, nb.2, nb.3, m0),
{
    assert(f.contains((x1 as int, py as int)));
    assert(f.contains((x2 as int, py as int)));
    if ob.0 != m0.0 && nb.0 == ob.0 {
        let p = choose|p: (int, int)| #[trigger] fa.contains(p) && p.0 == ob.0;
        assert(f.contains(p));
    }
    if ob.1 != m0.1 && nb.1 == ob.1 {
        let p = choose|p: (int, int)| #[trigger] fa.contains(p) && p.0 == ob.1;
        assert(f.contains(p));
    }
    if ob.2 != m0.2 && nb.2 == ob.2 {
        let p = choose|p: (int, int)| #[trigger] fa.contains(p) && p.1 == ob.2;
        assert(f.contains(p));
    }
    if ob.3 != m0.3 && nb.3 == ob.3 {
        let p = choose|p: (int, int)| #[trigger] fa.contains(p) && p.1 == ob.3;
        assert(f.contains(p));
    }
}

/// Paints layer row `py` from column `x1` to column `x2` with `fill_u32`, then
/// grows the bounding box to hold the span.
#[verifier::spinoff_prover]
#[verifier::rlimit(30)]
fn fill_span(
    ctx: &mut SafeFillContext,
    x1: i32,
    x2: i32,
    py: i32,
    fill_u32: u32,
    Ghost(l0): Ghost<LayerModel>,
    Ghost(sel): Ghost<SelectionModel>,
    Ghost(hs): Ghost<bool>,
    Ghost(t): Ghost<Color>,
    Ghost(b0): Ghost<Seq<ChunkModel>>,
    Ghost(m0): Ghost<(i32, i32, i32, i32)>,
    Ghost(fa): Ghost<Set<(int, int)>>,
) -> (f: Ghost<Set<(int, int)>>)
    requires
        l0.wf(),
        0 <= x1 <= x2 < l0.props.width,
        0 <= py < l0.props.height,
        l0.props.width <= i32::MAX,
        l0.props.height <= i32::MAX,
        color_of_u32(fill_u32) != t,
        color_of_u32(fill_u32).a != 0 || t != transparent_color() || forall|z: int|
            x1 <= z <= x2 ==> #[trigger] has_chunk(l0.chunks, key_of((z, py as int)).0, key_of((z, py as int)).1),
        filled_image(old(ctx).layer@, l0, fa, color_of_u32(fill_u32)),
        chunks_wf_keys(backups_view(old(ctx).backups@)),
        tiles_full(backups_view(old(ctx).backups@)),
        forall|p: (int, int)| #[trigger] fa.contains(p) ==> l0.in_bounds(p.0, p.1),
        forall|z: int| x1 <= z <= x2 ==> #[trigger] open_px(l0, sel, hs, t, fa, (z, py as int)),
        tiles_frame(l0, old(ctx).layer@, fa),
        backups_track(l0, b0, fa, backups_view(old(ctx).backups@)),
        bbox_holds(fa, old(ctx).min_x, old(ctx).max_x, old(ctx).min_y, old(ctx).max_y),
        bbox_tight(fa, old(ctx).min_x, old(ctx).max_x, old(ctx).min_y, old(ctx).max_y, m0),
    ensures
        forall|p: (int, int)| #[trigger] f@.contains(p) <==> fa.contains(p) || (p.1 == py && x1 <= p.0 <= x2),
        filled_image(final(ctx).layer@, l0, f@, color_of_u32(fill_u32)),
        chunks_wf_keys(backups_view(final(ctx).backups@)),
        tiles_full(backups_view(final(ctx).backups@)),
        open_count(l0, sel, hs, t, f@, l0.props.width * l0.props.height) + (x2 - x1 + 1) == open_count(
            l0,
            sel,
            hs,
            t,
            fa,
            l0.props.width * l0.props.height,
        ),
        tiles_frame(l0, final(ctx).layer@, f@),
        backups_track(l0, b0, f@, backups_view(final(ctx).backups@)),
        bbox_holds(f@, final(ctx).min_x, final(ctx).max_x, final(ctx).min_y, final(ctx).max_y),
        bbox_tight(f@, final(ctx).min_x, final(ctx).max_x, final(ctx).min_y, final(ctx).max_y, m0),
{
    let ghost w = l0.props.width as int;
    let ghost h = l0.props.height as int;
    let ghost fill = color_of_u32(fill_u32);
    let ghost mut f = fa;
    let ghost cnt0 = open_count(l0, sel, hs, t, fa, w * h);
    let ghost mut cnt = cnt0;
    let mut x = x1;
    while x <= x2
        invariant
            x1 <= x <= x2 + 1,
            0 <= x1 <= x2 < w,
            0 <= py < h,
            l0.wf(),
            l0.props.width == w,
            l0.props.height == h,
            w <= i32::MAX,
            fill != t,
            fill.a != 0 || t != transparent_color() || forall|z: int|
                x1 <= z <= x2 ==> #[trigger] has_chunk(l0.chunks, key_of((z, py as int)).0, key_of((z, py as int)).1),
            color_of_u32(fill_u32) == fill,
            filled_image(ctx.layer@, l0, f, fill),
            chunks_wf_keys(backups_view(ctx.backups@)),
            tiles_full(backups_view(ctx.backups@)),
            forall|p: (int, int)| #[trigger] f.contains(p) ==> l0.in_bounds(p.0, p.1),
            forall|p: (int, int)| #[trigger] f.contains(p) <==> fa.contains(p) || (p.1 == py && x1 <= p.0 < x),
            forall|z: int| x1 <= z <= x2 ==> #[trigger] open_px(l0, sel, hs, t, fa, (z, py as int)),
            cnt == open_count(l0, sel, hs, t, f, w * h),
            cnt + (x - x1) == cnt0,
            tiles_frame(l0, ctx.layer@, f),
            backups_track(l0, b0, f, backups_view(ctx.backups@)),
            ctx.min_x == old(ctx).min_x,
            ctx.max_x == old(ctx).max_x,
            ctx.min_y == old(ctx).min_y,
            ctx.max_y == old(ctx).max_y,
        decreases x2 + 1 - x,
    {
        let ghost q = (x as int, py as int);
        proof {
            assert(open_px(l0, sel, hs, t, fa, q));
            assert(!f.contains(q));
            assert(ctx.layer@.pixel(x as u32, py as u32) == l0.pixel(x as u32, py as u32)) by {
                assert(((x as u32) as int, (py as u32) as int) == q);
            }
            lemma_open_count_insert(l0, sel, hs, t, f, q, w * h);
            assert(q.1 * w + q.0 < w * h) by (nonlinear_arith)
                requires
                    0 <= q.0 < w,
                    0 <= q.1 < h,
            ;
        }
        proof {
            if fill.a == 0 && t == transparent_color() {
                assert(has_chunk(l0.chunks, key_of((x as int, py as int)).0, key_of((x as int, py as int)).1));
                assert(key_of((x as int, py as int)) == ((x as u32) / 64, (py as u32) / 64));
                assert(has_chunk(ctx.layer@.chunks, (x as u32) / 64, (py as u32) / 64));
            }
        }
        let ghost cur_b = ctx.layer@;
        let ghost bk_b = backups_view(ctx.backups@);
        ctx.set_pixel_u32(x, py, fill_u32);
        proof {
            lemma_track_step(l0, b0, cur_b, f, bk_b, ctx.layer@, backups_view(ctx.backups@), x, py, fill_u32);
            f = f.insert(q);
            cnt = (cnt - 1) as nat;
            assert forall|xx: u32, yy: u32| #[trigger] ctx.layer@.pixel(xx, yy) == if f.contains((xx as int, yy as int)) {
                fill
            } else {
                l0.pixel(xx, yy)
            } by {
                if xx == x && yy == py {
                    assert((xx as int, yy as int) == q);
                }
            }
        }
        x = x + 1;
    }
    let ghost ob = (ctx.min_x, ctx.max_x, ctx.min_y, ctx.max_y);
    if x1 < ctx.min_x {
        ctx.min_x = x1;
    }
    if x2 > ctx.max_x {
        ctx.max_x = x2;
    }
    if py < ctx.min_y {
        ctx.min_y = py;
    }
    if py > ctx.max_y {
        ctx.max_y = py;
    }
    proof {
        lemma_bbox_span(fa, f, x1, x2, py, ob, (ctx.min_x, ctx.max_x, ctx.min_y, ctx.max_y), m0);
    }
    Ghost(f)
}

/// Fills every pixel 4-connected to `(start_x, start_y)` through pixels of the
/// target colour that the selection lets the fill reach, scanning row spans
/// with a stack of seeds.
#[verifier::spinoff_prover]
#[verifier::rlimit(50)]
pub fn flood_fill(ctx: &mut SafeFillContext, sel: &SelectionData, start_x: i32, start_y: i32, target: Color, fill: Color)
    requires
        old(ctx).layer@.wf(),
        chunks_wf_keys(backups_view(old(ctx).backups@)),
        tiles_full(backups_view(old(ctx).backups@)),
        sel@.wf(),
        sel.width * sel.height <= u32::MAX,
        old(ctx).layer.width <= i32::MAX,
        old(ctx).layer.height <= i32::MAX,
        0 <= start_x < old(ctx).layer.width,
        0 <= start_y < old(ctx).layer.height,
        target != fill,
        fill_paints_all(old(ctx).layer@, sel@, sel@.is_active, target, (start_x as int, start_y as int), fill),
    ensures
        final(ctx).layer@.wf(),
        final(ctx).layer@.props == old(ctx).layer@.props,
        chunks_wf_keys(backups_view(final(ctx).backups@)),
        tiles_full(backups_view(final(ctx).backups@)),
        forall|x: u32, y: u32| #[trigger] final(ctx).layer@.pixel(x, y) == if reachable(
            old(ctx).layer@,
            sel@,
            sel@.is_active,
            target,
            (start_x as int, start_y as int),
            (x as int, y as int),
        ) {
            fill
        } else {
            old(ctx).layer@.pixel(x, y)
        },
        backups_track(
            old(ctx).layer@,
            backups_view(old(ctx).backups@),
            reach_set(old(ctx).layer@, sel@, sel@.is_active, target, (start_x as int, start_y as int)),
            backups_view(final(ctx).backups@),
        ),
        bbox_holds(
            reach_set(old(ctx).layer@, sel@, sel@.is_active, target, (start_x as int, start_y as int)),
            final(ctx).min_x,
            final(ctx).max_x,
            final(ctx).min_y,
            final(ctx).max_y,
        ),
        bbox_tight(
            reach_set(old(ctx).layer@, sel@, sel@.is_active, target, (start_x as int, start_y as int)),
            final(ctx).min_x,
            final(ctx).max_x,
            final(ctx).min_y,
            final(ctx).max_y,
            (old(ctx).min_x, old(ctx).max_x, old(ctx).min_y, old(ctx).max_y),
        ),
{
    let ghost l0 = ctx.layer@;
    let ghost b0 = backups_view(ctx.backups@);
    let ghost m0 = (ctx.min_x, ctx.max_x, ctx.min_y, ctx.max_y);
    let ghost s0 = (start_x as int, start_y as int);
    let has_selection = sel.is_active;
    let ghost t = target;
    let target_u32 = word_of_color(target);
    let fill_u32 = word_of_color(fill);
    proof {
        lemma_color_u32(fill, target);
    }
    let width = ctx.layer.width as i32;
    let height = ctx.layer.height as i32;
    let ghost w = width as int;
    let ghost h = height as int;
    let mut stack: Vec<(i32, i32)> = Vec::new();
    stack.push((start_x, start_y));
    let ghost mut f: Set<(int, int)> = Set::empty();
    let ghost mut cnt: nat = open_count(l0, sel@, has_selection, t, f, w * h);
    proof {
        lemma_track_init(l0, b0);
        lemma_inv_init(l0, sel@, has_selection, t, s0);
        assert(stack@ =~= seq![(s0.0 as i32, s0.1 as i32)]);
    }
    while stack.len() > 0
        invariant
            l0.wf(),
            l0.props.width == w,
            l0.props.height == h,
            w == width,
            h == height,
            0 <= w <= i32::MAX,
            0 <= h <= i32::MAX,
            sel@.wf(),
            sel.width * sel.height <= u32::MAX,
            has_selection == sel@.is_active,
            t == target,
            target != fill,
            fill_paints_all(l0, sel@, has_selection, target, s0, fill),
            target_u32 == color_u32(target),
            fill_u32 == color_u32(fill),
            color_of_u32(fill_u32) == fill,
            filled_image(ctx.layer@, l0, f, fill),
            chunks_wf_keys(backups_view(ctx.backups@)),
            tiles_full(backups_view(ctx.backups@)),
            fill_inv(l0, sel@, has_selection, t, s0, f, stack@),
            cnt == open_count(l0, sel@, has_selection, t, f, w * h),
            tiles_frame(l0, ctx.layer@, f),
            backups_track(l0, b0, f, backups_view(ctx.backups@)),
            bbox_holds(f, ctx.min_x, ctx.max_x, ctx.min_y, ctx.max_y),
            bbox_tight(f, ctx.min_x, ctx.max_x, ctx.min_y, ctx.max_y, m0),
        decreases cnt, stack@.len(),
    {
        let ghost st0 = stack@;
        let (px, py) = stack.pop().unwrap();
        let ghost q0 = (px as int, py as int);
        proof {
            assert(st0 == stack@.push((px, py)));
            lemma_inv_facts(l0, sel@, has_selection, t, s0, f, st0);
            assert(st0[st0.len() - 1] == (px, py));
            lemma_cur_fillable(ctx.layer@, l0, sel@, has_selection, t, f, fill, q0);
        }
        if !ctx.is_fillable(px, py, target_u32, has_selection, sel) {
            proof {
                lemma_inv_drop(l0, sel@, has_selection, t, s0, f, stack@, (px, py));
            }
        } else {
            let mut x1 = px;
            while x1 > 0 && ctx.is_fillable(x1 - 1, py, target_u32, has_selection, sel)
                invariant
                    0 <= x1 <= px < w,
                    0 <= py < h,
                    l0.props.width == w,
                    l0.props.height == h,
                    filled_image(ctx.layer@, l0, f, fill),
                    forall|p: (int, int)| #[trigger] f.contains(p) ==> l0.in_bounds(p.0, p.1),
                    target != fill,
                    target_u32 == color_u32(target),
                    t == target,
                    has_selection == sel@.is_active,
                    sel@.wf(),
                    sel.width * sel.height <= u32::MAX,
                    forall|z: int| x1 <= z <= px ==> #[trigger] open_px(l0, sel@, has_selection, t, f, (z, py as int)),
                decreases x1,
            {
                proof {
                    lemma_cur_fillable(ctx.layer@, l0, sel@, has_selection, t, f, fill, ((x1 - 1) as int, py as int));
                }
                x1 = x1 - 1;
            }
            proof {
                if x1 > 0 {
                    lemma_cur_fillable(ctx.layer@, l0, sel@, has_selection, t, f, fill, ((x1 - 1) as int, py as int));
                }
            }
            let mut x2 = px;
            while x2 < width - 1 && ctx.is_fillable(x2 + 1, py, target_u32, has_selection, sel)
                invariant
                    0 <= px <= x2 < w,
                    0 <= py < h,
                    w == width,
                    l0.props.width == w,
                    l0.props.height == h,
                    filled_image(ctx.layer@, l0, f, fill),
                    forall|p: (int, int)| #[trigger] f.contains(p) ==> l0.in_bounds(p.0, p.1),
                    target != fill,
                    target_u32 == color_u32(target),
                    t == target,
                    has_selection == sel@.is_active,
                    sel@.wf(),
                    sel.width * sel.height <= u32::MAX,
                    forall|z: int| px <= z <= x2 ==> #[trigger] open_px(l0, sel@, has_selection, t, f, (z, py as int)),
                decreases w - x2,
            {
                proof {
                    lemma_cur_fillable(ctx.layer@, l0, sel@, has_selection, t, f, fill, ((x2 + 1) as int, py as int));
                }
                x2 = x2 + 1;
            }
            proof {
                if x2 < width - 1 {
                    lemma_cur_fillable(ctx.layer@, l0, sel@, has_selection, t, f, fill, ((x2 + 1) as int, py as int));
                }
            }
            let ghost fa = f;
            let ghost cnt0 = cnt;
            proof {
                if fill.a == 0 && t == transparent_color() {
                    assert forall|z: int| x1 <= z <= x2 implies #[trigger] has_chunk(
                        l0.chunks,
                        key_of((z, py as int)).0,
                        key_of((z, py as int)).1,
                    ) by {
                        lemma_span_reachable(l0, sel@, has_selection, t, s0, f, st0, px as int, py as int, x1 as int, x2 as int, z);
                    }
                }
            }
            let fs = fill_span(ctx, x1, x2, py, fill_u32, Ghost(l0), Ghost(sel@), Ghost(has_selection), Ghost(t), Ghost(b0), Ghost(m0), Ghost(fa));
            proof {
                f = fs@;
                cnt = open_count(l0, sel@, has_selection, t, f, w * h);
            }
            let ghost stp = stack@;
            if py > 0 {
                scan_line(ctx, x1, x2, py - 1, target_u32, &mut stack, has_selection, sel);
                proof {
                    lemma_scan_open(ctx.layer@, l0, sel@, has_selection, t, f, fill, stp, stack@, x1 as int, x2 as int, py - 1);
                }
            }
            let ghost stq = stack@;
            if py < height - 1 {
                scan_line(ctx, x1, x2, py + 1, target_u32, &mut stack, has_selection, sel);
                proof {
                    lemma_scan_open(ctx.layer@, l0, sel@, has_selection, t, f, fill, stq, stack@, x1 as int, x2 as int, py + 1);
                }
            }
            proof {
                let st2 = stack@;
                assert(!open_px(l0, sel@, has_selection, t, fa, ((x1 - 1) as int, py as int)));
                assert(!open_px(l0, sel@, has_selection, t, fa, ((x2 + 1) as int, py as int)));
                assert(st2.len() >= stp.len());
                assert(forall|i: int| 0 <= i < stp.len() ==> #[trigger] st2[i] == stp[i]);
                assert(forall|k: int|
                    stp.len() <= k < st2.len() ==> (#[trigger] st2[k].1 == py - 1 || st2[k].1 == py + 1) && x1 <= st2[k].0 <= x2
                        && open_px(l0, sel@, has_selection, t, f, (st2[k].0 as int, st2[k].1 as int)));
                assert forall|r: int, xx: int|
                    (r == py - 1 || r == py + 1) && x1 <= xx <= x2 && #[trigger] open_px(l0, sel@, has_selection, t, f, (xx, r)) && (xx == x1
                        || !open_px(l0, sel@, has_selection, t, f, (xx - 1, r))) implies exists|k: int|
                        stp.len() <= k < st2.len() && #[trigger] st2[k] == (xx as i32, r as i32) by {
                    if r == py - 1 {
                        let k = choose|k: int| stp.len() <= k < stq.len() && #[trigger] stq[k] == (xx as i32, r as i32);
                        assert(st2[k] == stq[k]);
                    } else {
                        let k = choose|k: int| stq.len() <= k < st2.len() && #[trigger] st2[k] == (xx as i32, r as i32);
                        assert(st2[k] == (xx as i32, r as i32));
                    }
                }
                assert(span_step(l0, sel@, has_selection, t, fa, stp, (px, py), x1 as int, x2 as int, f, stack@));
                lemma_inv_span(l0, sel@, has_selection, t, s0, fa, stp, (px, py), x1 as int, x2 as int, f, stack@);
            }
        }
    }
    proof {
        assert(stack@ =~= Seq::<(i32, i32)>::empty());
        assert forall|x: u32, y: u32| #[trigger] f.contains((x as int, y as int)) == reachable(l0, sel@, has_selection, t, s0, (x as int, y as int)) by {
            lemma_inv_done(l0, sel@, has_selection, t, s0, f, (x as int, y as int));
        }
        assert forall|q: (int, int)| #[trigger] f.contains(q) == reach_set(l0, sel@, has_selection, t, s0).contains(q) by {
            lemma_inv_done(l0, sel@, has_selection, t, s0, f, q);
        }
        assert(f =~= reach_set(l0, sel@, has_selection, t, s0));
    }
}

} // verus!
