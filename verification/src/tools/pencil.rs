use vstd::prelude::*;
use crate::history::patch::{ActionPatch, PatchAction};
use crate::history::diff::PixelDiff;
use crate::model::color::{Color, transparent_color};
use crate::model::error::CoreError;
use crate::model::layer::LayerModel;
use crate::model::store::{PixelStore, StoreModel, layer_ids};
use crate::tools::brush::{brush_offsets, brush_offsets_spec, rng_after};
use crate::tools::geometry::{Geometry, line_points};

verus! {

// ------------------------------------------------------------ recorded pixels
/// A record holds pixel `(x, y)`.
pub open spec fn rec_has(v: Seq<(u32, u32, Color)>, x: u32, y: u32) -> bool {
    exists|i: int| 0 <= i < v.len() && #[trigger] v[i].0 == x && v[i].1 == y
}

/// No pixel is recorded twice.
pub open spec fn recs_wf(v: Seq<(u32, u32, Color)>) -> bool {
    forall|i: int, j: int|
        0 <= i < v.len() && 0 <= j < v.len() && i != j ==> !(#[trigger] v[i].0 == #[trigger] v[j].0
            && v[i].1 == v[j].1)
}

proof fn lemma_rec_has_push_all(v: Seq<(u32, u32, Color)>, w: Seq<(u32, u32, Color)>, x: u32, y: u32)
    requires
        w.len() >= v.len(),
        forall|k: int| 0 <= k < v.len() ==> w[k] == v[k],
        rec_has(v, x, y),
    ensures
        rec_has(w, x, y),
{
    let i = choose|i: int| 0 <= i < v.len() && #[trigger] v[i].0 == x && v[i].1 == y;
    assert(w[i].0 == x);
}

/// Whether `(x, y)` is among the recorded pixels.
pub fn has_record(v: &Vec<(u32, u32, Color)>, x: u32, y: u32) -> (b: bool)
    ensures
        b == rec_has(v@, x, y),
{
    let n = v.len();
    for i in 0..n
        invariant
            n == v@.len(),
            forall|k: int| 0 <= k < i ==> !(#[trigger] v@[k].0 == x && v@[k].1 == y),
    {
        if v[i].0 == x && v[i].1 == y {
            return true;
        }
    }
    false
}

// ------------------------------------------------------------ dirty rectangle
pub open spec fn max0(v: int) -> int {
    if v > 0 {
        v
    } else {
        0
    }
}

pub open spec fn min_int(a: int, b: int) -> int {
    if a < b {
        a
    } else {
        b
    }
}

pub open spec fn max_int(a: int, b: int) -> int {
    if a > b {
        a
    } else {
        b
    }
}

/// The dirty rectangle `(x1, y1, x2, y2)` grown by the `size`-wide square
/// centred on `(cx, cy)`, clipped at zero; unchanged where that square is empty.
pub open spec fn dirty_update(r: Option<(u32, u32, u32, u32)>, cx: int, cy: int, size: int) -> Option<
    (u32, u32, u32, u32),
> {
    let off = size / 2;
    let x1 = max0(cx - off);
    let y1 = max0(cy - off);
    let x2 = max0(cx - off + size);
    let y2 = max0(cy - off + size);
    if x1 >= x2 || y1 >= y2 {
        r
    } else {
        match r {
            Some((a, b, c, d)) => Some(
                (
                    min_int(a as int, x1) as u32,
                    min_int(b as int, y1) as u32,
                    max_int(c as int, x2) as u32,
                    max_int(d as int, y2) as u32,
                ),
            ),
            None => Some((x1 as u32, y1 as u32, x2 as u32, y2 as u32)),
        }
    }
}

/// A dirty rectangle, stored as corners, is never empty.
pub open spec fn dirty_ok(r: Option<(u32, u32, u32, u32)>) -> bool {
    r matches Some((x1, y1, x2, y2)) ==> x1 < x2 && y1 < y2
}

/// The dirty rectangle after the squares around the first `n` centres.
pub open spec fn dirty_fold(r: Option<(u32, u32, u32, u32)>, cs: Seq<(i32, i32)>, n: int, size: int) -> Option<
    (u32, u32, u32, u32),
>
    decreases n,
{
    if n <= 0 {
        r
    } else {
        dirty_update(dirty_fold(r, cs, n - 1, size), cs[n - 1].0 as int, cs[n - 1].1 as int, size)
    }
}

/// The square of `size` around `(cx, cy)` fits the `i32` range.
pub open spec fn square_fits(cx: int, cy: int, size: int) -> bool {
    &&& 0 <= size <= i32::MAX
    &&& cx - size / 2 >= i32::MIN
    &&& cy - size / 2 >= i32::MIN
    &&& cx - size / 2 + size <= i32::MAX
    &&& cy - size / 2 + size <= i32::MAX
}

// ------------------------------------------------------------ painting
/// The layer pixel that offset `r` from centre `t` lands on, if it lands on the
/// layer: the canvas point must not be negative and must lie on the layer.
pub open spec fn hit_target(t: (i32, i32), r: (int, int), l: LayerModel) -> Option<(int, int)> {
    let px = t.0 + r.0;
    let py = t.1 + r.1;
    let lx = px - l.props.offset_x;
    let ly = py - l.props.offset_y;
    if px >= 0 && py >= 0 && l.in_bounds(lx, ly) {
        Some((lx, ly))
    } else {
        None
    }
}

/// Whether one of the first `m` offsets around centre `t` lands on layer pixel `(x, y)`.
pub open spec fn hits(t: (i32, i32), rel: Seq<(int, int)>, m: int, l: LayerModel, x: int, y: int) -> bool
    decreases m,
{
    if m <= 0 {
        false
    } else {
        hits(t, rel, m - 1, l, x, y) || hit_target(t, rel[m - 1], l) == Some((x, y))
    }
}

/// Whether the brush around one of the first `n` centres lands on layer pixel `(x, y)`.
pub open spec fn painted(cs: Seq<(i32, i32)>, n: int, rel: Seq<(int, int)>, l: LayerModel, x: int, y: int) -> bool
    decreases n,
{
    if n <= 0 {
        false
    } else {
        painted(cs, n - 1, rel, l, x, y) || hits(cs[n - 1], rel, rel.len() as int, l, x, y)
    }
}

/// Whether one of the first `m` offsets around `t` lands on a pixel not yet of colour `c`.
pub open spec fn differs(t: (i32, i32), rel: Seq<(int, int)>, m: int, l: LayerModel, c: Color) -> bool
    decreases m,
{
    if m <= 0 {
        false
    } else {
        differs(t, rel, m - 1, l, c) || match hit_target(t, rel[m - 1], l) {
            Some((x, y)) => l.pixel(x as u32, y as u32) != c,
            None => false,
        }
    }
}

/// The first of the first `n` centres whose brush lands on a pixel not yet of
/// colour `c`; `n` where there is none.
pub open spec fn first_differing(cs: Seq<(i32, i32)>, n: int, rel: Seq<(int, int)>, l: LayerModel, c: Color) -> int
    decreases n,
{
    if n <= 0 {
        0
    } else {
        let f = first_differing(cs, n - 1, rel, l, c);
        if f < n - 1 {
            f
        } else if differs(cs[n - 1], rel, rel.len() as int, l, c) {
            n - 1
        } else {
            n
        }
    }
}

/// How many centres a stroke paints: all of them, except on a locked layer,
/// where it stops after the first one that would change a pixel.
pub open spec fn centres_done(cs: Seq<(i32, i32)>, rel: Seq<(int, int)>, l: LayerModel, c: Color) -> int {
    let f = first_differing(cs, cs.len() as int, rel, l, c);
    if l.props.locked && f < cs.len() {
        f + 1
    } else {
        cs.len() as int
    }
}

proof fn lemma_first_differing_stable(
    cs: Seq<(i32, i32)>,
    m: int,
    n: int,
    rel: Seq<(int, int)>,
    l: LayerModel,
    c: Color,
)
    requires
        0 <= m <= n,
        first_differing(cs, m, rel, l, c) < m,
    ensures
        first_differing(cs, n, rel, l, c) == first_differing(cs, m, rel, l, c),
    decreases n - m,
{
    if n > m {
        lemma_first_differing_stable(cs, m, n - 1, rel, l, c);
    }
}

proof fn lemma_first_differing_range(cs: Seq<(i32, i32)>, n: int, rel: Seq<(int, int)>, l: LayerModel, c: Color)
    requires
        0 <= n,
    ensures
        0 <= first_differing(cs, n, rel, l, c) <= n,
        first_differing(cs, n, rel, l, c) == n ==> forall|k: int|
            0 <= k < n ==> !differs(#[trigger] cs[k], rel, rel.len() as int, l, c),
    decreases n,
{
    if n > 0 {
        lemma_first_differing_range(cs, n - 1, rel, l, c);
    }
}

/// Where no offset around `t` lands on a pixel of another colour, every pixel
/// it lands on already has colour `c`.
proof fn lemma_no_differ(t: (i32, i32), rel: Seq<(int, int)>, m: int, l: LayerModel, c: Color, x: int, y: int)
    requires
        !differs(t, rel, m, l, c),
        hits(t, rel, m, l, x, y),
    ensures
        l.pixel(x as u32, y as u32) == c,
    decreases m,
{
    if m > 0 {
        if hits(t, rel, m - 1, l, x, y) {
            lemma_no_differ(t, rel, m - 1, l, c, x, y);
        }
    }
}

proof fn lemma_painted_no_differ(
    cs: Seq<(i32, i32)>,
    n: int,
    rel: Seq<(int, int)>,
    l: LayerModel,
    c: Color,
    x: int,
    y: int,
)
    requires
        forall|k: int| 0 <= k < n ==> !differs(#[trigger] cs[k], rel, rel.len() as int, l, c),
        painted(cs, n, rel, l, x, y),
    ensures
        l.pixel(x as u32, y as u32) == c,
    decreases n,
{
    if n > 0 {
        if painted(cs, n - 1, rel, l, x, y) {
            lemma_painted_no_differ(cs, n - 1, rel, l, c, x, y);
        } else {
            lemma_no_differ(cs[n - 1], rel, rel.len() as int, l, c, x, y);
        }
    }
}

proof fn lemma_hits_in_bounds(t: (i32, i32), rel: Seq<(int, int)>, m: int, l: LayerModel, x: int, y: int)
    requires
        hits(t, rel, m, l, x, y),
    ensures
        l.in_bounds(x, y),
    decreases m,
{
    if m > 0 && hits(t, rel, m - 1, l, x, y) {
        lemma_hits_in_bounds(t, rel, m - 1, l, x, y);
    }
}

proof fn lemma_painted_in_bounds(cs: Seq<(i32, i32)>, n: int, rel: Seq<(int, int)>, l: LayerModel, x: int, y: int)
    requires
        painted(cs, n, rel, l, x, y),
    ensures
        l.in_bounds(x, y),
    decreases n,
{
    if n > 0 {
        if painted(cs, n - 1, rel, l, x, y) {
            lemma_painted_in_bounds(cs, n - 1, rel, l, x, y);
        } else {
            lemma_hits_in_bounds(cs[n - 1], rel, rel.len() as int, l, x, y);
        }
    }
}

/// What painting the brush around `cs` does to a pencil `t0` and a document `s0`,
/// giving `t1`, `s1` and the result `r`.
#[verifier::opaque]
pub open spec fn paint_outcome(
    t0: PencilTool,
    s0: StoreModel,
    cs: Seq<(i32, i32)>,
    t1: PencilTool,
    s1: StoreModel,
    r: Result<(), CoreError>,
) -> bool {
    &&& t1.wf()
    &&& t1.last_pos == t0.last_pos
    &&& t1.is_eraser == t0.is_eraser
    &&& t1.active_layer_id == t0.active_layer_id
    &&& s1.wf()
    &&& match t0.active_layer_id {
        None => r is Ok && t1 == t0 && s1 == s0,
        Some(id) => match s0.find_layer(id@) {
            None => r is Ok && t1 == t0 && s1 == s0,
            Some(i) => {
                let l = s0.layers[i];
                let color = stroke_color(t0.is_eraser, s0.primary_color);
                let rel = brush_offsets_spec(
                    s0.brush_size as int,
                    s0.brush_shape,
                    s0.brush_jitter,
                    t0.rng_state,
                );
                let n = cs.len() as int;
                let done = centres_done(cs, rel, l, color);
                let size = s0.brush_size + 2 * s0.brush_jitter;
                let v0 = t0.original_pixels@;
                let v = t1.original_pixels@;
                &&& t1.rng_state == rng_after(
                    s0.brush_size as int,
                    s0.brush_shape,
                    s0.brush_jitter,
                    t0.rng_state,
                )
                &&& t1.dirty_rect == dirty_fold(t0.dirty_rect, cs, done, size)
                &&& (r is Err <==> l.props.locked && first_differing(cs, n, rel, l, color) < n)
                &&& (r is Err ==> r matches Err(CoreError::LayerLocked))
                &&& s1 == (StoreModel { layers: s1.layers, ..s0 })
                &&& s1.layers.len() == s0.layers.len()
                &&& forall|j: int|
                    0 <= j < s0.layers.len() && j != i ==> #[trigger] s1.layers[j] == s0.layers[j]
                &&& s1.layers[i].props == l.props
                &&& forall|x: u32, y: u32| #[trigger]
                    s1.layers[i].pixel(x, y) == if !l.props.locked && painted(
                        cs,
                        done,
                        rel,
                        l,
                        x as int,
                        y as int,
                    ) {
                        color
                    } else {
                        l.pixel(x, y)
                    }
                &&& v.len() >= v0.len()
                &&& forall|k: int| 0 <= k < v0.len() ==> #[trigger] v[k] == v0[k]
                &&& forall|k: int|
                    v0.len() <= k < v.len() ==> painted(
                        cs,
                        done,
                        rel,
                        l,
                        #[trigger] v[k].0 as int,
                        v[k].1 as int,
                    ) && l.pixel(v[k].0, v[k].1) != color && v[k].2 == l.pixel(v[k].0, v[k].1)
                &&& forall|x: u32, y: u32|
                    painted(cs, done, rel, l, x as int, y as int) && l.pixel(x, y) != color
                        ==> #[trigger] rec_has(v, x, y)
            },
        },
    }
}

/// Painting keeps both values well formed and changes no brush setting.
pub proof fn lemma_paint_outcome_basics(
    t0: PencilTool,
    s0: StoreModel,
    cs: Seq<(i32, i32)>,
    t1: PencilTool,
    s1: StoreModel,
    r: Result<(), CoreError>,
)
    requires
        paint_outcome(t0, s0, cs, t1, s1, r),
    ensures
        t1.wf(),
        s1.wf(),
        s1.brush_size == s0.brush_size,
        s1.brush_jitter == s0.brush_jitter,
        t1.active_layer_id == t0.active_layer_id,
        t1.last_pos == t0.last_pos,
        t1.is_eraser == t0.is_eraser,
{
    reveal(paint_outcome);
}

/// The pixels of the line between two points, as `i32` pairs.
pub open spec fn line_cells(x1: i32, y1: i32, x2: i32, y2: i32) -> Seq<(i32, i32)> {
    let pts = line_points(x1 as int, y1 as int, x2 as int, y2 as int);
    Seq::new(pts.len(), |k: int| (pts[k].0 as i32, pts[k].1 as i32))
}

/// `ts`, `ss` and `rs` record painting the brush at each of the first points of
/// `pts` in turn, every step but the last one succeeding.
pub open spec fn stroke_chain(
    pts: Seq<(i32, i32)>,
    ts: Seq<PencilTool>,
    ss: Seq<StoreModel>,
    rs: Seq<Result<(), CoreError>>,
) -> bool {
    &&& ts.len() == rs.len() + 1
    &&& ss.len() == rs.len() + 1
    &&& rs.len() <= pts.len()
    &&& forall|k: int|
        0 <= k < rs.len() ==> paint_outcome(#[trigger] ts[k], ss[k], seq![pts[k]], ts[k + 1], ss[k + 1], rs[k])
    &&& forall|k: int| 0 <= k < rs.len() - 1 ==> #[trigger] rs[k] is Ok
}

/// The colour of layer pixel `(x, y)`, transparent off the layer.
pub open spec fn layer_color_at(l: LayerModel, x: u32, y: u32) -> Color {
    if l.in_bounds(x as int, y as int) {
        l.pixel(x, y)
    } else {
        transparent_color()
    }
}

/// The changes a stroke made: one per recorded pixel whose colour now differs
/// from the recorded one, in recording order.
pub open spec fn stroke_diffs(v: Seq<(u32, u32, Color)>, l: LayerModel) -> Seq<PixelDiff>
    decreases v.len(),
{
    if v.len() == 0 {
        Seq::empty()
    } else {
        let rest = stroke_diffs(v.drop_last(), l);
        let e = v.last();
        let now = layer_color_at(l, e.0, e.1);
        if e.2 != now {
            rest.push(PixelDiff { x: e.0, y: e.1, old_color: e.2, new_color: now })
        } else {
            rest
        }
    }
}

/// The pencil and the eraser: paints the brush along the pointer's path and
/// records the colour each touched pixel had before the stroke.
pub struct PencilTool {
    pub original_pixels: Vec<(u32, u32, Color)>,
    pub last_pos: Option<(i32, i32)>,
    pub is_eraser: bool,
    pub dirty_rect: Option<(u32, u32, u32, u32)>,
    pub active_layer_id: Option<String>,
    pub rng_state: u32,
}

/// The colour a stroke paints with: transparent for the eraser.
pub open spec fn stroke_color(is_eraser: bool, primary: Color) -> Color {
    if is_eraser {
        transparent_color()
    } else {
        primary
    }
}

impl PencilTool {
    pub open spec fn wf(&self) -> bool {
        &&& recs_wf(self.original_pixels@)
        &&& dirty_ok(self.dirty_rect)
    }

    /// A pencil (or, with `is_eraser`, an eraser) that has not started a stroke.
    pub fn new(is_eraser: bool) -> (t: PencilTool)
        ensures
            t.wf(),
            t.original_pixels@.len() == 0,
            t.last_pos is None,
            t.is_eraser == is_eraser,
            t.dirty_rect is None,
            t.active_layer_id is None,
            t.rng_state == 1337,
    {
        PencilTool {
            original_pixels: Vec::new(),
            last_pos: None,
            is_eraser,
            dirty_rect: None,
            active_layer_id: None,
            rng_state: 1337,
        }
    }

    /// Grows the dirty rectangle by the `size`-wide square centred on the canvas
    /// point `(canvas_x, canvas_y)`.
    pub fn update_dirty_rect_internal(&mut self, canvas_x: i32, canvas_y: i32, size: u32)
        requires
            square_fits(canvas_x as int, canvas_y as int, size as int),
        ensures
            *final(self) == (PencilTool {
                dirty_rect: dirty_update(
                    old(self).dirty_rect,
                    canvas_x as int,
                    canvas_y as int,
                    size as int,
                ),
                ..*old(self)
            }),
    {
        let offset = (size / 2) as i32;
        let ax = canvas_x - offset;
        let ay = canvas_y - offset;
        let bx = canvas_x - offset + size as i32;
        let by = canvas_y - offset + size as i32;
        let x1 = if ax > 0 { ax as u32 } else { 0 };
        let y1 = if ay > 0 { ay as u32 } else { 0 };
        let x2 = if bx > 0 { bx as u32 } else { 0 };
        let y2 = if by > 0 { by as u32 } else { 0 };
        if x1 >= x2 || y1 >= y2 {
            return;
        }
        match self.dirty_rect {
            Some((rx1, ry1, rx2, ry2)) => {
                self.dirty_rect = Some(
                    (
                        if rx1 < x1 { rx1 } else { x1 },
                        if ry1 < y1 { ry1 } else { y1 },
                        if rx2 > x2 { rx2 } else { x2 },
                        if ry2 > y2 { ry2 } else { y2 },
                    ),
                );
            },
            None => {
                self.dirty_rect = Some((x1, y1, x2, y2));
            },
        }
    }

    /// Paints canvas point `(px, py)` of layer `li` if it lies on the layer and
    /// is not already of `color`, recording the pixel's colour first. Returns
    /// whether the layer refused the change because it is locked.
    fn paint_point(
        &mut self,
        store: &mut PixelStore,
        layer_id: &String,
        li: usize,
        px: i64,
        py: i64,
        color: Color,
        Ghost(l): Ghost<LayerModel>,
        Ghost(prev): Ghost<spec_fn(int, int) -> bool>,
        Ghost(v0): Ghost<Seq<(u32, u32, Color)>>,
    ) -> (refused: bool)
        requires
            old(store)@.wf(),
            li < old(store)@.layers.len(),
            old(store)@.find_layer(layer_id@) == Some(li as int),
            old(store)@.layers[li as int].props == l.props,
            -0x1_0000_0000 <= px <= 0xFFFF_FFFE,
            -0x1_0000_0000 <= py <= 0xFFFF_FFFE,
            forall|x: u32, y: u32| #[trigger] old(store)@.layers[li as int].pixel(x, y) == if !l.props.locked && prev(x as int, y as int) {
                color
            } else {
                l.pixel(x, y)
            },
            recs_wf(old(self).original_pixels@),
            old(self).original_pixels@.len() >= v0.len(),
            forall|q: int| v0.len() <= q < old(self).original_pixels@.len() ==> prev(#[trigger] old(self).original_pixels@[q].0 as int, old(self).original_pixels@[q].1 as int)
                && l.pixel(old(self).original_pixels@[q].0, old(self).original_pixels@[q].1) != color
                && old(self).original_pixels@[q].2 == l.pixel(old(self).original_pixels@[q].0, old(self).original_pixels@[q].1),
            forall|x: u32, y: u32| prev(x as int, y as int) && l.pixel(x, y) != color ==> #[trigger] rec_has(old(self).original_pixels@, x, y),
        ensures
            ({
                let lx = px - l.props.offset_x;
                let ly = py - l.props.offset_y;
                let tgt = if px >= 0 && py >= 0 && l.in_bounds(lx, ly) {
                    Some((lx, ly))
                } else {
                    None
                };
                let v = final(self).original_pixels@;
                &&& refused == (l.props.locked && (match tgt {
                    Some((x, y)) => l.pixel(x as u32, y as u32) != color,
                    None => false,
                }))
                &&& final(store)@.wf()
                &&& final(store)@ == (StoreModel { layers: final(store)@.layers, ..old(store)@ })
                &&& final(store)@.layers.len() == old(store)@.layers.len()
                &&& layer_ids(final(store)@.layers) == layer_ids(old(store)@.layers)
                &&& forall|j: int| 0 <= j < old(store)@.layers.len() && j != li ==> #[trigger] final(store)@.layers[j] == old(store)@.layers[j]
                &&& final(store)@.layers[li as int].props == l.props
                &&& forall|x: u32, y: u32| #[trigger] final(store)@.layers[li as int].pixel(x, y) == if !l.props.locked && (prev(x as int, y as int) || tgt == Some((x as int, y as int))) {
                    color
                } else {
                    l.pixel(x, y)
                }
                &&& recs_wf(v)
                &&& v.len() >= old(self).original_pixels@.len()
                &&& forall|q: int| 0 <= q < old(self).original_pixels@.len() ==> #[trigger] v[q] == old(self).original_pixels@[q]
                &&& forall|q: int| v0.len() <= q < v.len() ==> (prev(#[trigger] v[q].0 as int, v[q].1 as int) || tgt == Some((v[q].0 as int, v[q].1 as int)))
                    && l.pixel(v[q].0, v[q].1) != color && v[q].2 == l.pixel(v[q].0, v[q].1)
                &&& forall|x: u32, y: u32| (prev(x as int, y as int) || tgt == Some((x as int, y as int))) && l.pixel(x, y) != color ==> #[trigger] rec_has(v, x, y)
                &&& final(self).rng_state == old(self).rng_state
                &&& final(self).last_pos == old(self).last_pos
                &&& final(self).is_eraser == old(self).is_eraser
                &&& final(self).active_layer_id == old(self).active_layer_id
                &&& final(self).dirty_rect == old(self).dirty_rect
            }),
    {
        let ghost s1 = store@;
        let ghost v1 = self.original_pixels@;
        let ghost img1 = s1.layers[li as int];
        assert(store.layers[li as int]@ == img1);
        let offset_x = store.layers[li].offset_x;
        let offset_y = store.layers[li].offset_y;
        let l_width = store.layers[li].width;
        let l_height = store.layers[li].height;
        if px < 0 || py < 0 {
            return false;
        }
        let lx = px - offset_x as i64;
        let ly = py - offset_y as i64;
        if lx < 0 || ly < 0 || lx >= l_width as i64 || ly >= l_height as i64 {
            return false;
        }
        let cur = match store.get_pixel(layer_id.as_str(), px as u32, py as u32) {
            Some(cc) => cc,
            None => Color::transparent(),
        };
        assert(cur == img1.pixel(lx as u32, ly as u32));
        if cur == color {
            proof {
                assert forall|x: u32, y: u32| (prev(x as int, y as int) || (x == lx && y == ly)) && l.pixel(x, y) != color implies #[trigger] rec_has(v1, x, y) by {
                    if !prev(x as int, y as int) {
                        assert(img1.pixel(x, y) == l.pixel(x, y));
                    }
                }
                assert(layer_ids(store@.layers) =~= layer_ids(s1.layers));
            }
            return false;
        }
        let recorded = has_record(&self.original_pixels, lx as u32, ly as u32);
        if !recorded {
            self.original_pixels.push((lx as u32, ly as u32, cur));
        }
        let ghost v2 = self.original_pixels@;
        proof {
            assert forall|x: u32, y: u32| #[trigger] rec_has(v1, x, y) implies rec_has(v2, x, y) by {
                lemma_rec_has_push_all(v1, v2, x, y);
            }
            if !recorded {
                assert(v2[v1.len() as int].0 == lx as u32 && v2[v1.len() as int].1 == ly as u32);
                assert(rec_has(v2, lx as u32, ly as u32));
                assert forall|i: int, j: int| 0 <= i < v2.len() && 0 <= j < v2.len() && i != j implies !(#[trigger] v2[i].0 == #[trigger] v2[j].0 && v2[i].1 == v2[j].1) by {
                    if i < v1.len() && j < v1.len() {
                        assert(v2[i] == v1[i] && v2[j] == v1[j]);
                    } else if i < v1.len() {
                        assert(v2[i] == v1[i]);
                    } else if j < v1.len() {
                        assert(v2[j] == v1[j]);
                    }
                }
            }
            if !l.props.locked {
                if prev(lx as int, ly as int) {
                    assert(img1.pixel(lx as u32, ly as u32) == color);
                }
            }
            assert(rec_has(v2, lx as u32, ly as u32));
            assert forall|x: u32, y: u32| (prev(x as int, y as int) || (x == lx && y == ly)) && l.pixel(x, y) != color implies #[trigger] rec_has(v2, x, y) by {
                if prev(x as int, y as int) && l.pixel(x, y) != color {
                    assert(rec_has(v1, x, y));
                }
            }
        }
        let sr = store.mut_set_pixel(layer_id.as_str(), px as u32, py as u32, color);
        proof {
            assert(layer_ids(store@.layers) =~= layer_ids(s1.layers));
        }
        match sr {
            Err(_) => {
                true
            },
            Ok(()) => false,
        }
    }

    /// Paints the brush around each of `centres` (the pointer position and its
    /// mirror images) on the layer this stroke started on, recording the colour
    /// each changed pixel had before the stroke. The brush offsets are drawn once,
    /// advancing the jitter generator. On a locked layer nothing is painted: the
    /// stroke fails at the first centre whose brush would change a pixel, after
    /// recording that centre's pixels. Nothing happens without a stroke layer or
    /// where that layer no longer exists.
    pub fn paint_brush_at(&mut self, centres: &Vec<(i32, i32)>, store: &mut PixelStore) -> (r: Result<
        (),
        CoreError,
    >)
        requires
            old(self).wf(),
            old(store)@.wf(),
            old(store).brush_size <= 46340,
            old(store).brush_size + 2 * old(store).brush_jitter <= i32::MAX,
            forall|k: int|
                0 <= k < centres@.len() ==> square_fits(
                    #[trigger] centres@[k].0 as int,
                    centres@[k].1 as int,
                    old(store).brush_size + 2 * old(store).brush_jitter,
                ),
        ensures
            paint_outcome(*old(self), old(store)@, centres@, *final(self), final(store)@, r),
    {
        proof {
            reveal(paint_outcome);
        }
        let layer_id = match &self.active_layer_id {
            Some(id) => id.clone(),
            None => {
                return Ok(());
            },
        };
        let brush_size = store.brush_size;
        let color = if self.is_eraser {
            Color::transparent()
        } else {
            store.primary_color
        };
        let li = match store.find_layer(layer_id.as_str()) {
            Some(i) => i,
            None => {
                return Ok(());
            },
        };
        let ghost s0 = store@;
        let ghost l = s0.layers[li as int];
        let ghost v0 = self.original_pixels@;
        let ghost d0 = self.dirty_rect;
        let ghost cs = centres@;
        assert(store.layers[li as int]@ == l);
        let offset_x = store.layers[li].offset_x;
        let offset_y = store.layers[li].offset_y;
        let l_width = store.layers[li].width;
        let l_height = store.layers[li].height;
        let size = brush_size + store.brush_jitter * 2;
        let rel = brush_offsets(brush_size, store.brush_shape, store.brush_jitter, &mut self.rng_state);
        let ghost rs = brush_offsets_spec(
            s0.brush_size as int,
            s0.brush_shape,
            s0.brush_jitter,
            old(self).rng_state,
        );
        let n = centres.len();
        let mut res: Result<(), CoreError> = Ok(());
        let mut failed = false;
        let mut c: usize = 0;
        while c < n && !failed
            invariant
                n == cs.len(),
                cs == centres@,
                c <= n,
                s0 == old(store)@,
                l == s0.layers[li as int],
                li < s0.layers.len(),
                s0.find_layer(layer_id@) == Some(li as int),
                v0 == old(self).original_pixels@,
                d0 == old(self).dirty_rect,
                rel@.len() == rs.len(),
                forall|q: int| 0 <= q < rel@.len() ==> (#[trigger] rel@[q].0 as int, rel@[q].1 as int) == rs[q],
                rs == brush_offsets_spec(s0.brush_size as int, s0.brush_shape, s0.brush_jitter, old(self).rng_state),
                size == s0.brush_size + 2 * s0.brush_jitter,
                forall|k: int| 0 <= k < cs.len() ==> square_fits(#[trigger] cs[k].0 as int, cs[k].1 as int, size as int),
                color == stroke_color(self.is_eraser, s0.primary_color),
                offset_x == l.props.offset_x,
                offset_y == l.props.offset_y,
                l_width == l.props.width,
                l_height == l.props.height,
                self.rng_state == rng_after(s0.brush_size as int, s0.brush_shape, s0.brush_jitter, old(self).rng_state),
                self.last_pos == old(self).last_pos,
                self.is_eraser == old(self).is_eraser,
                self.active_layer_id == old(self).active_layer_id,
                self.dirty_rect == dirty_fold(d0, cs, c as int, size as int),
                dirty_ok(self.dirty_rect),
                store@.wf(),
                store@ == (StoreModel { layers: store@.layers, ..s0 }),
                store@.layers.len() == s0.layers.len(),
                layer_ids(store@.layers) == layer_ids(s0.layers),
                forall|j: int| 0 <= j < s0.layers.len() && j != li ==> #[trigger] store@.layers[j] == s0.layers[j],
                store@.layers[li as int].props == l.props,
                forall|x: u32, y: u32| #[trigger] store@.layers[li as int].pixel(x, y) == if !l.props.locked && painted(cs, c as int, rs, l, x as int, y as int) {
                    color
                } else {
                    l.pixel(x, y)
                },
                recs_wf(self.original_pixels@),
                self.original_pixels@.len() >= v0.len(),
                forall|k: int| 0 <= k < v0.len() ==> #[trigger] self.original_pixels@[k] == v0[k],
                forall|k: int| v0.len() <= k < self.original_pixels@.len() ==> painted(cs, c as int, rs, l, #[trigger] self.original_pixels@[k].0 as int, self.original_pixels@[k].1 as int)
                    && l.pixel(self.original_pixels@[k].0, self.original_pixels@[k].1) != color
                    && self.original_pixels@[k].2 == l.pixel(self.original_pixels@[k].0, self.original_pixels@[k].1),
                forall|x: u32, y: u32| painted(cs, c as int, rs, l, x as int, y as int) && l.pixel(x, y) != color ==> #[trigger] rec_has(self.original_pixels@, x, y),
                failed ==> l.props.locked && c >= 1 && first_differing(cs, c as int, rs, l, color) == c - 1,
                !failed ==> (l.props.locked ==> first_differing(cs, c as int, rs, l, color) == c as int),
                failed == res is Err,
                res is Err ==> res matches Err(CoreError::LayerLocked),
            decreases n - c,
        {
            let (tx, ty) = centres[c];
            self.update_dirty_rect_internal(tx, ty, size);
            proof {
                if l.props.locked {
                    lemma_first_differing_range(cs, c as int, rs, l, color);
                    assert forall|x: u32, y: u32| painted(cs, c as int, rs, l, x as int, y as int) implies l.pixel(x, y) == color by {
                        lemma_painted_no_differ(cs, c as int, rs, l, color, x as int, y as int);
                    }
                }
            }
            let m = rel.len();
            for k in 0..m
                invariant
                    m == rs.len(),
                    rel@.len() == rs.len(),
                    forall|q: int| 0 <= q < rel@.len() ==> (#[trigger] rel@[q].0 as int, rel@[q].1 as int) == rs[q],
                    c < n,
                    n == cs.len(),
                    cs == centres@,
                    (tx, ty) == cs[c as int],
                    s0 == old(store)@,
                    l == s0.layers[li as int],
                    li < s0.layers.len(),
                    s0.find_layer(layer_id@) == Some(li as int),
                    v0 == old(self).original_pixels@,
                    color == stroke_color(self.is_eraser, s0.primary_color),
                    offset_x == l.props.offset_x,
                    offset_y == l.props.offset_y,
                    l_width == l.props.width,
                    l_height == l.props.height,
                    store@.wf(),
                    store@ == (StoreModel { layers: store@.layers, ..s0 }),
                    store@.layers.len() == s0.layers.len(),
                    layer_ids(store@.layers) == layer_ids(s0.layers),
                    forall|j: int| 0 <= j < s0.layers.len() && j != li ==> #[trigger] store@.layers[j] == s0.layers[j],
                    store@.layers[li as int].props == l.props,
                    forall|x: u32, y: u32| #[trigger] store@.layers[li as int].pixel(x, y) == if !l.props.locked && (painted(cs, c as int, rs, l, x as int, y as int) || hits(cs[c as int], rs, k as int, l, x as int, y as int)) {
                        color
                    } else {
                        l.pixel(x, y)
                    },
                    recs_wf(self.original_pixels@),
                    self.original_pixels@.len() >= v0.len(),
                    forall|q: int| 0 <= q < v0.len() ==> #[trigger] self.original_pixels@[q] == v0[q],
                    forall|q: int| v0.len() <= q < self.original_pixels@.len() ==> (painted(cs, c as int, rs, l, #[trigger] self.original_pixels@[q].0 as int, self.original_pixels@[q].1 as int)
                        || hits(cs[c as int], rs, k as int, l, self.original_pixels@[q].0 as int, self.original_pixels@[q].1 as int))
                        && l.pixel(self.original_pixels@[q].0, self.original_pixels@[q].1) != color
                        && self.original_pixels@[q].2 == l.pixel(self.original_pixels@[q].0, self.original_pixels@[q].1),
                    forall|x: u32, y: u32| (painted(cs, c as int, rs, l, x as int, y as int) || hits(cs[c as int], rs, k as int, l, x as int, y as int)) && l.pixel(x, y) != color ==> #[trigger] rec_has(self.original_pixels@, x, y),
                    !l.props.locked ==> res is Ok,
                    l.props.locked ==> (res is Err <==> differs(cs[c as int], rs, k as int, l, color)),
                    l.props.locked ==> forall|x: u32, y: u32| painted(cs, c as int, rs, l, x as int, y as int) ==> l.pixel(x, y) == color,
                    res is Err ==> res matches Err(CoreError::LayerLocked),
                    d0 == old(self).dirty_rect,
                    rs == brush_offsets_spec(s0.brush_size as int, s0.brush_shape, s0.brush_jitter, old(self).rng_state),
                    size == s0.brush_size + 2 * s0.brush_jitter,
                    self.rng_state == rng_after(s0.brush_size as int, s0.brush_shape, s0.brush_jitter, old(self).rng_state),
                    self.last_pos == old(self).last_pos,
                    self.is_eraser == old(self).is_eraser,
                    self.active_layer_id == old(self).active_layer_id,
                    self.dirty_rect == dirty_fold(d0, cs, c + 1, size as int),
                    dirty_ok(self.dirty_rect),
                    l.props.locked ==> first_differing(cs, c as int, rs, l, color) == c as int,
            {
                let ghost t = cs[c as int];
                let ghost kk = k as int;
                let rx = rel[k].0;
                let ry = rel[k].1;
                let px = tx as i64 + rx as i64;
                let py = ty as i64 + ry as i64;
                let ghost prev = |x: int, y: int| painted(cs, c as int, rs, l, x, y) || hits(t, rs, kk, l, x, y);
                proof {
                    assert(px == t.0 + rs[kk].0 && py == t.1 + rs[kk].1);
                }
                let err = self.paint_point(store, &layer_id, li, px, py, color, Ghost(l), Ghost(prev), Ghost(v0));
                if err {
                    res = Err(CoreError::LayerLocked);
                }
                proof {
                    assert forall|x: int, y: int| #[trigger] hits(t, rs, kk + 1, l, x, y) == (hits(t, rs, kk, l, x, y) || hit_target(t, rs[kk], l) == Some((x, y))) by {
                    }
                }
            }
            failed = res.is_err();
            c = c + 1;
        }
        proof {
            lemma_first_differing_range(cs, n as int, rs, l, color);
            if failed {
                lemma_first_differing_stable(cs, c as int, n as int, rs, l, color);
            }
            reveal(paint_outcome);
        }
        res
    }

    /// Starts a stroke on the active layer at canvas point `(x, y)`: forgets the
    /// previous stroke's records and dirty rectangle and paints the brush there.
    /// Nothing happens where no layer is active.
    pub fn on_pointer_down(&mut self, x: u32, y: u32, store: &mut PixelStore) -> (r: Result<(), CoreError>)
        requires
            old(self).wf(),
            old(store)@.wf(),
            old(store).brush_size <= 46340,
            old(store).brush_size + 2 * old(store).brush_jitter <= i32::MAX,
            square_fits(x as i32 as int, y as i32 as int, old(store).brush_size + 2 * old(store).brush_jitter),
        ensures
            final(self).wf(),
            final(store)@.wf(),
            match old(store).active_layer_id {
                None => r is Ok && *final(self) == *old(self) && final(store)@ == old(store)@,
                Some(id) => exists|t: PencilTool|
                    #[trigger] paint_outcome(t, old(store)@, seq![(x as i32, y as i32)], *final(self), final(store)@, r)
                        && (t.active_layer_id matches Some(a) && a@ == id@)
                        && t.original_pixels@.len() == 0
                        && t.dirty_rect is None
                        && t.last_pos == Some((x as i32, y as i32))
                        && t.is_eraser == old(self).is_eraser
                        && t.rng_state == old(self).rng_state,
            },
    {
        match &store.active_layer_id {
            Some(id) => {
                self.active_layer_id = Some(id.clone());
                self.original_pixels.clear();
                self.dirty_rect = None;
                self.last_pos = Some((x as i32, y as i32));
                let ghost t = *self;
                let centres = vec![(x as i32, y as i32)];
                let ghost s0 = store@;
                let r = self.paint_brush_at(&centres, store);
                assert(centres@ =~= seq![(x as i32, y as i32)]);
                proof {
                    lemma_paint_outcome_basics(t, s0, centres@, *self, store@, r);
                }
                assert(paint_outcome(t, old(store)@, seq![(x as i32, y as i32)], *self, store@, r));
                r
            },
            None => Ok(()),
        }
    }

    /// Continues the stroke to canvas point `(x, y)`: paints the brush at every
    /// point of the line from the previous point, the previous point excepted,
    /// stopping at the first failure. Nothing happens without a stroke in
    /// progress or where the point has not moved.
    pub fn on_pointer_move(&mut self, x: u32, y: u32, store: &mut PixelStore) -> (r: Result<(), CoreError>)
        requires
            old(self).wf(),
            old(store)@.wf(),
            old(store).brush_size <= 46340,
            old(store).brush_size + 2 * old(store).brush_jitter <= i32::MAX,
            old(self).last_pos matches Some((lx, ly)) ==> square_fits(lx as int, ly as int, old(store).brush_size + 2 * old(store).brush_jitter)
                && square_fits(x as i32 as int, y as i32 as int, old(store).brush_size + 2 * old(store).brush_jitter),
        ensures
            final(self).wf(),
            final(store)@.wf(),
            (old(self).active_layer_id is None || old(self).last_pos is None || old(self).last_pos == Some((x as i32, y as i32)))
                ==> r is Ok && *final(self) == *old(self) && final(store)@ == old(store)@,
            forall|lx: i32, ly: i32|
                old(self).last_pos == Some((lx, ly)) && old(self).active_layer_id is Some && (lx, ly) != (x as i32, y as i32)
                    ==> #[trigger] line_cells(lx, ly, x as i32, y as i32).len() > 0 && {
                    let pts = line_cells(lx, ly, x as i32, y as i32).drop_first();
                    exists|ts: Seq<PencilTool>, ss: Seq<StoreModel>, rs: Seq<Result<(), CoreError>>|
                        #[trigger] stroke_chain(pts, ts, ss, rs) && ts[0] == *old(self) && ss[0] == old(store)@ && final(store)@ == ss.last()
                            && if rs.len() > 0 && rs.last() is Err {
                                r == rs.last() && *final(self) == ts.last()
                            } else {
                                rs.len() == pts.len() && r is Ok && *final(self) == (PencilTool {
                                    last_pos: Some((x as i32, y as i32)),
                                    ..ts.last()
                                })
                            }
                },
    {
        if self.active_layer_id.is_none() {
            return Ok(());
        }
        let (last_x, last_y) = match self.last_pos {
            Some(p) => p,
            None => {
                return Ok(());
            },
        };
        let cur_x = x as i32;
        let cur_y = y as i32;
        if last_x == cur_x && last_y == cur_y {
            return Ok(());
        }
        let line = Geometry::bresenham_line(last_x, last_y, cur_x, cur_y);
        let ghost pts = line_cells(last_x, last_y, cur_x, cur_y).drop_first();
        proof {
            assert forall|k: int| 0 <= k < line@.len() implies #[trigger] line@[k] == line_cells(last_x, last_y, cur_x, cur_y)[k] by {
            }
        }
        let n = line.len();
        let ghost mut ts: Seq<PencilTool> = seq![*self];
        let ghost mut ss: Seq<StoreModel> = seq![store@];
        let ghost mut rs: Seq<Result<(), CoreError>> = Seq::empty();
        let mut i: usize = 1;
        while i < n
            invariant
                1 <= i <= n,
                n == line@.len(),
                n >= 1,
                pts.len() == n - 1,
                forall|k: int| 0 <= k < pts.len() ==> #[trigger] pts[k] == line@[k + 1],
                forall|k: int|
                    0 <= k < line@.len() ==> (last_x <= #[trigger] line@[k].0 <= cur_x || cur_x <= line@[k].0 <= last_x) && (
                    last_y <= line@[k].1 <= cur_y || cur_y <= line@[k].1 <= last_y),
                self.wf(),
                store@.wf(),
                store.brush_size <= 46340,
                store.brush_size + 2 * store.brush_jitter <= i32::MAX,
                square_fits(last_x as int, last_y as int, store.brush_size + 2 * store.brush_jitter),
                square_fits(cur_x as int, cur_y as int, store.brush_size + 2 * store.brush_jitter),
                stroke_chain(pts, ts, ss, rs),
                rs.len() == i - 1,
                forall|k: int| 0 <= k < rs.len() ==> #[trigger] rs[k] is Ok,
                old(self).last_pos == Some((last_x, last_y)),
                old(self).active_layer_id is Some,
                !(last_x == cur_x && last_y == cur_y),
                cur_x == x as i32,
                cur_y == y as i32,
                pts == line_cells(last_x, last_y, cur_x, cur_y).drop_first(),
                ts[0] == *old(self),
                ss[0] == old(store)@,
                *self == ts.last(),
                store@ == ss.last(),
            decreases n - i,
        {
            let centres = vec![line[i]];
            proof {
                assert(centres@ =~= seq![pts[i - 1]]);
                let c = line@[i as int];
                assert(square_fits(c.0 as int, c.1 as int, store.brush_size + 2 * store.brush_jitter));
            }
            let ghost t0 = *self;
            let ghost s0 = store@;
            let res = self.paint_brush_at(&centres, store);
            proof {
                lemma_paint_outcome_basics(t0, s0, centres@, *self, store@, res);
                let ts0 = ts;
                let ss0 = ss;
                let rs0 = rs;
                ts = ts.push(*self);
                ss = ss.push(store@);
                rs = rs.push(res);
                assert forall|k: int| 0 <= k < rs.len() implies paint_outcome(#[trigger] ts[k], ss[k], seq![pts[k]], ts[k + 1], ss[k + 1], rs[k]) by {
                    if k < rs.len() - 1 {
                        assert(ts[k] == ts0[k] && ts[k + 1] == ts0[k + 1]);
                        assert(ss[k] == ss0[k] && ss[k + 1] == ss0[k + 1]);
                        assert(rs[k] == rs0[k]);
                    } else {
                        assert(ts[k] == t0 && ss[k] == s0);
                        assert(seq![pts[k]] == centres@);
                    }
                }
                assert forall|k: int| 0 <= k < rs.len() - 1 implies #[trigger] rs[k] is Ok by {
                    assert(rs[k] == rs0[k]);
                }
                assert(stroke_chain(pts, ts, ss, rs));
                assert(ts[0] == ts0[0] && ss[0] == ss0[0]);
            }
            if res.is_err() {
                proof {
                    assert(old(self).last_pos == Some((last_x, last_y)));
                    assert(rs.last() == res);
                    assert(ts[0] == *old(self));
                    assert(ss[0] == old(store)@);
                    assert(ss.last() == store@);
                    assert(ts.last() == *self);
                    assert(stroke_chain(line_cells(last_x, last_y, x as i32, y as i32).drop_first(), ts, ss, rs));
                    assert(stroke_chain(pts, ts, ss, rs) && ts[0] == *old(self) && ss[0] == old(store)@ && store@ == ss.last()
                        && (if rs.len() > 0 && rs.last() is Err {
                            res == rs.last() && *self == ts.last()
                        } else {
                            rs.len() == pts.len() && res is Ok && *self == (PencilTool {
                                last_pos: Some((x as i32, y as i32)),
                                ..ts.last()
                            })
                        }));
                }
                return res;
            }
            i = i + 1;
        }
        self.last_pos = Some((cur_x, cur_y));
        proof {
            assert(old(self).last_pos == Some((last_x, last_y)));
            assert(rs.len() == pts.len());
            if rs.len() > 0 {
                assert(rs[rs.len() - 1] is Ok);
            }
            assert(stroke_chain(pts, ts, ss, rs));
            assert(stroke_chain(line_cells(last_x, last_y, x as i32, y as i32).drop_first(), ts, ss, rs));
        }
        Ok(())
    }

    /// Ends the stroke: turns the recorded pixels whose colour changed into a
    /// pixel-change patch (named `patch_id`) on the stroke's layer, in recording
    /// order, and forgets the records. No patch where nothing changed, where no
    /// stroke was in progress, or where the stroke's layer no longer exists (the
    /// records are then kept).
    pub fn on_pointer_up(&mut self, store: &PixelStore, patch_id: String) -> (r: Result<
        Option<ActionPatch>,
        CoreError,
    >)
        requires
            old(self).wf(),
            store@.wf(),
        ensures
            final(self).wf(),
            r is Ok,
            final(self).is_eraser == old(self).is_eraser,
            final(self).rng_state == old(self).rng_state,
            final(self).dirty_rect == old(self).dirty_rect,
            match old(self).active_layer_id {
                None => r == Ok::<Option<ActionPatch>, CoreError>(None) && *final(self) == *old(self),
                Some(id) => {
                    &&& final(self).active_layer_id is None
                    &&& final(self).last_pos is None
                    &&& match store@.find_layer(id@) {
                        None => r == Ok::<Option<ActionPatch>, CoreError>(None)
                            && final(self).original_pixels@ == old(self).original_pixels@,
                        Some(i) => {
                            let ds = stroke_diffs(old(self).original_pixels@, store@.layers[i]);
                            &&& final(self).original_pixels@.len() == 0
                            &&& ds.len() == 0 ==> r == Ok::<Option<ActionPatch>, CoreError>(None)
                            &&& ds.len() > 0 ==> (r matches Ok(Some(p)) && p.id == patch_id && p.layer_id@ == id@
                                && (p.action matches PatchAction::PixelDiff(d) && d.diffs@ == ds))
                        },
                    }
                },
            },
    {
        let layer_id = match self.active_layer_id.take() {
            Some(id) => id,
            None => {
                return Ok(None);
            },
        };
        self.last_pos = None;
        let li = match store.find_layer(layer_id.as_str()) {
            Some(i) => i,
            None => {
                return Ok(None);
            },
        };
        let layer = &store.layers[li];
        assert(layer@ == store@.layers[li as int]);
        let mut patch = ActionPatch::new_pixel_diff(patch_id, layer_id.clone());
        let n = self.original_pixels.len();
        let ghost v = self.original_pixels@;
        for k in 0..n
            invariant
                n == v.len(),
                v == self.original_pixels@,
                layer@ == store@.layers[li as int],
                store@.wf(),
                li < store@.layers.len(),
                patch.id == patch_id,
                patch.layer_id@ == layer_id@,
                patch.action matches PatchAction::PixelDiff(d) && d.diffs@ == stroke_diffs(v.take(k as int), layer@),
        {
            let (lx, ly, old_color) = self.original_pixels[k];
            let new_color = match layer.get_pixel(lx, ly) {
                Some(c) => c,
                None => Color::transparent(),
            };
            proof {
                assert(v.take(k + 1).drop_last() =~= v.take(k as int));
                assert(v.take(k + 1).last() == v[k as int]);
            }
            if old_color != new_color {
                patch.add_pixel_diff(lx, ly, old_color, new_color);
            }
        }
        proof {
            assert(v.take(n as int) =~= v);
        }
        self.original_pixels.clear();
        if patch.is_empty() {
            return Ok(None);
        }
        Ok(Some(patch))
    }

    /// Finishing the tool ends the stroke.
    pub fn on_commit(&mut self, store: &PixelStore, patch_id: String) -> (r: Result<
        Option<ActionPatch>,
        CoreError,
    >)
        requires
            old(self).wf(),
            store@.wf(),
        ensures
            final(self).wf(),
            r is Ok,
            final(self).active_layer_id is None,
            final(self).dirty_rect == old(self).dirty_rect,
            match old(self).active_layer_id {
                None => r == Ok::<Option<ActionPatch>, CoreError>(None) && *final(self) == *old(self),
                Some(id) => final(self).last_pos is None && match store@.find_layer(id@) {
                    None => r == Ok::<Option<ActionPatch>, CoreError>(None),
                    Some(i) => {
                        let ds = stroke_diffs(old(self).original_pixels@, store@.layers[i]);
                        &&& ds.len() == 0 ==> r == Ok::<Option<ActionPatch>, CoreError>(None)
                        &&& ds.len() > 0 ==> (r matches Ok(Some(p)) && p.id == patch_id && p.layer_id@ == id@
                            && (p.action matches PatchAction::PixelDiff(d) && d.diffs@ == ds))
                    },
                },
            },
    {
        self.on_pointer_up(store, patch_id)
    }

    /// Abandons the stroke without a patch.
    pub fn on_cancel(&mut self)
        requires
            old(self).wf(),
        ensures
            final(self).wf(),
            *final(self) == (PencilTool {
                active_layer_id: None,
                original_pixels: final(self).original_pixels,
                last_pos: None,
                ..*old(self)
            }),
            final(self).original_pixels@.len() == 0,
    {
        self.active_layer_id = None;
        self.original_pixels.clear();
        self.last_pos = None;
    }

    /// Hands out the area painted since the last call, as `(x, y, width, height)`.
    pub fn take_dirty_rect(&mut self) -> (r: Option<(u32, u32, u32, u32)>)
        requires
            old(self).wf(),
        ensures
            final(self).wf(),
            *final(self) == (PencilTool { dirty_rect: None, ..*old(self) }),
            r == match old(self).dirty_rect {
                Some((x1, y1, x2, y2)) => Some((x1, y1, (x2 - x1) as u32, (y2 - y1) as u32)),
                None => None,
            },
    {
        match self.dirty_rect.take() {
            Some((x1, y1, x2, y2)) => Some((x1, y1, x2 - x1, y2 - y1)),
            None => None,
        }
    }
}

} // verus!
