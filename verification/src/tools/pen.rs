use vstd::prelude::*;
use crate::history::diff::PixelDiff;
use crate::history::patch::{ActionPatch, PatchAction, PixelDiffPatch};
use crate::model::color::{Color, transparent_color};
use crate::model::layer::LayerModel;
use crate::model::path::BezierPath;
use crate::model::selection::{SelectionData, SelectionModel};
use crate::model::path::PathModel;
use crate::model::store::{PixelStore, StoreModel, canvas_pixel};
use crate::tools::geometry::{Geometry, line_points};

verus! {

/// What a drag with the pen is doing.
#[derive(Clone, Copy, Debug, PartialEq, Eq, Structural)]
pub enum PenMode {
    Idle,
    CreatingDrag,
    MovingAnchor(usize),
    AdjustingIn(usize),
    AdjustingOut(usize),
}

// ------------------------------------------------------------ filling the path
/// The change filling canvas point `(x, y)` makes to layer `l`: where the point
/// lies in the path's region and on the layer and its colour differs.
pub open spec fn pen_fill_at(l: LayerModel, region: SelectionModel, color: Color, x: int, y: int) -> Seq<PixelDiff> {
    let lx = x - l.props.offset_x;
    let ly = y - l.props.offset_y;
    if region.contains(x, y) && l.in_bounds(lx, ly) && l.pixel(lx as u32, ly as u32) != color {
        seq![PixelDiff { x: lx as u32, y: ly as u32, old_color: l.pixel(lx as u32, ly as u32), new_color: color }]
    } else {
        Seq::empty()
    }
}

/// The changes of the first `n` points of canvas row `y`, left to right.
pub open spec fn pen_fill_row(l: LayerModel, region: SelectionModel, color: Color, y: int, n: int) -> Seq<PixelDiff>
    decreases n,
{
    if n <= 0 {
        Seq::empty()
    } else {
        pen_fill_row(l, region, color, y, n - 1) + pen_fill_at(l, region, color, n - 1, y)
    }
}

/// The changes of the first `rows` canvas rows of width `w`, row by row.
pub open spec fn pen_fill_rows(l: LayerModel, region: SelectionModel, color: Color, w: int, rows: int) -> Seq<PixelDiff>
    decreases rows,
{
    if rows <= 0 {
        Seq::empty()
    } else {
        pen_fill_rows(l, region, color, w, rows - 1) + pen_fill_row(l, region, color, rows - 1, w)
    }
}

/// Canvas points of a `w` by `h` canvas have 32-bit signed coordinates on
/// layer `l`.
pub open spec fn pen_fits(l: LayerModel, w: u32, h: u32) -> bool {
    &&& w <= 0x8000_0000
    &&& h <= 0x8000_0000
    &&& l.props.width <= i32::MAX
    &&& l.props.height <= i32::MAX
    &&& i32::MIN <= -l.props.offset_x
    &&& i32::MIN <= -l.props.offset_y
    &&& w - 1 - l.props.offset_x <= i32::MAX
    &&& h - 1 - l.props.offset_y <= i32::MAX
}

// ------------------------------------------------------------ stroking the path
pub open spec fn in_canvas(c: (int, int), w: u32, h: u32) -> bool {
    0 <= c.0 < w && 0 <= c.1 < h
}

/// The points, as integers.
pub open spec fn int_points(pts: Seq<(i32, i32)>) -> Seq<(int, int)> {
    pts.map_values(|p: (i32, i32)| (p.0 as int, p.1 as int))
}

/// The number of segments of a polyline of `n` points, closed or open.
pub open spec fn segment_count(n: int, closed: bool) -> int {
    if n <= 0 {
        0
    } else if closed {
        n
    } else {
        n - 1
    }
}

/// The cells of the first `k` segments, segment `i` running from point `i` to
/// the next point (the first one after the last).
pub open spec fn stroke_cells(pts: Seq<(int, int)>, k: int) -> Seq<(int, int)>
    decreases k,
{
    if k <= 0 {
        Seq::empty()
    } else {
        let a = pts[k - 1];
        let b = pts[k % (pts.len() as int)];
        stroke_cells(pts, k - 1) + line_points(a.0, a.1, b.0, b.1)
    }
}

/// The first `k` cells on a `w` by `h` canvas, each once, in order of first
/// appearance.
pub open spec fn first_cells(cells: Seq<(int, int)>, w: u32, h: u32, k: int) -> Seq<(int, int)>
    decreases k,
{
    if k <= 0 {
        Seq::empty()
    } else {
        let prev = first_cells(cells, w, h, k - 1);
        let c = cells[k - 1];
        if in_canvas(c, w, h) && !prev.contains(c) {
            prev.push(c)
        } else {
            prev
        }
    }
}

/// The change stroking canvas cell `c` records: the colour the layer carrying
/// `id` shows there (transparent where there is none), to `color`.
pub open spec fn stroke_diff(s: StoreModel, id: Seq<char>, c: (int, int), color: Color) -> PixelDiff {
    let old_color = match s.find_layer(id) {
        Some(i) => match canvas_pixel(s.layers[i], c.0, c.1) {
            Some(o) => o,
            None => transparent_color(),
        },
        None => transparent_color(),
    };
    PixelDiff { x: c.0 as u32, y: c.1 as u32, old_color, new_color: color }
}

/// The cells first met in a sequence, counted up to its last element, extend
/// those of the sequence without it.
proof fn lemma_first_cells_prefix(cells2: Seq<(int, int)>, cells: Seq<(int, int)>, w: u32, h: u32)
    requires
        cells2.len() == cells.len() + 1,
        cells2.take(cells.len() as int) == cells,
    ensures
        first_cells(cells2, w, h, cells.len() as int) == first_cells(cells, w, h, cells.len() as int),
        first_cells(cells2, w, h, cells2.len() as int) == ({
            let prev = first_cells(cells, w, h, cells.len() as int);
            let c = cells2[cells.len() as int];
            if in_canvas(c, w, h) && !prev.contains(c) {
                prev.push(c)
            } else {
                prev
            }
        }),
{
    lemma_first_cells_agree(cells2, cells, w, h, cells.len() as int);
}

/// Sequences that agree on their first `k` elements meet the same first cells there.
proof fn lemma_first_cells_agree(a: Seq<(int, int)>, b: Seq<(int, int)>, w: u32, h: u32, k: int)
    requires
        0 <= k <= a.len(),
        k <= b.len(),
        forall|i: int| 0 <= i < k ==> a[i] == b[i],
    ensures
        first_cells(a, w, h, k) == first_cells(b, w, h, k),
    decreases k,
{
    if k > 0 {
        lemma_first_cells_agree(a, b, w, h, k - 1);
    }
}

/// Whether `v` holds `c`.
fn has_cell(v: &Vec<(i32, i32)>, c: (i32, i32)) -> (b: bool)
    ensures
        b == v@.contains(c),
{
    let n = v.len();
    for i in 0..n
        invariant
            n == v@.len(),
            forall|k: int| 0 <= k < i ==> v@[k] != c,
    {
        if v[i].0 == c.0 && v[i].1 == c.1 {
            assert(v@[i as int] == c);
            return true;
        }
    }
    false
}

/// The pen: builds a Bézier path, then fills or strokes it.
pub struct PenTool {
    pub snapshot: Option<BezierPath>,
    pub mode: PenMode,
    pub selected_node_idx: Option<usize>,
    pub hover_start_point: bool,
    pub hover_node_idx: Option<usize>,
    pub hover_handle: Option<(usize, bool)>,
    pub needs_redraw: bool,
}

impl PenTool {
    pub fn new() -> (t: PenTool)
        ensures
            t.snapshot is None,
            t.mode == PenMode::Idle,
            t.selected_node_idx is None,
            !t.hover_start_point,
            t.hover_node_idx is None,
            t.hover_handle is None,
            !t.needs_redraw,
    {
        PenTool {
            snapshot: None,
            mode: PenMode::Idle,
            selected_node_idx: None,
            hover_start_point: false,
            hover_node_idx: None,
            hover_handle: None,
            needs_redraw: false,
        }
    }

    /// Fills the region the path encloses (`region`, the path's polygon on the
    /// canvas) on the active layer with the primary colour, as a patch named
    /// `patch_id` listing, row by row, the layer pixels whose colour changes.
    /// Nothing for a path of fewer than three nodes, without an active layer,
    /// or where nothing would change.
    pub fn fill(&self, store: &PixelStore, region: &SelectionData, patch_id: String) -> (r: Option<ActionPatch>)
        requires
            store@.wf(),
            region@.wf(),
            forall|i: int|
                0 <= i < store@.layers.len() ==> pen_fits(#[trigger] store@.layers[i], store.canvas_width, store.canvas_height),
        ensures
            store@.active_path.nodes.len() < 3 ==> r is None,
            store@.active_path.nodes.len() >= 3 ==> match store@.active_layer_id {
                None => r is None,
                Some(id) => match store@.find_layer(id) {
                    None => r is None,
                    Some(i) => {
                        let ds = pen_fill_rows(
                            store@.layers[i],
                            region@,
                            store.primary_color,
                            store.canvas_width as int,
                            store.canvas_height as int,
                        );
                        &&& ds.len() == 0 ==> r is None
                        &&& ds.len() > 0 ==> (r matches Some(p) && p.id == patch_id && p.layer_id@ == id && (p.action matches PatchAction::PixelDiff(
                            d,
                        ) && d.diffs@ == ds))
                    },
                },
            },
    {
        if store.active_path.nodes.len() < 3 {
            return None;
        }
        let layer_id = match &store.active_layer_id {
            Some(id) => id.clone(),
            None => {
                return None;
            },
        };
        let li = match store.find_layer(layer_id.as_str()) {
            Some(i) => i,
            None => {
                return None;
            },
        };
        let layer = &store.layers[li];
        assert(layer@ == store@.layers[li as int]);
        let ghost l = layer@;
        let color = store.primary_color;
        let cw = store.canvas_width;
        let ch = store.canvas_height;
        let mut ds: Vec<PixelDiff> = Vec::new();
        let mut y: u32 = 0;
        while y < ch
            invariant
                l == layer@,
                l.wf(),
                region@.wf(),
                pen_fits(l, cw, ch),
                y <= ch,
                ds@ == pen_fill_rows(l, region@, color, cw as int, y as int),
            decreases ch - y,
        {
            let ghost d0 = ds@;
            let mut x: u32 = 0;
            while x < cw
                invariant
                    l == layer@,
                    l.wf(),
                    region@.wf(),
                    pen_fits(l, cw, ch),
                    y < ch,
                    x <= cw,
                    ds@ == d0 + pen_fill_row(l, region@, color, y as int, x as int),
                decreases cw - x,
            {
                let ghost before = ds@;
                if region.contains(x, y) {
                    let lx = x as i32 - layer.offset_x;
                    let ly = y as i32 - layer.offset_y;
                    if lx >= 0 && ly >= 0 && lx < layer.width as i32 && ly < layer.height as i32 {
                        let old_color = match layer.get_pixel(lx as u32, ly as u32) {
                            Some(c) => c,
                            None => Color::transparent(),
                        };
                        if old_color != color {
                            ds.push(PixelDiff { x: lx as u32, y: ly as u32, old_color, new_color: color });
                        }
                    }
                }
                proof {
                    let w = layer.width;
                    let h = layer.height;
                    assert(w <= 0x7fff_ffff ==> (w as i32) >= 0 && ((w as i32) as u32) == w) by (bit_vector);
                    assert(h <= 0x7fff_ffff ==> (h as i32) >= 0 && ((h as i32) as u32) == h) by (bit_vector);
                    assert(d0 + pen_fill_row(l, region@, color, y as int, x + 1) =~= before + pen_fill_at(
                        l,
                        region@,
                        color,
                        x as int,
                        y as int,
                    ));
                }
                x = x + 1;
            }
            proof {
                assert(d0 + pen_fill_row(l, region@, color, y as int, cw as int) =~= pen_fill_rows(
                    l,
                    region@,
                    color,
                    cw as int,
                    y + 1,
                ));
            }
            y = y + 1;
        }
        if ds.len() == 0 {
            return None;
        }
        Some(ActionPatch { id: patch_id, layer_id, action: PatchAction::PixelDiff(PixelDiffPatch { diffs: ds }) })
    }

    /// Strokes the path's outline on the canvas with the primary colour: the
    /// segments between consecutive `points` (the path flattened and rounded
    /// to pixels; from the last back to the first where the path is closed) are
    /// rasterised in order, and each canvas cell met for the first time records
    /// a change, in canvas coordinates, from the colour the active layer shows
    /// there (transparent where it shows none). The patch is named `patch_id`.
    /// Nothing for an empty path, without an active layer, or where no cell lies
    /// on the canvas.
    pub fn stroke(&self, store: &PixelStore, points: &Vec<(i32, i32)>, patch_id: String) -> (r: Option<ActionPatch>)
        requires
            store@.wf(),
        ensures
            store@.active_path.nodes.len() == 0 ==> r is None,
            store@.active_path.nodes.len() > 0 ==> match store@.active_layer_id {
                None => r is None,
                Some(id) => {
                    let pts = int_points(points@);
                    let cells = stroke_cells(pts, segment_count(pts.len() as int, store@.active_path.is_closed));
                    let drawn = first_cells(cells, store.canvas_width, store.canvas_height, cells.len() as int);
                    &&& drawn.len() == 0 ==> r is None
                    &&& drawn.len() > 0 ==> (r matches Some(p) && p.id == patch_id && p.layer_id@ == id && (p.action matches PatchAction::PixelDiff(
                        d,
                    ) && d.diffs@.len() == drawn.len() && forall|k: int|
                        0 <= k < drawn.len() ==> #[trigger] d.diffs@[k] == stroke_diff(store@, id, drawn[k], store.primary_color)))
                },
            },
    {
        if store.active_path.nodes.len() == 0 {
            return None;
        }
        let layer_id = match &store.active_layer_id {
            Some(id) => id.clone(),
            None => {
                return None;
            },
        };
        let ghost pts = int_points(points@);
        let color = store.primary_color;
        let cw = store.canvas_width;
        let ch = store.canvas_height;
        let n = points.len();
        let segs: usize = if n == 0 {
            0
        } else if store.active_path.is_closed {
            n
        } else {
            n - 1
        };
        let mut drawn: Vec<(i32, i32)> = Vec::new();
        let mut ds: Vec<PixelDiff> = Vec::new();
        let ghost mut cells: Seq<(int, int)> = Seq::empty();
        let mut i: usize = 0;
        while i < segs
            invariant
                n == points@.len(),
                pts == int_points(points@),
                segs == segment_count(n as int, store@.active_path.is_closed),
                i <= segs,
                store@.wf(),
                cells == stroke_cells(pts, i as int),
                drawn@.len() == first_cells(cells, cw, ch, cells.len() as int).len(),
                forall|k: int|
                    0 <= k < drawn@.len() ==> (#[trigger] drawn@[k].0 as int, drawn@[k].1 as int) == first_cells(
                        cells,
                        cw,
                        ch,
                        cells.len() as int,
                    )[k],
                ds@.len() == drawn@.len(),
                forall|k: int|
                    0 <= k < ds@.len() ==> #[trigger] ds@[k] == stroke_diff(
                        store@,
                        layer_id@,
                        first_cells(cells, cw, ch, cells.len() as int)[k],
                        color,
                    ),
            decreases segs - i,
        {
            let p1 = points[i];
            let p2 = points[(i + 1) % n];
            let line = Geometry::bresenham_line(p1.0, p1.1, p2.0, p2.1);
            let ghost lp = line_points(p1.0 as int, p1.1 as int, p2.0 as int, p2.1 as int);
            proof {
                assert(pts[i as int] == (p1.0 as int, p1.1 as int));
                assert(pts[(i + 1) % (n as int)] == (p2.0 as int, p2.1 as int));
                assert(stroke_cells(pts, i + 1) == cells + lp);
            }
            let ghost c0 = cells;
            let m = line.len();
            let mut j: usize = 0;
            while j < m
                invariant
                    m == line@.len(),
                    m == lp.len(),
                    forall|k: int| 0 <= k < m ==> (line@[k].0 as int, line@[k].1 as int) == #[trigger] lp[k],
                    j <= m,
                    store@.wf(),
                    cells == c0 + lp.take(j as int),
                    drawn@.len() == first_cells(cells, cw, ch, cells.len() as int).len(),
                    forall|k: int|
                        0 <= k < drawn@.len() ==> (#[trigger] drawn@[k].0 as int, drawn@[k].1 as int) == first_cells(
                            cells,
                            cw,
                            ch,
                            cells.len() as int,
                        )[k],
                    ds@.len() == drawn@.len(),
                    forall|k: int|
                        0 <= k < ds@.len() ==> #[trigger] ds@[k] == stroke_diff(
                            store@,
                            layer_id@,
                            first_cells(cells, cw, ch, cells.len() as int)[k],
                            color,
                        ),
                decreases m - j,
            {
                let (x, y) = line[j];
                let ghost c = (x as int, y as int);
                let ghost prev = first_cells(cells, cw, ch, cells.len() as int);
                let ghost cells2 = cells.push(c);
                proof {
                    assert(lp[j as int] == c);
                    assert(c0 + lp.take(j + 1) =~= cells2);
                    assert(cells2.len() == cells.len() + 1);
                    assert(cells2.take(cells.len() as int) =~= cells);
                    lemma_first_cells_prefix(cells2, cells, cw, ch);
                    assert(cells2[cells.len() as int] == c);
                }
                if x >= 0 && y >= 0 && (x as u32) < cw && (y as u32) < ch {
                    let seen = has_cell(&drawn, (x, y));
                    proof {
                        assert(seen == prev.contains(c)) by {
                            if seen {
                                let k = choose|k: int| 0 <= k < drawn@.len() && drawn@[k] == (x, y);
                                assert(prev[k] == c);
                            }
                            if prev.contains(c) {
                                let k = choose|k: int| 0 <= k < prev.len() && prev[k] == c;
                                assert((drawn@[k].0 as int, drawn@[k].1 as int) == c);
                                assert(drawn@[k] == (x, y));
                            }
                        }
                    }
                    if !seen {
                        drawn.push((x, y));
                        let old_color = match store.get_pixel(layer_id.as_str(), x as u32, y as u32) {
                            Some(o) => o,
                            None => Color::transparent(),
                        };
                        ds.push(PixelDiff { x: x as u32, y: y as u32, old_color, new_color: color });
                    }
                }
                proof {
                    cells = cells2;
                }
                j = j + 1;
            }
            proof {
                assert(lp.take(m as int) =~= lp);
            }
            i = i + 1;
        }
        if ds.len() == 0 {
            return None;
        }
        Some(ActionPatch { id: patch_id, layer_id, action: PatchAction::PixelDiff(PixelDiffPatch { diffs: ds }) })
    }

    /// Abandons the path: it is emptied and reopened, and the tool goes idle.
    pub fn on_cancel(&mut self, store: &mut PixelStore)
        ensures
            final(store)@ == (StoreModel {
                active_path: PathModel { nodes: Seq::empty(), is_closed: false },
                ..old(store)@
            }),
            *final(self) == (PenTool {
                mode: PenMode::Idle,
                selected_node_idx: None,
                hover_start_point: false,
                ..*old(self)
            }),
    {
        store.active_path.nodes.clear();
        store.active_path.is_closed = false;
        self.mode = PenMode::Idle;
        self.selected_node_idx = None;
        self.hover_start_point = false;
        assert(store@.active_path.nodes =~= Seq::<crate::model::path::PathNode>::empty());
    }

    /// The whole canvas once after the path changed on screen, else nothing.
    pub fn take_dirty_rect(&mut self) -> (r: Option<(u32, u32, u32, u32)>)
        ensures
            r == (if old(self).needs_redraw {
                Some((0u32, 0u32, u32::MAX, u32::MAX))
            } else {
                None
            }),
            *final(self) == (PenTool { needs_redraw: false, ..*old(self) }),
    {
        if self.needs_redraw {
            self.needs_redraw = false;
            Some((0, 0, u32::MAX, u32::MAX))
        } else {
            None
        }
    }
}

} // verus!
