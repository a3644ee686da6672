use vstd::prelude::*;
use crate::history::diff::PixelDiff;
use crate::history::patch::{ActionPatch, PatchAction, PixelDiffPatch};
use crate::model::color::{Color, color_at, transparent_color};
use crate::model::error::CoreError;
use crate::model::selection::SelectionModel;
use crate::model::layer::{Chunk, ChunkModel, LayerModel, chunk_has_key, chunk_index, chunks_wf, has_chunk, lemma_chunk_index_unique};
use crate::model::store::{PixelStore, StoreModel, canvas_pixel};
use crate::tools::fill::{
    SafeFillContext,
    backups_view,
    chunks_wf_keys,
    fill_paints_all,
    fill_path,
    fillable,
    flood_fill,
    key_of,
    reach_set,
    reachable,
    has_backup,
    tile_data,
    touched,
};
use crate::tools::fill_tiles::{backups_track, bbox_holds, bbox_tight, tiles_full};
use crate::tools::fill_tiles::lemma_key_index;

verus! {

// ------------------------------------------------------------ tile keys in order
/// Tile coordinates ordered as tuples: by column, then by row.
pub open spec fn lex_lt(p: (u32, u32), q: (u32, u32)) -> bool {
    p.0 < q.0 || (p.0 == q.0 && p.1 < q.1)
}

pub open spec fn strictly_sorted(ks: Seq<(u32, u32)>) -> bool {
    forall|i: int, j: int| 0 <= i < j < ks.len() ==> lex_lt(#[trigger] ks[i], #[trigger] ks[j])
}

/// The coordinates of the stored tiles, each once, in increasing order.
pub open spec fn tile_keys_in_order(cs: Seq<ChunkModel>) -> Seq<(u32, u32)> {
    choose|ks: Seq<(u32, u32)>|
        strictly_sorted(ks) && forall|k: (u32, u32)| #[trigger] ks.contains(k) <==> has_chunk(cs, k.0, k.1)
}

/// Two increasing sequences with the same elements are equal.
proof fn lemma_sorted_unique(a: Seq<(u32, u32)>, b: Seq<(u32, u32)>)
    requires
        strictly_sorted(a),
        strictly_sorted(b),
        forall|k: (u32, u32)| #![trigger a.contains(k)] #![trigger b.contains(k)] a.contains(k) <==> b.contains(k),
    ensures
        a == b,
    decreases a.len(),
{
    if a.len() == 0 {
        if b.len() > 0 {
            assert(b.contains(b[0]));
            assert(a.contains(b[0]));
        }
        assert(a =~= b);
    } else {
        assert(a.contains(a[0]));
        assert(b.contains(a[0]));
        assert(b.contains(b[0]));
        assert(a.contains(b[0]));
        let j = choose|j: int| 0 <= j < b.len() && b[j] == a[0];
        let i = choose|i: int| 0 <= i < a.len() && a[i] == b[0];
        if j > 0 {
            assert(lex_lt(b[0], b[j]));
            if i > 0 {
                assert(lex_lt(a[0], a[i]));
            }
        }
        assert(a[0] == b[0]);
        let a1 = a.drop_first();
        let b1 = b.drop_first();
        assert forall|k: (u32, u32)| #![trigger a1.contains(k)] #![trigger b1.contains(k)] a1.contains(k) <==> b1.contains(k) by {
            if a1.contains(k) {
                let p = choose|p: int| 0 <= p < a1.len() && a1[p] == k;
                assert(a[p + 1] == k);
                assert(lex_lt(a[0], a[p + 1]));
                assert(a.contains(k));
                assert(b.contains(k));
                let q = choose|q: int| 0 <= q < b.len() && b[q] == k;
                assert(q != 0);
                assert(b1[q - 1] == k);
            }
            if b1.contains(k) {
                let p = choose|p: int| 0 <= p < b1.len() && b1[p] == k;
                assert(b[p + 1] == k);
                assert(lex_lt(b[0], b[p + 1]));
                assert(b.contains(k));
                assert(a.contains(k));
                let q = choose|q: int| 0 <= q < a.len() && a[q] == k;
                assert(q != 0);
                assert(a1[q - 1] == k);
            }
        }
        assert forall|x: int, y: int| 0 <= x < y < a1.len() implies lex_lt(#[trigger] a1[x], #[trigger] a1[y]) by {
            assert(a1[x] == a[x + 1] && a1[y] == a[y + 1]);
        }
        assert forall|x: int, y: int| 0 <= x < y < b1.len() implies lex_lt(#[trigger] b1[x], #[trigger] b1[y]) by {
            assert(b1[x] == b[x + 1] && b1[y] == b[y + 1]);
        }
        lemma_sorted_unique(a1, b1);
        assert forall|x: int| 0 <= x < a.len() implies a[x] == b[x] by {
            if x > 0 {
                assert(a[x] == a1[x - 1]);
                assert(b[x] == b1[x - 1]);
            }
        }
        assert(a =~= b);
    }
}

/// An increasing sequence of exactly the stored keys is the ordered key sequence.
proof fn lemma_keys_in_order(cs: Seq<ChunkModel>, ks: Seq<(u32, u32)>)
    requires
        strictly_sorted(ks),
        forall|k: (u32, u32)| #[trigger] ks.contains(k) <==> has_chunk(cs, k.0, k.1),
    ensures
        tile_keys_in_order(cs) == ks,
{
    let o = tile_keys_in_order(cs);
    assert(strictly_sorted(o) && forall|k: (u32, u32)| #[trigger] o.contains(k) <==> has_chunk(cs, k.0, k.1));
    assert forall|k: (u32, u32)| #![trigger o.contains(k)] #![trigger ks.contains(k)] o.contains(k) <==> ks.contains(k) by {
        assert(o.contains(k) <==> has_chunk(cs, k.0, k.1));
        assert(ks.contains(k) <==> has_chunk(cs, k.0, k.1));
    }
    lemma_sorted_unique(o, ks);
}

/// A key comes after `after` (every key does where `after` is `None`).
pub open spec fn comes_after(after: Option<(u32, u32)>, k: (u32, u32)) -> bool {
    match after {
        None => true,
        Some(p) => lex_lt(p, k),
    }
}

/// `r` names the tile with the least key after `after`, or there is none.
pub open spec fn next_tile(cs: Seq<ChunkModel>, after: Option<(u32, u32)>, r: Option<usize>) -> bool {
    match r {
        Some(i) => {
            &&& i < cs.len()
            &&& comes_after(after, (cs[i as int].cx, cs[i as int].cy))
            &&& forall|j: int|
                0 <= j < cs.len() && comes_after(after, (cs[j].cx, cs[j].cy)) ==> !lex_lt(
                    (#[trigger] cs[j].cx, cs[j].cy),
                    (cs[i as int].cx, cs[i as int].cy),
                )
        },
        None => forall|j: int| 0 <= j < cs.len() ==> !comes_after(after, (#[trigger] cs[j].cx, cs[j].cy)),
    }
}

/// The position of the tile with the least key after `after`.
fn next_key(cs: &Vec<Chunk>, after: Option<(u32, u32)>) -> (r: Option<usize>)
    ensures
        next_tile(backups_view(cs@), after, r),
{
    let ghost v = backups_view(cs@);
    let mut best: Option<usize> = None;
    let n = cs.len();
    for i in 0..n
        invariant
            n == cs.len(),
            v == backups_view(cs@),
            match best {
                Some(b) => {
                    &&& b < i
                    &&& comes_after(after, (v[b as int].cx, v[b as int].cy))
                    &&& forall|j: int|
                        0 <= j < i && comes_after(after, (v[j].cx, v[j].cy)) ==> !lex_lt(
                            (#[trigger] v[j].cx, v[j].cy),
                            (v[b as int].cx, v[b as int].cy),
                        )
                },
                None => forall|j: int| 0 <= j < i ==> !comes_after(after, (#[trigger] v[j].cx, v[j].cy)),
            },
    {
        let k = (cs[i].cx, cs[i].cy);
        assert(v[i as int] == cs@[i as int]@);
        let after_ok = match after {
            None => true,
            Some(p) => p.0 < k.0 || (p.0 == k.0 && p.1 < k.1),
        };
        if after_ok {
            match best {
                None => {
                    best = Some(i);
                },
                Some(b) => {
                    assert(v[b as int] == cs@[b as int]@);
                    if k.0 < cs[b].cx || (k.0 == cs[b].cx && k.1 < cs[b].cy) {
                        best = Some(i);
                    }
                },
            }
        }
    }
    best
}

/// The position of the tile at `(cx, cy)` in a list with distinct keys.
fn find_tile(cs: &Vec<Chunk>, cx: u32, cy: u32) -> (r: Option<usize>)
    requires
        chunks_wf_keys(backups_view(cs@)),
    ensures
        match r {
            Some(i) => i < cs.len() && has_chunk(backups_view(cs@), cx, cy) && chunk_index(backups_view(cs@), cx, cy) == i,
            None => !has_chunk(backups_view(cs@), cx, cy),
        },
{
    let ghost v = backups_view(cs@);
    let n = cs.len();
    for i in 0..n
        invariant
            n == cs.len(),
            v == backups_view(cs@),
            chunks_wf_keys(v),
            forall|k: int| 0 <= k < i ==> !chunk_has_key(#[trigger] v[k], cx, cy),
    {
        assert(v[i as int] == cs@[i as int]@);
        if cs[i].cx == cx && cs[i].cy == cy {
            proof {
                lemma_key_index(v, i as int);
            }
            return Some(i);
        }
    }
    None
}

// ------------------------------------------------------------ the recorded changes
/// The change of pixel `i` (row-major) of tile `k`, in layer coordinates.
pub open spec fn tile_pixel_diff(k: (u32, u32), i: int, old_color: Color, new_color: Color) -> PixelDiff {
    PixelDiff {
        x: (k.0 * 64 + i % 64) as u32,
        y: (k.1 * 64 + i / 64) as u32,
        old_color,
        new_color,
    }
}

/// The changes between two versions of tile `k` among its first `n` pixels.
pub open spec fn changed_in_tile(k: (u32, u32), old_data: Seq<u8>, new_data: Seq<u8>, n: int) -> Seq<PixelDiff>
    decreases n,
{
    if n <= 0 {
        Seq::empty()
    } else {
        let prev = changed_in_tile(k, old_data, new_data, n - 1);
        let o = color_at(old_data, 4 * (n - 1));
        let c = color_at(new_data, 4 * (n - 1));
        if o != c {
            prev.push(tile_pixel_diff(k, n - 1, o, c))
        } else {
            prev
        }
    }
}

/// The non-transparent pixels of tile `k` among its first `n`, as changes from
/// transparent.
pub open spec fn added_in_tile(k: (u32, u32), new_data: Seq<u8>, n: int) -> Seq<PixelDiff>
    decreases n,
{
    if n <= 0 {
        Seq::empty()
    } else {
        let prev = added_in_tile(k, new_data, n - 1);
        let c = color_at(new_data, 4 * (n - 1));
        if c != transparent_color() {
            prev.push(tile_pixel_diff(k, n - 1, transparent_color(), c))
        } else {
            prev
        }
    }
}

/// For each of the keys `ks` in turn whose tile the layer stores, the changes
/// from the copy in `b` to the layer's tile.
pub open spec fn changed_tiles(ks: Seq<(u32, u32)>, b: Seq<ChunkModel>, l: Seq<ChunkModel>) -> Seq<PixelDiff>
    decreases ks.len(),
{
    if ks.len() == 0 {
        Seq::empty()
    } else {
        let prev = changed_tiles(ks.drop_last(), b, l);
        let k = ks.last();
        if has_chunk(l, k.0, k.1) {
            prev + changed_in_tile(k, tile_data(b, k.0, k.1), tile_data(l, k.0, k.1), 4096)
        } else {
            prev
        }
    }
}

/// For each of the keys `ks` in turn that has no copy in `b`, the layer tile's
/// non-transparent pixels as changes from transparent.
pub open spec fn added_tiles(ks: Seq<(u32, u32)>, b: Seq<ChunkModel>, l: Seq<ChunkModel>) -> Seq<PixelDiff>
    decreases ks.len(),
{
    if ks.len() == 0 {
        Seq::empty()
    } else {
        let prev = added_tiles(ks.drop_last(), b, l);
        let k = ks.last();
        if !has_chunk(b, k.0, k.1) {
            prev + added_in_tile(k, tile_data(l, k.0, k.1), 4096)
        } else {
            prev
        }
    }
}

/// The changes a fill recorded: first, by increasing key, what changed in each
/// copied tile; then, by increasing key, the pixels of each layer tile without
/// a copy.
pub open spec fn bucket_diffs(b: Seq<ChunkModel>, l: Seq<ChunkModel>) -> Seq<PixelDiff> {
    changed_tiles(tile_keys_in_order(b), b, l) + added_tiles(tile_keys_in_order(l), b, l)
}

/// Tile coordinates small enough that every pixel of the tile has `u32`
/// layer coordinates.
pub open spec fn tiles_addressable(cs: Seq<ChunkModel>) -> bool {
    forall|i: int| 0 <= i < cs.len() ==> (#[trigger] cs[i]).cx < 67108864 && cs[i].cy < 67108864
}

/// Appends the changes between two versions of tile `(cx, cy)`.
pub(crate) fn push_tile_changes(ds: &mut Vec<PixelDiff>, cx: u32, cy: u32, old_data: &Vec<u8>, new_data: &Vec<u8>)
    requires
        old_data@.len() == 16384,
        new_data@.len() == 16384,
        cx < 67108864,
        cy < 67108864,
    ensures
        final(ds)@ == old(ds)@ + changed_in_tile((cx, cy), old_data@, new_data@, 4096),
{
    let base_x = cx * 64;
    let base_y = cy * 64;
    let mut i: u32 = 0;
    while i < 4096
        invariant
            i <= 4096,
            old_data@.len() == 16384,
            new_data@.len() == 16384,
            base_x == cx * 64,
            base_y == cy * 64,
            cx < 67108864,
            cy < 67108864,
            ds@ == old(ds)@ + changed_in_tile((cx, cy), old_data@, new_data@, i as int),
        decreases 4096 - i,
    {
        let idx = (i * 4) as usize;
        let o = Color::new(old_data[idx], old_data[idx + 1], old_data[idx + 2], old_data[idx + 3]);
        let c = Color::new(new_data[idx], new_data[idx + 1], new_data[idx + 2], new_data[idx + 3]);
        if o != c {
            ds.push(PixelDiff { x: base_x + i % 64, y: base_y + i / 64, old_color: o, new_color: c });
        }
        proof {
            assert(color_at(old_data@, 4 * i) == o);
            assert(color_at(new_data@, 4 * i) == c);
        }
        i = i + 1;
    }
}

/// Appends the non-transparent pixels of tile `(cx, cy)` as changes from transparent.
fn push_tile_additions(ds: &mut Vec<PixelDiff>, cx: u32, cy: u32, new_data: &Vec<u8>)
    requires
        new_data@.len() == 16384,
        cx < 67108864,
        cy < 67108864,
    ensures
        final(ds)@ == old(ds)@ + added_in_tile((cx, cy), new_data@, 4096),
{
    let base_x = cx * 64;
    let base_y = cy * 64;
    let mut i: u32 = 0;
    while i < 4096
        invariant
            i <= 4096,
            new_data@.len() == 16384,
            base_x == cx * 64,
            base_y == cy * 64,
            cx < 67108864,
            cy < 67108864,
            ds@ == old(ds)@ + added_in_tile((cx, cy), new_data@, i as int),
        decreases 4096 - i,
    {
        let idx = (i * 4) as usize;
        let c = Color::new(new_data[idx], new_data[idx + 1], new_data[idx + 2], new_data[idx + 3]);
        if c != Color::transparent() {
            ds.push(PixelDiff { x: base_x + i % 64, y: base_y + i / 64, old_color: Color::transparent(), new_color: c });
        }
        proof {
            assert(color_at(new_data@, 4 * i) == c);
        }
        i = i + 1;
    }
}

// ------------------------------------------------------------ walking keys in order
/// How far a walk through the keys of `cs` in increasing order has come: `ks`
/// holds, in order, the keys visited, `prev` the last of them, and every key
/// not after `prev` has been visited.
pub open spec fn keys_progress(cs: Seq<ChunkModel>, ks: Seq<(u32, u32)>, prev: Option<(u32, u32)>) -> bool {
    &&& strictly_sorted(ks)
    &&& forall|j: int| 0 <= j < ks.len() ==> has_chunk(cs, (#[trigger] ks[j]).0, ks[j].1)
    &&& prev == (if ks.len() == 0 { None::<(u32, u32)> } else { Some(ks.last()) })
    &&& forall|i: int|
        0 <= i < cs.len() && !comes_after(prev, (cs[i].cx, cs[i].cy)) ==> ks.contains((#[trigger] cs[i].cx, cs[i].cy))
}

/// A measure that falls as the walk's last key grows.
pub open spec fn key_rank(prev: Option<(u32, u32)>) -> int {
    match prev {
        None => 0x1_0000_0000_0000_0000int,
        Some(k) => 0xFFFF_FFFF_FFFF_FFFFint - (k.0 * 0x1_0000_0000int + k.1),
    }
}

proof fn lemma_rank_falls(p: Option<(u32, u32)>, k: (u32, u32))
    requires
        comes_after(p, k),
    ensures
        0 <= key_rank(Some(k)) < key_rank(p),
{
    assert(k.0 * 0x1_0000_0000int + k.1 <= 0xFFFF_FFFF_FFFF_FFFFint) by (nonlinear_arith)
        requires
            k.0 <= 0xFFFF_FFFFint,
            k.1 <= 0xFFFF_FFFFint,
    ;
    match p {
        None => {},
        Some(q) => {
            if q.0 < k.0 {
                assert(q.0 * 0x1_0000_0000int + q.1 < k.0 * 0x1_0000_0000int + k.1) by (nonlinear_arith)
                    requires
                        q.0 < k.0,
                        q.1 <= 0xFFFF_FFFFint,
                ;
            }
        },
    }
}

proof fn lemma_progress_step(cs: Seq<ChunkModel>, ks: Seq<(u32, u32)>, prev: Option<(u32, u32)>, bi: usize)
    requires
        keys_progress(cs, ks, prev),
        next_tile(cs, prev, Some(bi)),
    ensures
        keys_progress(cs, ks.push((cs[bi as int].cx, cs[bi as int].cy)), Some((cs[bi as int].cx, cs[bi as int].cy))),
        0 <= key_rank(Some((cs[bi as int].cx, cs[bi as int].cy))) < key_rank(prev),
        ks.push((cs[bi as int].cx, cs[bi as int].cy)).drop_last() == ks,
        ks.push((cs[bi as int].cx, cs[bi as int].cy)).last() == (cs[bi as int].cx, cs[bi as int].cy),
{
    let k = (cs[bi as int].cx, cs[bi as int].cy);
    let ks2 = ks.push(k);
    lemma_rank_falls(prev, k);
    assert(ks2.drop_last() =~= ks);
    assert(chunk_has_key(cs[bi as int], k.0, k.1));
    assert forall|i: int, j: int| 0 <= i < j < ks2.len() implies lex_lt(#[trigger] ks2[i], #[trigger] ks2[j]) by {
        if j == ks.len() {
            assert(ks.contains(ks[i]));
            assert(ks[i] == ks.last() || lex_lt(ks[i], ks.last()));
        } else {
            assert(ks2[i] == ks[i] && ks2[j] == ks[j]);
        }
    }
    assert forall|j: int| 0 <= j < ks2.len() implies has_chunk(cs, (#[trigger] ks2[j]).0, ks2[j].1) by {
        if j < ks.len() {
            assert(ks2[j] == ks[j]);
        }
    }
    assert forall|i: int|
        0 <= i < cs.len() && !comes_after(Some(k), (cs[i].cx, cs[i].cy)) implies ks2.contains((#[trigger] cs[i].cx, cs[i].cy)) by {
        let c = (cs[i].cx, cs[i].cy);
        if c == k {
            assert(ks2[ks.len() as int] == k);
        } else if comes_after(prev, c) {
            assert(!lex_lt(c, k));
        } else {
            assert(ks.contains(c));
            let p = choose|p: int| 0 <= p < ks.len() && ks[p] == c;
            assert(ks2[p] == c);
        }
    }
}

proof fn lemma_progress_done(cs: Seq<ChunkModel>, ks: Seq<(u32, u32)>, prev: Option<(u32, u32)>)
    requires
        keys_progress(cs, ks, prev),
        next_tile(cs, prev, None),
    ensures
        tile_keys_in_order(cs) == ks,
{
    assert forall|k: (u32, u32)| #[trigger] ks.contains(k) <==> has_chunk(cs, k.0, k.1) by {
        if ks.contains(k) {
            let j = choose|j: int| 0 <= j < ks.len() && ks[j] == k;
            assert(has_chunk(cs, ks[j].0, ks[j].1));
        }
        if has_chunk(cs, k.0, k.1) {
            let i = chunk_index(cs, k.0, k.1);
            assert(!comes_after(prev, (cs[i].cx, cs[i].cy)));
            assert(ks.contains((cs[i].cx, cs[i].cy)));
        }
    }
    lemma_keys_in_order(cs, ks);
}

// ------------------------------------------------------------ the tool
/// The fill bucket: floods the region of the clicked colour on the active
/// layer with the primary colour and keeps copies of the tiles it changed.
pub struct BucketTool {
    pub backup_chunks: Vec<Chunk>,
    pub active_layer_id: Option<String>,
    pub dirty_rect: Option<(u32, u32, u32, u32)>,
}

/// Every layer's tiles have coordinates whose pixels have `u32` coordinates.
pub open spec fn store_tiles_addressable(s: StoreModel) -> bool {
    forall|i: int| 0 <= i < s.layers.len() ==> tiles_addressable(#[trigger] s.layers[i].chunks)
}

/// The colour under the click on the active layer; transparent where no layer
/// is active or the point lies off it.
pub open spec fn fill_target(s: StoreModel, x: u32, y: u32) -> Color {
    match s.active_layer_id {
        Some(id) => match s.find_layer(id) {
            Some(i) => match canvas_pixel(s.layers[i], x as int, y as int) {
                Some(c) => c,
                None => transparent_color(),
            },
            None => transparent_color(),
        },
        None => transparent_color(),
    }
}

/// The click in the coordinates of layer `l`, as 32-bit signed numbers.
pub open spec fn fill_start(l: LayerModel, x: u32, y: u32) -> (int, int) {
    ((x as i32) - l.props.offset_x, (y as i32) - l.props.offset_y)
}

/// The click lies on layer `l`, its size read as 32-bit signed numbers.
pub open spec fn start_on_layer(l: LayerModel, x: u32, y: u32) -> bool {
    let st = fill_start(l, x, y);
    0 <= st.0 < (l.props.width as i32) && 0 <= st.1 < (l.props.height as i32)
}

/// The coordinate arithmetic of a fill on the active layer stays within 32-bit
/// signed numbers.
pub open spec fn fill_fits(s: StoreModel, x: u32, y: u32) -> bool {
    match s.active_layer_id {
        Some(id) => match s.find_layer(id) {
            Some(i) => {
                let l = s.layers[i];
                let st = fill_start(l, x, y);
                &&& i32::MIN <= st.0 <= i32::MAX
                &&& i32::MIN <= st.1 <= i32::MAX
                &&& start_on_layer(l, x, y) ==> l.props.offset_x + l.props.width <= 0x8000_0000 && l.props.offset_y
                    + l.props.height <= 0x8000_0000
            },
            None => true,
        },
        None => true,
    }
}

/// A fill from canvas point `(x, y)` on the active layer never meets a pixel
/// it cannot paint (see `fill_paints_all`); otherwise it would not end.
pub open spec fn fill_completes(s: StoreModel, x: u32, y: u32) -> bool {
    match s.active_layer_id {
        Some(id) => match s.find_layer(id) {
            Some(i) => {
                let l = s.layers[i];
                start_on_layer(l, x, y) ==> fill_paints_all(
                    l,
                    s.selection,
                    s.selection.is_active,
                    fill_target(s, x, y),
                    fill_start(l, x, y),
                    s.primary_color,
                )
            },
            None => true,
        },
        None => true,
    }
}

/// The area a fill changed, on the canvas, from the box `b` (left, right, top,
/// bottom) of the filled pixels of layer `l`; none where the box is empty.
pub open spec fn fill_rect(b: (i32, i32, i32, i32), l: LayerModel) -> Option<(u32, u32, u32, u32)> {
    if b.0 <= b.1 {
        Some(
            (
                (if b.0 + l.props.offset_x > 0 {
                    b.0 + l.props.offset_x
                } else {
                    0
                }) as u32,
                (if b.2 + l.props.offset_y > 0 {
                    b.2 + l.props.offset_y
                } else {
                    0
                }) as u32,
                (b.1 - b.0 + 1) as u32,
                (b.3 - b.2 + 1) as u32,
            ),
        )
    } else {
        None
    }
}

/// What a click at canvas point `(x, y)` does, from store `s` to tool `t` and
/// store `s2` with result `r`: after forgetting the previous fill, nothing
/// more happens without an active layer, outside the selection, where the
/// colour under the click already is the primary colour, where the active
/// layer is missing or the click lies off it; a locked layer is an error.
/// Otherwise every pixel reachable from the click through pixels of its colour
/// (and, with an active selection, selected ones) takes the primary colour,
/// the tiles touched are copied as they were, and the dirty rectangle bounds
/// the filled pixels.
pub open spec fn fill_outcome(s: StoreModel, x: u32, y: u32, t: BucketTool, s2: StoreModel, r: Result<(), CoreError>) -> bool {
    let unchanged = s2 == s && t.dirty_rect is None && t.backup_chunks@.len() == 0;
    match s.active_layer_id {
        None => r is Ok && unchanged && t.active_layer_id is None,
        Some(id) => (t.active_layer_id matches Some(a) && a@ == id) && if !s.selection.contains(x as int, y as int)
            || fill_target(s, x, y) == s.primary_color {
            r is Ok && unchanged
        } else {
            match s.find_layer(id) {
                None => r is Ok && unchanged,
                Some(i) => {
                    let l = s.layers[i];
                    if l.props.locked {
                        (r matches Err(CoreError::LayerLocked)) && unchanged
                    } else if !start_on_layer(l, x, y) {
                        r is Ok && unchanged
                    } else {
                        let reach = reach_set(
                            l,
                            s.selection,
                            s.selection.is_active,
                            fill_target(s, x, y),
                            fill_start(l, x, y),
                        );
                        &&& r is Ok
                        &&& s2 == (StoreModel { layers: s.layers.update(i, s2.layers[i]), ..s })
                        &&& s2.layers[i].props == l.props
                        &&& forall|px: u32, py: u32| #[trigger]
                            s2.layers[i].pixel(px, py) == if reach.contains((px as int, py as int)) {
                                s.primary_color
                            } else {
                                l.pixel(px, py)
                            }
                        &&& backups_track(l, Seq::empty(), reach, backups_view(t.backup_chunks@))
                        &&& exists|b: (i32, i32, i32, i32)| #[trigger]
                            fill_rect(b, l) == t.dirty_rect && bbox_holds(reach, b.0, b.1, b.2, b.3) && bbox_tight(
                                reach,
                                b.0,
                                b.1,
                                b.2,
                                b.3,
                                (i32::MAX, i32::MIN, i32::MAX, i32::MIN),
                            )
                    }
                },
            }
        },
    }
}

/// Reached pixels lie on the layer.
proof fn lemma_reach_in_bounds(l: LayerModel, sel: SelectionModel, hs: bool, t: Color, st: (int, int), q: (int, int))
    requires
        reachable(l, sel, hs, t, st, q),
    ensures
        l.in_bounds(q.0, q.1),
{
    let p = choose|p: Seq<(int, int)>| #[trigger] fill_path(l, sel, hs, t, p) && p[0] == st && p.last() == q;
    assert(fillable(l, sel, hs, t, p[p.len() - 1]));
}

/// The copies a fill took lie at touched tiles of a layer no wider or taller
/// than `i32::MAX`, so their coordinates are addressable.
proof fn lemma_copies_addressable(l: LayerModel, sel: SelectionModel, hs: bool, t: Color, st: (int, int), b: Seq<ChunkModel>)
    requires
        backups_track(l, Seq::empty(), reach_set(l, sel, hs, t, st), b),
        l.props.width <= i32::MAX,
        l.props.height <= i32::MAX,
    ensures
        tiles_addressable(b),
{
    let reach = reach_set(l, sel, hs, t, st);
    assert forall|i: int| 0 <= i < b.len() implies (#[trigger] b[i]).cx < 67108864 && b[i].cy < 67108864 by {
        assert(chunk_has_key(b[i], b[i].cx, b[i].cy));
        assert(has_chunk(b, b[i].cx, b[i].cy));
        assert(!has_chunk(Seq::<ChunkModel>::empty(), b[i].cx, b[i].cy));
        assert(has_backup(b, b[i].cx, b[i].cy));
        assert(!has_backup(Seq::<ChunkModel>::empty(), b[i].cx, b[i].cy));
        if has_chunk(l.chunks, b[i].cx, b[i].cy) {
        }
        assert(touched(reach, b[i].cx, b[i].cy));
        let q = choose|q: (int, int)| #[trigger] reach.contains(q) && key_of(q) == (b[i].cx, b[i].cy);
        lemma_reach_in_bounds(l, sel, hs, t, st, q);
    }
}

impl BucketTool {
    /// The copies are full tiles with distinct, addressable coordinates.
    pub open spec fn wf(&self) -> bool {
        &&& chunks_wf(backups_view(self.backup_chunks@))
        &&& tiles_addressable(backups_view(self.backup_chunks@))
    }

    pub fn new() -> (t: BucketTool)
        ensures
            t.wf(),
            t.backup_chunks@.len() == 0,
            t.active_layer_id is None,
            t.dirty_rect is None,
    {
        let t = BucketTool { backup_chunks: Vec::new(), active_layer_id: None, dirty_rect: None };
        assert(backups_view(t.backup_chunks@) =~= Seq::<ChunkModel>::empty());
        t
    }

    /// Fills layer `i` of the store from layer pixel `(start_x, start_y)`, whose
    /// colour is `target`, with the primary colour; keeps the copies of the tiles
    /// touched and the dirty rectangle.
    #[verifier::rlimit(30)]
    fn fill_layer(&mut self, store: &mut PixelStore, i: usize, start_x: i32, start_y: i32, target: Color)
        requires
            old(store)@.wf(),
            old(store).selection.width * old(store).selection.height <= u32::MAX,
            i < old(store)@.layers.len(),
            old(store)@.layers[i as int].props.width <= i32::MAX,
            old(store)@.layers[i as int].props.height <= i32::MAX,
            old(store)@.layers[i as int].props.offset_x + old(store)@.layers[i as int].props.width <= 0x8000_0000,
            old(store)@.layers[i as int].props.offset_y + old(store)@.layers[i as int].props.height <= 0x8000_0000,
            0 <= start_x < old(store)@.layers[i as int].props.width,
            0 <= start_y < old(store)@.layers[i as int].props.height,
            target != old(store).primary_color,
            fill_paints_all(
                old(store)@.layers[i as int],
                old(store)@.selection,
                old(store)@.selection.is_active,
                target,
                (start_x as int, start_y as int),
                old(store).primary_color,
            ),
            old(self).backup_chunks@.len() == 0,
            old(self).dirty_rect is None,
        ensures
            final(self).wf(),
            final(store)@.wf(),
            final(self).active_layer_id == old(self).active_layer_id,
            ({
                let s = old(store)@;
                let l = s.layers[i as int];
                let reach = reach_set(l, s.selection, s.selection.is_active, target, (start_x as int, start_y as int));
                let s2 = final(store)@;
                &&& s2 == (StoreModel { layers: s.layers.update(i as int, s2.layers[i as int]), ..s })
                &&& s2.layers[i as int].props == l.props
                &&& forall|px: u32, py: u32| #[trigger]
                    s2.layers[i as int].pixel(px, py) == if reach.contains((px as int, py as int)) {
                        s.primary_color
                    } else {
                        l.pixel(px, py)
                    }
                &&& backups_track(l, Seq::empty(), reach, backups_view(final(self).backup_chunks@))
                &&& exists|b: (i32, i32, i32, i32)| #[trigger]
                    fill_rect(b, l) == final(self).dirty_rect && bbox_holds(reach, b.0, b.1, b.2, b.3) && bbox_tight(
                        reach,
                        b.0,
                        b.1,
                        b.2,
                        b.3,
                        (i32::MAX, i32::MIN, i32::MAX, i32::MIN),
                    )
            }),
    {
        let fill = store.primary_color;
        let offset_x = store.layers[i].offset_x;
        let offset_y = store.layers[i].offset_y;
        assert(store.layers@[i as int]@ == store@.layers[i as int]);
        let ghost s0 = store@;
        let ghost l0 = store@.layers[i as int];
        let layer = store.layers.remove(i);
        let mut ctx = SafeFillContext::new(layer, Vec::new());
        assert(backups_view(ctx.backups@) =~= Seq::<ChunkModel>::empty());
        flood_fill(&mut ctx, &store.selection, start_x, start_y, target, fill);
        let ghost reach = reach_set(l0, s0.selection, s0.selection.is_active, target, (start_x as int, start_y as int));
        let min_x = ctx.min_x;
        let max_x = ctx.max_x;
        let min_y = ctx.min_y;
        let max_y = ctx.max_y;
        store.layers.insert(i, ctx.layer);
        self.backup_chunks = ctx.backups;
        proof {
            assert(store@.layers =~= s0.layers.update(i as int, store@.layers[i as int]));
            assert forall|k: int| 0 <= k < store@.layers.len() implies (#[trigger] store@.layers[k]).wf() by {
                if k != i {
                    assert(store@.layers[k] == s0.layers[k]);
                }
            }
            lemma_copies_addressable(
                l0,
                s0.selection,
                s0.selection.is_active,
                target,
                (start_x as int, start_y as int),
                backups_view(self.backup_chunks@),
            );
        }
        if min_x <= max_x {
            proof {
                let st = (start_x as int, start_y as int);
                if max_x == i32::MIN {
                    let q = choose|q: (int, int)| #[trigger] reach.contains(q) && q.0 == min_x;
                    lemma_reach_in_bounds(l0, s0.selection, s0.selection.is_active, target, st, q);
                } else {
                    let q = choose|q: (int, int)| #[trigger] reach.contains(q) && q.0 == max_x;
                    lemma_reach_in_bounds(l0, s0.selection, s0.selection.is_active, target, st, q);
                    assert(reach.contains(q));
                    let p1 = choose|p: (int, int)| #[trigger] reach.contains(p) && p.0 == min_x;
                    lemma_reach_in_bounds(l0, s0.selection, s0.selection.is_active, target, st, p1);
                    let p2 = choose|p: (int, int)| #[trigger] reach.contains(p) && p.1 == min_y;
                    lemma_reach_in_bounds(l0, s0.selection, s0.selection.is_active, target, st, p2);
                    let p3 = choose|p: (int, int)| #[trigger] reach.contains(p) && p.1 == max_y;
                    lemma_reach_in_bounds(l0, s0.selection, s0.selection.is_active, target, st, p3);
                }
            }
            let rx = min_x + offset_x;
            let ry = min_y + offset_y;
            self.dirty_rect = Some(
                (
                    if rx > 0 {
                        rx as u32
                    } else {
                        0
                    },
                    if ry > 0 {
                        ry as u32
                    } else {
                        0
                    },
                    (max_x - min_x + 1) as u32,
                    (max_y - min_y + 1) as u32,
                ),
            );
        }
        assert(fill_rect((min_x, max_x, min_y, max_y), l0) == self.dirty_rect);
    }

    /// Fills from canvas point `(x, y)` on the active layer; see `fill_outcome`.
    pub fn on_pointer_down(&mut self, x: u32, y: u32, store: &mut PixelStore) -> (r: Result<(), CoreError>)
        requires
            old(store)@.wf(),
            old(store).selection.width * old(store).selection.height <= u32::MAX,
            fill_fits(old(store)@, x, y),
            fill_completes(old(store)@, x, y),
        ensures
            final(self).wf(),
            final(store)@.wf(),
            fill_outcome(old(store)@, x, y, *final(self), final(store)@, r),
    {
        self.backup_chunks = Vec::new();
        self.active_layer_id = None;
        self.dirty_rect = None;
        assert(backups_view(self.backup_chunks@) =~= Seq::<ChunkModel>::empty());
        let layer_id = match &store.active_layer_id {
            Some(id) => id.clone(),
            None => {
                return Ok(());
            },
        };
        self.active_layer_id = Some(layer_id.clone());
        if !store.selection.contains(x, y) {
            return Ok(());
        }
        let target = match store.get_pixel(layer_id.as_str(), x, y) {
            Some(c) => c,
            None => Color::transparent(),
        };
        if target == store.primary_color {
            return Ok(());
        }
        let i = match store.find_layer(layer_id.as_str()) {
            Some(i) => i,
            None => {
                return Ok(());
            },
        };
        assert(store.layers@[i as int]@ == store@.layers[i as int]);
        if store.layers[i].locked {
            return Err(CoreError::LayerLocked);
        }
        let width = store.layers[i].width as i32;
        let height = store.layers[i].height as i32;
        let start_x = x as i32 - store.layers[i].offset_x;
        let start_y = y as i32 - store.layers[i].offset_y;
        if start_x < 0 || start_x >= width || start_y < 0 || start_y >= height {
            return Ok(());
        }
        proof {
            let w = store.layers[i as int].width;
            let h = store.layers[i as int].height;
            assert(w as i32 > 0 ==> w <= 0x7fff_ffff) by (bit_vector);
            assert(h as i32 > 0 ==> h <= 0x7fff_ffff) by (bit_vector);
            assert(w as i32 > 0 ==> (w as i32) as int == w as int) by (bit_vector);
            assert(h as i32 > 0 ==> (h as i32) as int == h as int) by (bit_vector);
        }
        self.fill_layer(store, i, start_x, start_y, target);
        Ok(())
    }

    /// Ends the fill: turns what changed in the copied tiles, and the pixels of
    /// tiles the fill created, into a pixel-change patch (named `patch_id`) on
    /// the filled layer, and drops the copies. No patch where nothing changed,
    /// where no fill happened, or where the layer no longer exists (the copies
    /// are then kept).
    pub fn on_pointer_up(&mut self, store: &PixelStore, patch_id: String) -> (r: Result<
        Option<ActionPatch>,
        CoreError,
    >)
        requires
            old(self).wf(),
            store@.wf(),
            store_tiles_addressable(store@),
        ensures
            final(self).wf(),
            r is Ok,
            final(self).active_layer_id is None,
            final(self).dirty_rect == old(self).dirty_rect,
            match old(self).active_layer_id {
                None => r == Ok::<Option<ActionPatch>, CoreError>(None) && final(self).backup_chunks@
                    == old(self).backup_chunks@,
                Some(id) => if old(self).backup_chunks@.len() == 0 {
                    r == Ok::<Option<ActionPatch>, CoreError>(None) && final(self).backup_chunks@
                        == old(self).backup_chunks@
                } else {
                    match store@.find_layer(id@) {
                        None => r == Ok::<Option<ActionPatch>, CoreError>(None) && final(self).backup_chunks@
                            == old(self).backup_chunks@,
                        Some(i) => {
                            let ds = bucket_diffs(backups_view(old(self).backup_chunks@), store@.layers[i].chunks);
                            &&& final(self).backup_chunks@.len() == 0
                            &&& ds.len() == 0 ==> r == Ok::<Option<ActionPatch>, CoreError>(None)
                            &&& ds.len() > 0 ==> (r matches Ok(Some(p)) && p.id == patch_id && p.layer_id@ == id@
                                && (p.action matches PatchAction::PixelDiff(d) && d.diffs@ == ds))
                        },
                    }
                },
            },
    {
        let layer_id = match &self.active_layer_id {
            Some(id) => id.clone(),
            None => {
                return Ok(None);
            },
        };
        self.active_layer_id = None;
        if self.backup_chunks.len() == 0 {
            return Ok(None);
        }
        let li = match store.find_layer(layer_id.as_str()) {
            Some(i) => i,
            None => {
                return Ok(None);
            },
        };
        let layer = &store.layers[li];
        assert(layer@ == store@.layers[li as int]);
        let ghost bv = backups_view(self.backup_chunks@);
        let ghost lv = layer@.chunks;
        assert(backups_view(layer.chunks@) =~= lv);
        assert(tiles_addressable(lv));
        let mut diffs: Vec<PixelDiff> = Vec::new();
        // what changed in the copied tiles, by increasing key
        let mut prev: Option<(u32, u32)> = None;
        let ghost mut ks: Seq<(u32, u32)> = Seq::empty();
        let mut cur = next_key(&self.backup_chunks, None);
        while cur.is_some()
            invariant
                bv == backups_view(self.backup_chunks@),
                chunks_wf(bv),
                tiles_addressable(bv),
                lv == backups_view(layer.chunks@),
                chunks_wf(lv),
                next_tile(bv, prev, cur),
                keys_progress(bv, ks, prev),
                diffs@ == changed_tiles(ks, bv, lv),
            decreases key_rank(prev),
        {
            let bi = cur.unwrap();
            let cx = self.backup_chunks[bi].cx;
            let cy = self.backup_chunks[bi].cy;
            assert(bv[bi as int] == self.backup_chunks@[bi as int]@);
            proof {
                lemma_chunk_index_unique(bv, bi as int);
                lemma_progress_step(bv, ks, prev, bi);
            }
            match find_tile(&layer.chunks, cx, cy) {
                Some(j) => {
                    assert(lv[j as int] == layer.chunks@[j as int]@);
                    push_tile_changes(&mut diffs, cx, cy, &self.backup_chunks[bi].data, &layer.chunks[j].data);
                },
                None => {},
            }
            proof {
                ks = ks.push((cx, cy));
            }
            prev = Some((cx, cy));
            cur = next_key(&self.backup_chunks, prev);
        }
        proof {
            lemma_progress_done(bv, ks, prev);
        }
        let ghost d1 = diffs@;
        // the pixels of the layer's tiles without a copy, by increasing key
        let mut prev: Option<(u32, u32)> = None;
        let ghost mut ks: Seq<(u32, u32)> = Seq::empty();
        let mut cur = next_key(&layer.chunks, None);
        while cur.is_some()
            invariant
                bv == backups_view(self.backup_chunks@),
                chunks_wf(bv),
                lv == backups_view(layer.chunks@),
                chunks_wf(lv),
                tiles_addressable(lv),
                next_tile(lv, prev, cur),
                keys_progress(lv, ks, prev),
                diffs@ == d1 + added_tiles(ks, bv, lv),
            decreases key_rank(prev),
        {
            let lj = cur.unwrap();
            let cx = layer.chunks[lj].cx;
            let cy = layer.chunks[lj].cy;
            assert(lv[lj as int] == layer.chunks@[lj as int]@);
            proof {
                lemma_chunk_index_unique(lv, lj as int);
                lemma_progress_step(lv, ks, prev, lj);
            }
            let ghost before = diffs@;
            match find_tile(&self.backup_chunks, cx, cy) {
                None => {
                    push_tile_additions(&mut diffs, cx, cy, &layer.chunks[lj].data);
                },
                Some(_) => {},
            }
            proof {
                let k2 = ks.push((cx, cy));
                assert(d1 + added_tiles(k2, bv, lv) =~= diffs@) by {
                    if !has_chunk(bv, cx, cy) {
                        assert(added_tiles(k2, bv, lv) == added_tiles(ks, bv, lv) + added_in_tile((cx, cy), tile_data(lv, cx, cy), 4096));
                    }
                }
                ks = k2;
            }
            prev = Some((cx, cy));
            cur = next_key(&layer.chunks, prev);
        }
        proof {
            lemma_progress_done(lv, ks, prev);
        }
        self.backup_chunks.clear();
        assert(backups_view(self.backup_chunks@) =~= Seq::<ChunkModel>::empty());
        if diffs.len() == 0 {
            return Ok(None);
        }
        Ok(Some(ActionPatch { id: patch_id, layer_id, action: PatchAction::PixelDiff(PixelDiffPatch { diffs }) }))
    }

    /// Finishing the tool ends the fill.
    pub fn on_commit(&mut self, store: &PixelStore, patch_id: String) -> (r: Result<
        Option<ActionPatch>,
        CoreError,
    >)
        requires
            old(self).wf(),
            store@.wf(),
            store_tiles_addressable(store@),
        ensures
            final(self).wf(),
            r is Ok,
            final(self).active_layer_id is None,
            final(self).dirty_rect == old(self).dirty_rect,
            match old(self).active_layer_id {
                None => r == Ok::<Option<ActionPatch>, CoreError>(None) && final(self).backup_chunks@
                    == old(self).backup_chunks@,
                Some(id) => if old(self).backup_chunks@.len() == 0 {
                    r == Ok::<Option<ActionPatch>, CoreError>(None) && final(self).backup_chunks@
                        == old(self).backup_chunks@
                } else {
                    match store@.find_layer(id@) {
                        None => r == Ok::<Option<ActionPatch>, CoreError>(None) && final(self).backup_chunks@
                            == old(self).backup_chunks@,
                        Some(i) => {
                            let ds = bucket_diffs(backups_view(old(self).backup_chunks@), store@.layers[i].chunks);
                            &&& final(self).backup_chunks@.len() == 0
                            &&& ds.len() == 0 ==> r == Ok::<Option<ActionPatch>, CoreError>(None)
                            &&& ds.len() > 0 ==> (r matches Ok(Some(p)) && p.id == patch_id && p.layer_id@ == id@
                                && (p.action matches PatchAction::PixelDiff(d) && d.diffs@ == ds))
                        },
                    }
                },
            },
    {
        self.on_pointer_up(store, patch_id)
    }

    /// Dropping the tool forgets the copies; the layer keeps the fill.
    pub fn on_cancel(&mut self)
        ensures
            final(self).wf(),
            final(self).backup_chunks@.len() == 0,
            final(self).active_layer_id == old(self).active_layer_id,
            final(self).dirty_rect == old(self).dirty_rect,
    {
        self.backup_chunks.clear();
        assert(backups_view(self.backup_chunks@) =~= Seq::<ChunkModel>::empty());
    }

    /// Hands out the area the last fill changed, once.
    pub fn take_dirty_rect(&mut self) -> (r: Option<(u32, u32, u32, u32)>)
        ensures
            r == old(self).dirty_rect,
            final(self).dirty_rect is None,
            final(self).backup_chunks@ == old(self).backup_chunks@,
            final(self).active_layer_id == old(self).active_layer_id,
    {
        let r = self.dirty_rect;
        self.dirty_rect = None;
        r
    }
}

} // verus!
