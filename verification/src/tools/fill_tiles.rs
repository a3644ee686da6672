use vstd::prelude::*;
use crate::model::layer::{ChunkModel, LayerModel, chunk_has_key, chunk_index, has_chunk};
use crate::tools::fill::{backups_after, chunks_wf_keys, fill_skipped, has_backup, key_of, tile_data, touched};

verus! {

// ------------------------------------------------------------ tiles and their copies
/// With distinct coordinates, the tile holding a key is the one `chunk_index` names.
pub proof fn lemma_key_index(cs: Seq<ChunkModel>, i: int)
    requires
        chunks_wf_keys(cs),
        0 <= i < cs.len(),
    ensures
        has_chunk(cs, cs[i].cx, cs[i].cy),
        chunk_index(cs, cs[i].cx, cs[i].cy) == i,
{
    assert(chunk_has_key(cs[i], cs[i].cx, cs[i].cy));
    let j = chunk_index(cs, cs[i].cx, cs[i].cy);
    if j != i {
        assert(!chunk_has_key(cs[j], cs[i].cx, cs[i].cy));
    }
}

/// Adding a tile under new coordinates keeps the coordinates distinct, adds its
/// key and leaves the other tiles as they were.
pub proof fn lemma_push_tile(b: Seq<ChunkModel>, c: ChunkModel)
    requires
        chunks_wf_keys(b),
        !has_chunk(b, c.cx, c.cy),
    ensures
        chunks_wf_keys(b.push(c)),
        forall|kx: u32, ky: u32|
            #[trigger] has_chunk(b.push(c), kx, ky) == (has_chunk(b, kx, ky) || (kx == c.cx && ky == c.cy)),
        tile_data(b.push(c), c.cx, c.cy) == c.data,
        forall|kx: u32, ky: u32| has_chunk(b, kx, ky) ==> #[trigger] tile_data(b.push(c), kx, ky) == tile_data(b, kx, ky),
{
    let b2 = b.push(c);
    assert forall|p: int, q: int| 0 <= p < b2.len() && 0 <= q < b2.len() && p != q implies !chunk_has_key(
        #[trigger] b2[p],
        #[trigger] b2[q].cx,
        b2[q].cy,
    ) by {
        if p < b.len() && q < b.len() {
            assert(b2[p] == b[p] && b2[q] == b[q]);
        } else if p < b.len() {
            assert(b2[p] == b[p]);
            if chunk_has_key(b2[p], b2[q].cx, b2[q].cy) {
                assert(chunk_has_key(b[p], c.cx, c.cy));
            }
        } else {
            assert(b2[q] == b[q]);
            if chunk_has_key(b2[p], b2[q].cx, b2[q].cy) {
                assert(chunk_has_key(b[q], c.cx, c.cy));
            }
        }
    }
    assert forall|kx: u32, ky: u32| #[trigger] has_chunk(b2, kx, ky) == (has_chunk(b, kx, ky) || (kx == c.cx && ky == c.cy)) by {
        if has_chunk(b, kx, ky) {
            let j = chunk_index(b, kx, ky);
            assert(b2[j] == b[j]);
            assert(chunk_has_key(b2[j], kx, ky));
        }
        if kx == c.cx && ky == c.cy {
            assert(chunk_has_key(b2[b.len() as int], kx, ky));
        }
        if has_chunk(b2, kx, ky) {
            let j = chunk_index(b2, kx, ky);
            if j < b.len() {
                assert(b2[j] == b[j]);
                assert(chunk_has_key(b[j], kx, ky));
            }
        }
    }
    lemma_key_index(b2, b.len() as int);
    assert forall|kx: u32, ky: u32| has_chunk(b, kx, ky) implies #[trigger] tile_data(b2, kx, ky) == tile_data(b, kx, ky) by {
        let j = chunk_index(b, kx, ky);
        lemma_key_index(b, j);
        assert(b2[j] == b[j]);
        lemma_key_index(b2, j);
    }
}

/// Every tile of the list holds a full tile's bytes.
pub open spec fn tiles_full(b: Seq<ChunkModel>) -> bool {
    forall|i: int| 0 <= i < b.len() ==> (#[trigger] b[i]).data.len() == 16384
}

/// The tiles of the layer being filled that were stored before the fill stay
/// stored, and those without a filled pixel keep their pixels.
pub open spec fn tiles_frame(l0: LayerModel, cur: LayerModel, f: Set<(int, int)>) -> bool {
    &&& forall|kx: u32, ky: u32| #[trigger] has_chunk(l0.chunks, kx, ky) ==> has_chunk(cur.chunks, kx, ky)
    &&& forall|kx: u32, ky: u32|
        has_chunk(l0.chunks, kx, ky) && !touched(f, kx, ky) ==> #[trigger] tile_data(cur.chunks, kx, ky)
            == tile_data(l0.chunks, kx, ky)
}

/// What the copies of tiles taken during a fill hold, against the copies `b0`
/// held before and the layer `l0` before the fill, once the pixels of `f` are
/// filled: earlier copies stay; a tile stored before the fill has a copy exactly
/// where it had one before or holds a filled pixel, and a new copy of it holds
/// its pixels from before the fill; a new copy of a tile the fill created lies
/// where a pixel was filled.
pub open spec fn backups_track(l0: LayerModel, b0: Seq<ChunkModel>, f: Set<(int, int)>, b: Seq<ChunkModel>) -> bool {
    &&& forall|kx: u32, ky: u32|
        #[trigger] has_backup(b0, kx, ky) ==> has_backup(b, kx, ky) && tile_data(b, kx, ky) == tile_data(b0, kx, ky)
    &&& forall|kx: u32, ky: u32|
        #[trigger] has_chunk(l0.chunks, kx, ky) ==> (has_backup(b, kx, ky) <==> has_backup(b0, kx, ky) || touched(
            f,
            kx,
            ky,
        ))
    &&& forall|kx: u32, ky: u32|
        has_chunk(l0.chunks, kx, ky) && !has_backup(b0, kx, ky) && #[trigger] has_backup(b, kx, ky) ==> tile_data(b, kx, ky)
            == tile_data(l0.chunks, kx, ky)
    &&& forall|kx: u32, ky: u32|
        !has_chunk(l0.chunks, kx, ky) && #[trigger] has_backup(b, kx, ky) && !has_backup(b0, kx, ky) ==> touched(f, kx, ky)
}

pub proof fn lemma_track_init(l0: LayerModel, b0: Seq<ChunkModel>)
    ensures
        tiles_frame(l0, l0, Set::empty()),
        backups_track(l0, b0, Set::empty(), b0),
{
}

/// Filling one pixel, with the effects `set_pixel_u32` has, keeps both the tile
/// frame and what the copies hold.
pub proof fn lemma_track_step(
    l0: LayerModel,
    b0: Seq<ChunkModel>,
    cur: LayerModel,
    f: Set<(int, int)>,
    b: Seq<ChunkModel>,
    cur2: LayerModel,
    b2: Seq<ChunkModel>,
    x: i32,
    y: i32,
    fill: u32,
)
    requires
        tiles_frame(l0, cur, f),
        backups_track(l0, b0, f, b),
        chunks_wf_keys(b),
        tiles_full(b),
        cur.wf(),
        0 <= x,
        0 <= y,
        fill_skipped(cur, x, y, fill) ==> cur2 == cur && b2 == b,
        !fill_skipped(cur, x, y, fill) ==> b2 == backups_after(b, cur, (x as u32) / 64, (y as u32) / 64),
        !fill_skipped(cur, x, y, fill) ==> forall|kx: u32, ky: u32|
            !(kx == (x as u32) / 64 && ky == (y as u32) / 64) ==> #[trigger] has_chunk(cur2.chunks, kx, ky)
                == has_chunk(cur.chunks, kx, ky),
        !fill_skipped(cur, x, y, fill) ==> forall|kx: u32, ky: u32|
            !(kx == (x as u32) / 64 && ky == (y as u32) / 64) && has_chunk(cur.chunks, kx, ky)
                ==> #[trigger] tile_data(cur2.chunks, kx, ky) == tile_data(cur.chunks, kx, ky),
        !fill_skipped(cur, x, y, fill) ==> has_chunk(cur2.chunks, (x as u32) / 64, (y as u32) / 64),
    ensures
        tiles_frame(l0, cur2, f.insert((x as int, y as int))),
        backups_track(l0, b0, f.insert((x as int, y as int)), b2),
        tiles_full(b2),
{
    let q = (x as int, y as int);
    let f2 = f.insert(q);
    let kx0 = (x as u32) / 64;
    let ky0 = (y as u32) / 64;
    assert(key_of(q) == (kx0, ky0));
    assert(f2.contains(q));
    assert(touched(f2, kx0, ky0));
    assert forall|kx: u32, ky: u32| touched(f, kx, ky) implies #[trigger] touched(f2, kx, ky) by {
        let p = choose|p: (int, int)| #[trigger] f.contains(p) && key_of(p) == (kx, ky);
        assert(f2.contains(p));
    }
    assert forall|kx: u32, ky: u32| !(kx == kx0 && ky == ky0) && #[trigger] touched(f2, kx, ky) implies touched(f, kx, ky) by {
        let p = choose|p: (int, int)| #[trigger] f2.contains(p) && key_of(p) == (kx, ky);
        assert(p != q);
        assert(f.contains(p));
    }
    if fill_skipped(cur, x, y, fill) {
        assert(!has_chunk(l0.chunks, kx0, ky0));
        assert forall|kx: u32, ky: u32|
            has_chunk(l0.chunks, kx, ky) && !touched(f2, kx, ky) implies #[trigger] tile_data(cur2.chunks, kx, ky)
                == tile_data(l0.chunks, kx, ky) by {
            assert(!touched(f, kx, ky));
        }
        assert forall|kx: u32, ky: u32| #[trigger] has_chunk(l0.chunks, kx, ky) implies (has_backup(b2, kx, ky) <==> has_backup(
            b0,
            kx,
            ky,
        ) || touched(f2, kx, ky)) by {
            assert(!(kx == kx0 && ky == ky0));
        }
        assert forall|kx: u32, ky: u32|
            !has_chunk(l0.chunks, kx, ky) && #[trigger] has_backup(b2, kx, ky) && !has_backup(b0, kx, ky) implies touched(
            f2,
            kx,
            ky,
        ) by {
            assert(touched(f, kx, ky));
        }
    } else {
        let had = has_backup(b, kx0, ky0);
        let pushed = !had && has_chunk(cur.chunks, kx0, ky0);
        let c = cur.chunks[chunk_index(cur.chunks, kx0, ky0)];
        if pushed {
            assert(c.data.len() == 16384);
            assert(chunk_has_key(c, kx0, ky0));
            lemma_push_tile(b, c);
            assert(b2 == b.push(c));
        } else {
            assert(b2 == b);
        }
        // every key other than the written one has the same copies as before
        assert forall|kx: u32, ky: u32| !(kx == kx0 && ky == ky0) implies #[trigger] has_backup(b2, kx, ky) == has_backup(
            b,
            kx,
            ky,
        ) && (has_backup(b, kx, ky) ==> tile_data(b2, kx, ky) == tile_data(b, kx, ky)) by {}
        assert(has_chunk(cur.chunks, kx0, ky0) ==> has_backup(b2, kx0, ky0));
        assert(had ==> tile_data(b2, kx0, ky0) == tile_data(b, kx0, ky0));
        assert(pushed ==> tile_data(b2, kx0, ky0) == tile_data(cur.chunks, kx0, ky0));
        // frame of the layer's tiles
        assert forall|kx: u32, ky: u32| #[trigger] has_chunk(l0.chunks, kx, ky) implies has_chunk(cur2.chunks, kx, ky) by {
            assert(has_chunk(cur.chunks, kx, ky));
        }
        assert forall|kx: u32, ky: u32|
            has_chunk(l0.chunks, kx, ky) && !touched(f2, kx, ky) implies #[trigger] tile_data(cur2.chunks, kx, ky)
                == tile_data(l0.chunks, kx, ky) by {
            assert(!(kx == kx0 && ky == ky0));
            assert(!touched(f, kx, ky));
            assert(has_chunk(cur.chunks, kx, ky));
            assert(tile_data(cur.chunks, kx, ky) == tile_data(l0.chunks, kx, ky));
        }
        // the copies
        assert forall|kx: u32, ky: u32| #[trigger] has_backup(b0, kx, ky) implies has_backup(b2, kx, ky) && tile_data(
            b2,
            kx,
            ky,
        ) == tile_data(b0, kx, ky) by {
            assert(has_backup(b, kx, ky));
        }
        assert forall|kx: u32, ky: u32| #[trigger] has_chunk(l0.chunks, kx, ky) implies (has_backup(b2, kx, ky) <==> has_backup(
            b0,
            kx,
            ky,
        ) || touched(f2, kx, ky)) by {
            if !(kx == kx0 && ky == ky0) {
                assert(has_backup(b, kx, ky) <==> has_backup(b0, kx, ky) || touched(f, kx, ky));
            }
        }
        assert forall|kx: u32, ky: u32|
            has_chunk(l0.chunks, kx, ky) && !has_backup(b0, kx, ky) && #[trigger] has_backup(b2, kx, ky) implies tile_data(
            b2,
            kx,
            ky,
        ) == tile_data(l0.chunks, kx, ky) by {
            if kx == kx0 && ky == ky0 {
                assert(has_chunk(cur.chunks, kx, ky));
                if !had {
                    assert(!touched(f, kx, ky));
                    assert(tile_data(cur.chunks, kx, ky) == tile_data(l0.chunks, kx, ky));
                }
            } else {
                assert(has_backup(b, kx, ky));
            }
        }
        assert forall|kx: u32, ky: u32|
            !has_chunk(l0.chunks, kx, ky) && #[trigger] has_backup(b2, kx, ky) && !has_backup(b0, kx, ky) implies touched(
            f2,
            kx,
            ky,
        ) by {
            if !(kx == kx0 && ky == ky0) {
                assert(has_backup(b, kx, ky));
                assert(touched(f, kx, ky));
            }
        }
    }
}

// ------------------------------------------------------------ the bounding box
/// Every pixel of `f` lies inside the box.
pub open spec fn bbox_holds(f: Set<(int, int)>, min_x: i32, max_x: i32, min_y: i32, max_y: i32) -> bool {
    forall|p: (int, int)| #[trigger] f.contains(p) ==> min_x <= p.0 <= max_x && min_y <= p.1 <= max_y
}

/// Each side of the box is where it started (`m0`: left, right, top, bottom) or
/// touches a pixel of `f`, and the box only grew.
pub open spec fn bbox_tight(f: Set<(int, int)>, min_x: i32, max_x: i32, min_y: i32, max_y: i32, m0: (i32, i32, i32, i32)) -> bool {
    &&& min_x <= m0.0 && (min_x == m0.0 || exists|p: (int, int)| #[trigger] f.contains(p) && p.0 == min_x)
    &&& max_x >= m0.1 && (max_x == m0.1 || exists|p: (int, int)| #[trigger] f.contains(p) && p.0 == max_x)
    &&& min_y <= m0.2 && (min_y == m0.2 || exists|p: (int, int)| #[trigger] f.contains(p) && p.1 == min_y)
    &&& max_y >= m0.3 && (max_y == m0.3 || exists|p: (int, int)| #[trigger] f.contains(p) && p.1 == max_y)
}

} // verus!
