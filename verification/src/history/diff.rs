use vstd::prelude::*;
use crate::model::color::{Color, color_at, transparent_color};
use crate::model::layer::{
    CHUNK_BYTES,
    ChunkModel,
    Layer,
    LayerModel,
    chunk_index,
    has_chunk,
    pixel_offset,
    write_color_bytes,
};
use crate::model::store::AbsLayer;

verus! {

/// One recorded pixel change, in layer coordinates.
#[derive(Clone, Copy, Debug, PartialEq, Eq, Structural)]
pub struct PixelDiff {
    pub x: u32,
    pub y: u32,
    pub old_color: Color,
    pub new_color: Color,
}

/// The change lands on pixel `(x, y)` of a `w` by `h` layer.
pub open spec fn diff_hits(d: PixelDiff, x: u32, y: u32, w: u32, h: u32) -> bool {
    d.x == x && d.y == y && x < w && y < h
}

/// The new colour of the last of the first `n` changes that lands on `(x, y)`.
pub open spec fn last_hit(ds: Seq<PixelDiff>, n: int, x: u32, y: u32, w: u32, h: u32) -> Option<
    Color,
>
    decreases n,
{
    if n <= 0 {
        None
    } else if diff_hits(ds[n - 1], x, y, w, h) {
        Some(ds[n - 1].new_color)
    } else {
        last_hit(ds, n - 1, x, y, w, h)
    }
}

/// The old colour of the first change from position `i` on that lands on `(x, y)`.
pub open spec fn first_hit(ds: Seq<PixelDiff>, i: int, x: u32, y: u32, w: u32, h: u32) -> Option<
    Color,
>
    decreases ds.len() - i,
{
    if i < 0 || i >= ds.len() {
        None
    } else if diff_hits(ds[i], x, y, w, h) {
        Some(ds[i].old_color)
    } else {
        first_hit(ds, i + 1, x, y, w, h)
    }
}

/// The image after applying `ds`: forwards, every touched pixel takes the new
/// colour of its last change; backwards, the old colour of its first change.
pub open spec fn diff_image(l: AbsLayer, ds: Seq<PixelDiff>, forward: bool) -> spec_fn(
    u32,
    u32,
) -> Color {
    |x: u32, y: u32|
        {
            let hit = if forward {
                last_hit(ds, ds.len() as int, x, y, l.props.width, l.props.height)
            } else {
                first_hit(ds, 0, x, y, l.props.width, l.props.height)
            };
            match hit {
                Some(c) => c,
                None => (l.image)(x, y),
            }
        }
}

/// The image after copying the `w` by `h` block of RGBA bytes `data` to `(x0, y0)`;
/// pixels of the block that fall off the layer are dropped.
pub open spec fn region_image(
    l: AbsLayer,
    x0: u32,
    y0: u32,
    w: u32,
    h: u32,
    data: Seq<u8>,
) -> spec_fn(u32, u32) -> Color {
    |x: u32, y: u32|
        if x0 <= x < x0 + w && y0 <= y < y0 + h && x < l.props.width && y < l.props.height {
            color_at(data, ((y - y0) * w + (x - x0)) * 4)
        } else {
            (l.image)(x, y)
        }
}

/// The layer, tiles included, after setting pixel `(x, y)` to `c`: the pixel's
/// tile is rewritten where it is stored; otherwise a tile is added for it,
/// except for a transparent colour; nothing changes off the layer.
pub open spec fn set_layer_pixel(l: LayerModel, x: u32, y: u32, c: Color) -> LayerModel {
    if !l.in_bounds(x as int, y as int) {
        l
    } else if has_chunk(l.chunks, x / 64, y / 64) {
        let i = chunk_index(l.chunks, x / 64, y / 64);
        LayerModel {
            chunks: l.chunks.update(
                i,
                ChunkModel { cx: x / 64, cy: y / 64, data: write_color_bytes(l.chunks[i].data, pixel_offset(x, y), c) },
            ),
            ..l
        }
    } else if c == transparent_color() {
        l
    } else {
        LayerModel {
            chunks: l.chunks.push(
                ChunkModel {
                    cx: x / 64,
                    cy: y / 64,
                    data: write_color_bytes(Seq::new(CHUNK_BYTES as nat, |k: int| 0u8), pixel_offset(x, y), c),
                },
            ),
            ..l
        }
    }
}

/// The layer, tiles included, after applying `ds`: forwards each change's new
/// colour first to last, backwards each change's old colour last to first.
pub open spec fn diffs_layer(l: LayerModel, ds: Seq<PixelDiff>, forward: bool) -> LayerModel
    decreases ds.len(),
{
    if ds.len() == 0 {
        l
    } else if forward {
        let d = ds.last();
        set_layer_pixel(diffs_layer(l, ds.drop_last(), true), d.x, d.y, d.new_color)
    } else {
        let d = ds[0];
        set_layer_pixel(diffs_layer(l, ds.drop_first(), false), d.x, d.y, d.old_color)
    }
}

/// The layer after copying the first `n` pixels of row `row` of the `w`-wide
/// block `data` to `(x0, y0 + row)` onwards, left to right.
pub open spec fn region_row(l: LayerModel, x0: u32, y0: u32, w: u32, data: Seq<u8>, row: int, n: int) -> LayerModel
    decreases n,
{
    if n <= 0 {
        l
    } else {
        set_layer_pixel(
            region_row(l, x0, y0, w, data, row, n - 1),
            (x0 + n - 1) as u32,
            (y0 + row) as u32,
            color_at(data, (row * w + n - 1) * 4),
        )
    }
}

/// The layer, tiles included, after copying the first `m` rows of the `w`-wide
/// block `data` to `(x0, y0)`, top to bottom.
pub open spec fn region_rows(l: LayerModel, x0: u32, y0: u32, w: u32, data: Seq<u8>, m: int) -> LayerModel
    decreases m,
{
    if m <= 0 {
        l
    } else {
        region_row(region_rows(l, x0, y0, w, data, m - 1), x0, y0, w, data, m - 1, w as int)
    }
}

/// Applies recorded changes to a layer: forwards in order with the new colours,
/// backwards in reverse order with the old colours. Changes off the layer are skipped.
pub fn apply_diffs(layer: &mut Layer, ds: &Vec<PixelDiff>, forward: bool)
    requires
        old(layer)@.wf(),
    ensures
        final(layer)@.wf(),
        final(layer)@.abs() == (AbsLayer {
            props: old(layer)@.props,
            image: diff_image(old(layer)@.abs(), ds@, forward),
        }),
        final(layer)@ == diffs_layer(old(layer)@, ds@, forward),
{
    let ghost orig = layer@;
    let n = ds.len();
    let ghost w = orig.props.width;
    let ghost h = orig.props.height;
    if forward {
        for k in 0..n
            invariant
                n == ds.len(),
                layer@.wf(),
                layer@.props == orig.props,
                w == orig.props.width,
                h == orig.props.height,
                forall|x: u32, y: u32| #[trigger]
                    layer@.pixel(x, y) == match last_hit(ds@, k as int, x, y, w, h) {
                        Some(c) => c,
                        None => orig.pixel(x, y),
                    },
                layer@ == diffs_layer(orig, ds@.take(k as int), true),
        {
            let d = ds[k];
            let ghost prev = layer@;
            let _ = layer.set_pixel(d.x, d.y, d.new_color);
            proof {
                assert(ds@.take(k + 1).drop_last() =~= ds@.take(k as int));
                assert(ds@.take(k + 1).last() == d);
                assert(layer@ == set_layer_pixel(prev, d.x, d.y, d.new_color));
            }
        }
        assert(ds@.take(n as int) =~= ds@);
    } else {
        let mut k = n;
        while k > 0
            invariant
                n == ds.len(),
                k <= n,
                layer@.wf(),
                layer@.props == orig.props,
                w == orig.props.width,
                h == orig.props.height,
                forall|x: u32, y: u32| #[trigger]
                    layer@.pixel(x, y) == match first_hit(ds@, k as int, x, y, w, h) {
                        Some(c) => c,
                        None => orig.pixel(x, y),
                    },
                layer@ == diffs_layer(orig, ds@.subrange(k as int, n as int), false),
            decreases k,
        {
            k = k - 1;
            let d = ds[k];
            let ghost prev = layer@;
            let _ = layer.set_pixel(d.x, d.y, d.old_color);
            proof {
                assert(ds@.subrange(k as int, n as int).drop_first() =~= ds@.subrange(k + 1, n as int));
                assert(ds@.subrange(k as int, n as int)[0] == d);
                assert(layer@ == set_layer_pixel(prev, d.x, d.y, d.old_color));
            }
        }
        assert(ds@.subrange(0, n as int) =~= ds@);
    }
    assert(layer@.abs().image =~= diff_image(orig.abs(), ds@, forward));
}

/// Copies the `w` by `h` block of RGBA bytes `data` into the layer at `(x0, y0)`.
pub fn apply_region(layer: &mut Layer, x0: u32, y0: u32, w: u32, h: u32, data: &Vec<u8>)
    requires
        old(layer)@.wf(),
        w as int * h as int * 4 <= data@.len(),
        h > 0 ==> x0 as int + w as int <= u32::MAX as int + 1,
        w > 0 ==> y0 as int + h as int <= u32::MAX as int + 1,
    ensures
        final(layer)@.wf(),
        final(layer)@.abs() == (AbsLayer {
            props: old(layer)@.props,
            image: region_image(old(layer)@.abs(), x0, y0, w, h, data@),
        }),
        final(layer)@ == region_rows(old(layer)@, x0, y0, w, data@, h as int),
{
    let ghost orig = layer@;
    let ghost lw = orig.props.width;
    let ghost lh = orig.props.height;
    let dlen = data.len();
    for row in 0..h
        invariant
            layer@.wf(),
            layer@.props == orig.props,
            lw == orig.props.width,
            lh == orig.props.height,
            dlen == data@.len(),
            w as int * h as int * 4 <= data@.len(),
            h > 0 ==> x0 as int + w as int <= u32::MAX as int + 1,
            w > 0 ==> y0 as int + h as int <= u32::MAX as int + 1,
            forall|x: u32, y: u32| #[trigger]
                layer@.pixel(x, y) == if x0 <= x < x0 + w && y0 <= y < y0 + row && x < lw && y < lh {
                    color_at(data@, ((y - y0) * w + (x - x0)) * 4)
                } else {
                    orig.pixel(x, y)
                },
            layer@ == region_rows(orig, x0, y0, w, data@, row as int),
    {
        let ghost base = layer@;
        for col in 0..w
            invariant
                base == region_rows(orig, x0, y0, w, data@, row as int),
                layer@ == region_row(base, x0, y0, w, data@, row as int, col as int),
                layer@.wf(),
                layer@.props == orig.props,
                lw == orig.props.width,
                lh == orig.props.height,
                row < h,
                dlen == data@.len(),
                w as int * h as int * 4 <= data@.len(),
                h > 0 ==> x0 as int + w as int <= u32::MAX as int + 1,
                w > 0 ==> y0 as int + h as int <= u32::MAX as int + 1,
                forall|x: u32, y: u32| #[trigger]
                    layer@.pixel(x, y) == if x0 <= x < x0 + w && y0 <= y < y0 + row && x < lw && y < lh {
                        color_at(data@, ((y - y0) * w + (x - x0)) * 4)
                    } else if x0 <= x < x0 + col && y == y0 + row && x < lw && y < lh {
                        color_at(data@, ((y - y0) * w + (x - x0)) * 4)
                    } else {
                        orig.pixel(x, y)
                    },
        {
            proof {
                assert(row as int * w as int + col as int + 1 <= w as int * h as int) by (nonlinear_arith)
                    requires
                        row < h,
                        col < w,
                ;
                assert((row as int * w as int + col as int) * 4 + 4 <= data@.len());
            }
            let idx = ((row as usize) * (w as usize) + (col as usize)) * 4;
            let c = Color::new(data[idx], data[idx + 1], data[idx + 2], data[idx + 3]);
            let ghost prev = layer@;
            let _ = layer.set_pixel(x0 + col, y0 + row, c);
            proof {
                assert(c == color_at(data@, (row * w + col) * 4));
                assert(layer@ == set_layer_pixel(prev, (x0 + col) as u32, (y0 + row) as u32, c));
                assert(layer@ == region_row(base, x0, y0, w, data@, row as int, col + 1));
            }
        }
        assert(layer@ == region_rows(orig, x0, y0, w, data@, row + 1));
    }
    assert(layer@.abs().image =~= region_image(orig.abs(), x0, y0, w, h, data@));
}

} // verus!
