use vstd::prelude::*;
use vstd::wrapping::u32_specs::{wrapping_add, wrapping_mul};
use crate::model::store::BrushShape;

verus! {

/// One step of the brush's jitter generator: `s * 1664525 + 1013904223`,
/// wrapping at 2^32.
pub open spec fn lcg(s: u32) -> u32 {
    wrapping_add(wrapping_mul(s, 1664525), 1013904223)
}

/// The generator state after `n` steps from `s`.
pub open spec fn lcg_iter(s: u32, n: nat) -> u32
    decreases n,
{
    if n == 0 {
        s
    } else {
        lcg(lcg_iter(s, (n - 1) as nat))
    }
}

/// The jitter a generator state gives: its upper half taken modulo
/// `2 * jitter + 1`, shifted to lie in `-jitter..=jitter`.
pub open spec fn jitter_from(s: u32, jitter: u32) -> int {
    ((s >> 16u32) % ((2 * jitter + 1) as u32)) as int - jitter
}

/// Whether cell `(i, j)` of a `size` by `size` brush is painted: every cell of a
/// square brush or of a brush of size 1 or 2, and for a round brush the cells
/// whose centres lie within the circle inscribed in the square.
pub open spec fn in_brush(size: int, shape: BrushShape, i: int, j: int) -> bool {
    let off = size / 2;
    !(shape == BrushShape::Circle && size > 2) || (2 * (i - off) + 1) * (2 * (i - off) + 1) + (2 * (j
        - off) + 1) * (2 * (j - off) + 1) <= size * size
}

/// The cells of the brush square, column by column.
pub open spec fn brush_grid(size: int) -> Seq<(int, int)> {
    Seq::new((size * size) as nat, |k: int| (k / size, k % size))
}

pub open spec fn brush_pred(size: int, shape: BrushShape) -> spec_fn((int, int)) -> bool {
    |c: (int, int)| in_brush(size, shape, c.0, c.1)
}

/// The painted cells of the brush, in drawing order.
pub open spec fn brush_cells(size: int, shape: BrushShape) -> Seq<(int, int)> {
    brush_grid(size).filter(brush_pred(size, shape))
}

/// The offset from the brush centre of cell `c`, the `k`-th painted cell.
pub open spec fn cell_offset(c: (int, int), k: int, size: int, jitter: u32, rng: u32) -> (int, int) {
    let off = size / 2;
    if jitter > 0 {
        (
            c.0 - off + jitter_from(lcg_iter(rng, (2 * k + 1) as nat), jitter),
            c.1 - off + jitter_from(lcg_iter(rng, (2 * k + 2) as nat), jitter),
        )
    } else {
        (c.0 - off, c.1 - off)
    }
}

/// The offsets from the brush centre of the given cells; with jitter, cell `k`
/// moves by the jitter of generator steps `2k + 1` (horizontally) and `2k + 2`
/// (vertically).
pub open spec fn cell_offsets(
    cells: Seq<(int, int)>,
    size: int,
    jitter: u32,
    rng: u32,
) -> Seq<(int, int)> {
    Seq::new(cells.len(), |k: int| cell_offset(cells[k], k, size, jitter, rng))
}

/// The offsets a brush paints at, relative to its centre.
pub open spec fn brush_offsets_spec(size: int, shape: BrushShape, jitter: u32, rng: u32) -> Seq<
    (int, int),
> {
    cell_offsets(brush_cells(size, shape), size, jitter, rng)
}

/// The generator state after the brush offsets were drawn.
pub open spec fn rng_after(size: int, shape: BrushShape, jitter: u32, rng: u32) -> u32 {
    if jitter > 0 {
        lcg_iter(rng, (2 * brush_cells(size, shape).len()) as nat)
    } else {
        rng
    }
}

fn lcg_step(s: u32) -> (r: u32)
    ensures
        r == lcg(s),
{
    s.wrapping_mul(1664525).wrapping_add(1013904223)
}

/// Advances the generator one step and returns the jitter of the new state.
fn jitter_step(rng: &mut u32, jitter: u32) -> (d: i32)
    requires
        1 <= jitter,
        2 * jitter + 1 <= i32::MAX,
    ensures
        *final(rng) == lcg(*old(rng)),
        d == jitter_from(lcg(*old(rng)), jitter),
{
    *rng = lcg_step(*rng);
    let bound = jitter * 2 + 1;
    ((*rng >> 16) % bound) as i32 - jitter as i32
}

proof fn lemma_filter_step(s: Seq<(int, int)>, k: int, pred: spec_fn((int, int)) -> bool)
    requires
        0 <= k < s.len(),
    ensures
        s.take(k + 1).filter(pred) == if pred(s[k]) {
            s.take(k).filter(pred).push(s[k])
        } else {
            s.take(k).filter(pred)
        },
{
    assert(s.take(k + 1) =~= s.take(k).push(s[k]));
    s.take(k).lemma_filter_push(s[k], pred);
}

fn cell_in_brush(size: u32, shape: BrushShape, i: u32, j: u32) -> (b: bool)
    requires
        size <= 46340,
        i < size,
        j < size,
    ensures
        b == in_brush(size as int, shape, i as int, j as int),
{
    if shape == BrushShape::Circle && size > 2 {
        let off = (size / 2) as i64;
        let dx = 2 * (i as i64 - off) + 1;
        let dy = 2 * (j as i64 - off) + 1;
        proof {
            assert(dx * dx <= 46341 * 46341) by (nonlinear_arith)
                requires
                    -46341 <= dx <= 46341,
            ;
            assert(dy * dy <= 46341 * 46341) by (nonlinear_arith)
                requires
                    -46341 <= dy <= 46341,
            ;
            assert(dx * dx >= 0) by (nonlinear_arith);
            assert(dy * dy >= 0) by (nonlinear_arith);
            assert(size * size <= 46340 * 46340) by (nonlinear_arith)
                requires
                    size <= 46340,
            ;
        }
        dx * dx + dy * dy <= (size as i64) * (size as i64)
    } else {
        true
    }
}

proof fn lemma_grid_cell(size: int, i: int, j: int)
    requires
        0 <= i < size,
        0 <= j < size,
    ensures
        0 <= i * size + j < size * size,
        brush_grid(size)[i * size + j] == (i, j),
{
    assert(0 <= i * size + j < size * size) by (nonlinear_arith)
        requires
            0 <= i < size,
            0 <= j < size,
    ;
    vstd::arithmetic::div_mod::lemma_fundamental_div_mod_converse(i * size + j, size, i, j);
}

/// The offsets, relative to the brush centre, that a brush of the given size,
/// shape and jitter paints at, drawing the jitter from `rng`.
pub fn brush_offsets(size: u32, shape: BrushShape, jitter: u32, rng: &mut u32) -> (rel: Vec<
    (i32, i32),
>)
    requires
        size <= 46340,
        size + 2 * jitter <= i32::MAX,
    ensures
        rel@.len() == brush_offsets_spec(size as int, shape, jitter, *old(rng)).len(),
        forall|k: int|
            0 <= k < rel@.len() ==> (rel@[k].0 as int, rel@[k].1 as int) == #[trigger] brush_offsets_spec(
                size as int,
                shape,
                jitter,
                *old(rng),
            )[k],
        *final(rng) == rng_after(size as int, shape, jitter, *old(rng)),
{
    let ghost rng0 = *rng;
    let ghost sz = size as int;
    let ghost pred = brush_pred(sz, shape);
    let ghost grid = brush_grid(sz);
    let ghost mut cells: Seq<(int, int)> = Seq::empty();
    let offset = (size / 2) as i32;
    let mut rel: Vec<(i32, i32)> = Vec::new();
    proof {
        assert(0 * sz == 0);
        assert(grid.take(0) =~= Seq::<(int, int)>::empty());
        reveal(Seq::filter);
        assert(grid.take(0).filter(pred) =~= Seq::<(int, int)>::empty());
    }
    for i in 0..size
        invariant
            size <= 46340,
            size + 2 * jitter <= i32::MAX,
            sz == size,
            offset == sz / 2,
            grid == brush_grid(sz),
            pred == brush_pred(sz, shape),
            cells == grid.take(i * sz).filter(pred),
            rel@.len() == cells.len(),
            forall|k: int|
                0 <= k < rel@.len() ==> (#[trigger] rel@[k].0 as int, rel@[k].1 as int) == cell_offset(
                    cells[k],
                    k,
                    sz,
                    jitter,
                    rng0,
                ),
            *rng == (if jitter > 0 {
                lcg_iter(rng0, (2 * cells.len()) as nat)
            } else {
                rng0
            }),
    {
        for j in 0..size
            invariant
                size <= 46340,
                size + 2 * jitter <= i32::MAX,
                sz == size,
                i < size,
                offset == sz / 2,
                grid == brush_grid(sz),
                pred == brush_pred(sz, shape),
                cells == grid.take(i * sz + j).filter(pred),
                rel@.len() == cells.len(),
                forall|k: int|
                    0 <= k < rel@.len() ==> (#[trigger] rel@[k].0 as int, rel@[k].1 as int)
                        == cell_offset(cells[k], k, sz, jitter, rng0),
                *rng == (if jitter > 0 {
                    lcg_iter(rng0, (2 * cells.len()) as nat)
                } else {
                    rng0
                }),
        {
            let ghost k = i * sz + j;
            proof {
                lemma_grid_cell(sz, i as int, j as int);
                lemma_filter_step(grid, k, pred);
            }
            if cell_in_brush(size, shape, i, j) {
                let ghost n = cells.len();
                let mut rel_x = i as i32 - offset;
                let mut rel_y = j as i32 - offset;
                if jitter > 0 {
                    let jx = jitter_step(rng, jitter);
                    rel_x = rel_x + jx;
                    let jy = jitter_step(rng, jitter);
                    rel_y = rel_y + jy;
                }
                rel.push((rel_x, rel_y));
                proof {
                    assert(pred((i as int, j as int)));
                    cells = cells.push((i as int, j as int));
                    if jitter > 0 {
                        assert(lcg_iter(rng0, (2 * n + 1) as nat) == lcg(lcg_iter(rng0, (2 * n) as nat)));
                        assert(lcg_iter(rng0, (2 * n + 2) as nat) == lcg(
                            lcg_iter(rng0, (2 * n + 1) as nat),
                        ));
                    }
                    assert(rel@[n as int] == (rel_x, rel_y));
                }
            } else {
                proof {
                    assert(!pred((i as int, j as int)));
                }
            }
        }
        proof {
            assert(i * sz + sz == (i + 1) * sz) by (nonlinear_arith);
        }
    }
    proof {
        assert(size * sz == sz * sz);
        assert(grid.take(sz * sz) =~= grid);
    }
    rel
}

/// The last cell of a round brush larger than two pixels lies outside the
/// circle inscribed in the brush square.
proof fn lemma_round_corner_out(size: int)
    requires
        size > 2,
    ensures
        !in_brush(size, BrushShape::Circle, size - 1, size - 1),
{
    let off = size / 2;
    let a = 2 * (size - 1 - off) + 1;
    if size % 2 == 1 {
        assert(a == size);
        assert(a * a + a * a > size * size) by (nonlinear_arith)
            requires
                a == size,
                size > 2,
        ;
    } else {
        assert(a == size - 1);
        assert(a * a + a * a > size * size) by (nonlinear_arith)
            requires
                a == size - 1,
                size >= 4,
        ;
    }
}

/// A round brush larger than two pixels paints only cells whose centres lie in
/// the circle inscribed in its square, that is `(2(i - size/2) + 1)^2 +
/// (2(j - size/2) + 1)^2 <= size^2` for cell `(i, j)`, each cell of the square
/// at most once; its far corner is never painted, so it paints fewer than
/// `size * size` cells. A square brush, or one of size one or two, paints every
/// cell of its square.
pub proof fn law_brush_footprint(size: int, shape: BrushShape)
    requires
        size > 0,
    ensures
        shape == BrushShape::Circle && size > 2 ==> {
            let cs = brush_cells(size, shape);
            &&& forall|k: int|
                0 <= k < cs.len() ==> {
                    let i = (#[trigger] cs[k]).0;
                    let j = cs[k].1;
                    let off = size / 2;
                    &&& 0 <= i < size
                    &&& 0 <= j < size
                    &&& (2 * (i - off) + 1) * (2 * (i - off) + 1) + (2 * (j - off) + 1) * (2 * (j - off) + 1)
                        <= size * size
                }
            &&& !cs.contains((size - 1, size - 1))
            &&& cs.len() < size * size
        },
        !(shape == BrushShape::Circle && size > 2) ==> brush_cells(size, shape).len() == size * size,
{
    let g = brush_grid(size);
    let pred = brush_pred(size, shape);
    let cs = brush_cells(size, shape);
    assert(size * size > 0) by (nonlinear_arith)
        requires
            size > 0,
    ;
    assert forall|k: int| 0 <= k < g.len() implies 0 <= (#[trigger] g[k]).0 < size && 0 <= g[k].1 < size by {
        assert(0 <= k / size < size) by (nonlinear_arith)
            requires
                0 <= k < size * size,
                size > 0,
        ;
    }
    if shape == BrushShape::Circle && size > 2 {
        assert forall|k: int| 0 <= k < cs.len() implies {
            let i = (#[trigger] cs[k]).0;
            let j = cs[k].1;
            let off = size / 2;
            &&& 0 <= i < size
            &&& 0 <= j < size
            &&& (2 * (i - off) + 1) * (2 * (i - off) + 1) + (2 * (j - off) + 1) * (2 * (j - off) + 1)
                <= size * size
        } by {
            g.lemma_filter_pred(pred, k);
            assert(cs[k] == g.filter(pred)[k]);
            assert(g.filter(pred).contains(cs[k]));
            g.lemma_filter_contains_rev(pred, cs[k]);
            let m = choose|m: int| 0 <= m < g.len() && g[m] == cs[k];
            assert(0 <= g[m].0 < size && 0 <= g[m].1 < size);
        }
        lemma_round_corner_out(size);
        if cs.contains((size - 1, size - 1)) {
            let k = choose|k: int| 0 <= k < cs.len() && cs[k] == (size - 1, size - 1);
            g.lemma_filter_pred(pred, k);
        }
        let last = size * size - 1;
        assert(last / size == size - 1 && last % size == size - 1) by (nonlinear_arith)
            requires
                last == size * size - 1,
                size > 0,
        ;
        assert(g.last() == (size - 1, size - 1));
        assert(g =~= g.drop_last().push(g.last()));
        g.drop_last().lemma_filter_len_push(pred, g.last());
        g.drop_last().lemma_filter_len(pred);
    } else {
        assert(cs =~= g) by {
            assert forall|k: int| 0 <= k < g.len() implies #[trigger] pred(g[k]) by {}
            lemma_filter_all(g, pred);
        }
    }
}

proof fn lemma_filter_all(s: Seq<(int, int)>, pred: spec_fn((int, int)) -> bool)
    requires
        forall|k: int| 0 <= k < s.len() ==> #[trigger] pred(s[k]),
    ensures
        s.filter(pred) == s,
    decreases s.len(),
{
    if s.len() > 0 {
        lemma_filter_all(s.drop_last(), pred);
        assert(s =~= s.drop_last().push(s.last()));
        s.drop_last().lemma_filter_push(s.last(), pred);
    } else {
        assert(s.filter(pred) =~= s) by {
            reveal(Seq::filter);
        }
    }
}

} // verus!
