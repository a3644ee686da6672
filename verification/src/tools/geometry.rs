use vstd::prelude::*;

verus! {

pub open spec fn abs_int(v: int) -> int {
    if v < 0 {
        -v
    } else {
        v
    }
}

/// The step, +1 or -1, that moves `a` toward `b`.
pub open spec fn step_toward(a: int, b: int) -> int {
    if a < b {
        1
    } else {
        -1
    }
}

/// One step of Bresenham's line walk toward `(x2, y2)` from `(x, y)` with error
/// term `err`, for `dx = |x2 - x1|` and `dy = -|y2 - y1|`.
pub open spec fn line_step(
    x2: int,
    y2: int,
    dx: int,
    dy: int,
    sx: int,
    sy: int,
    x: int,
    y: int,
    err: int,
) -> (int, int, int) {
    let e2 = 2 * err;
    let (err1, nx) = if e2 >= dy {
        (err + dy, x + sx)
    } else {
        (err, x)
    };
    let (err2, ny) = if e2 <= dx {
        (err1 + dx, y + sy)
    } else {
        (err1, y)
    };
    (nx, ny, err2)
}

/// The points the walk visits from `(x, y)` until it reaches `(x2, y2)`, taking
/// at most `fuel` steps.
pub open spec fn line_trace(
    x2: int,
    y2: int,
    dx: int,
    dy: int,
    sx: int,
    sy: int,
    x: int,
    y: int,
    err: int,
    fuel: nat,
) -> Seq<(int, int)>
    decreases fuel,
{
    if (x == x2 && y == y2) || fuel == 0 {
        seq![(x, y)]
    } else {
        let (nx, ny, ne) = line_step(x2, y2, dx, dy, sx, sy, x, y, err);
        seq![(x, y)] + line_trace(x2, y2, dx, dy, sx, sy, nx, ny, ne, (fuel - 1) as nat)
    }
}

/// The pixels of the Bresenham line from `(x1, y1)` to `(x2, y2)`, both ends included.
pub open spec fn line_points(x1: int, y1: int, x2: int, y2: int) -> Seq<(int, int)> {
    let dx = abs_int(x2 - x1);
    let dy = -abs_int(y2 - y1);
    line_trace(
        x2,
        y2,
        dx,
        dy,
        step_toward(x1, x2),
        step_toward(y1, y2),
        x1,
        y1,
        dx + dy,
        (dx - dy) as nat,
    )
}

/// The walk's invariant: `i` steps taken along x and `j` along y, with the error
/// term tied to them, and enough fuel left to finish.
pub open spec fn walk_state(
    x1: int,
    y1: int,
    x2: int,
    y2: int,
    x: int,
    y: int,
    err: int,
    fuel: int,
) -> bool {
    let dx = abs_int(x2 - x1);
    let ddy = abs_int(y2 - y1);
    let sx = step_toward(x1, x2);
    let sy = step_toward(y1, y2);
    let i = (x - x1) * sx;
    let j = (y - y1) * sy;
    &&& 0 <= i <= dx
    &&& 0 <= j <= ddy
    &&& x == x1 + i * sx
    &&& y == y1 + j * sy
    &&& err == dx * (1 + j) - ddy * (1 + i)
    &&& fuel >= (dx - i) + (ddy - j)
    &&& (dx >= ddy ==> 2 * err >= -ddy)
    &&& (ddy >= dx ==> 2 * err <= dx)
    &&& -2 * ddy - dx <= err <= 2 * dx + ddy
}

proof fn lemma_walk_start(x1: int, y1: int, x2: int, y2: int)
    ensures
        walk_state(
            x1,
            y1,
            x2,
            y2,
            x1,
            y1,
            abs_int(x2 - x1) - abs_int(y2 - y1),
            abs_int(x2 - x1) + abs_int(y2 - y1),
        ),
{
    let sx = step_toward(x1, x2);
    let sy = step_toward(y1, y2);
    assert((x1 - x1) * sx == 0);
    assert((y1 - y1) * sy == 0);
    assert(x1 == x1 + 0 * sx);
    assert(y1 == y1 + 0 * sy);
}

proof fn lemma_walk_step(x1: int, y1: int, x2: int, y2: int, x: int, y: int, err: int, fuel: int)
    requires
        walk_state(x1, y1, x2, y2, x, y, err, fuel),
        !(x == x2 && y == y2),
    ensures
        fuel > 0,
        ({
            let dx = abs_int(x2 - x1);
            let dy = -abs_int(y2 - y1);
            let (nx, ny, ne) = line_step(
                x2,
                y2,
                dx,
                dy,
                step_toward(x1, x2),
                step_toward(y1, y2),
                x,
                y,
                err,
            );
            &&& walk_state(x1, y1, x2, y2, nx, ny, ne, fuel - 1)
            &&& abs_int(nx - x) <= 1
            &&& abs_int(ny - y) <= 1
            &&& (dx >= -dy ==> nx != x)
            &&& (-dy >= dx ==> ny != y)
            &&& (nx == x || nx == x + step_toward(x1, x2))
            &&& (ny == y || ny == y + step_toward(y1, y2))
            &&& (nx != x || ny != y)
        }),
{
    let dx = abs_int(x2 - x1);
    let ddy = abs_int(y2 - y1);
    let sx = step_toward(x1, x2);
    let sy = step_toward(y1, y2);
    let i = (x - x1) * sx;
    let j = (y - y1) * sy;
    assert(sx * sx == 1);
    assert(sy * sy == 1);
    if i == dx {
        assert(x == x2) by (nonlinear_arith)
            requires
                x == x1 + i * sx,
                i == dx,
                dx == abs_int(x2 - x1),
                sx == step_toward(x1, x2),
        ;
    }
    if j == ddy {
        assert(y == y2) by (nonlinear_arith)
            requires
                y == y1 + j * sy,
                j == ddy,
                ddy == abs_int(y2 - y1),
                sy == step_toward(y1, y2),
        ;
    }
    let e2 = 2 * err;
    if i == dx {
        assert(j < ddy);
        assert(err <= -ddy) by (nonlinear_arith)
            requires
                err == dx * (1 + j) - ddy * (1 + i),
                i == dx,
                j + 1 <= ddy,
                dx >= 0,
        ;
    }
    if j == ddy {
        assert(i < dx);
        assert(err >= dx) by (nonlinear_arith)
            requires
                err == dx * (1 + j) - ddy * (1 + i),
                j == ddy,
                i + 1 <= dx,
                ddy >= 0,
        ;
    }
    let stepx = e2 >= -ddy;
    let stepy = e2 <= dx;
    let ni = if stepx {
        i + 1
    } else {
        i
    };
    let nj = if stepy {
        j + 1
    } else {
        j
    };
    let (nx, ny, ne) = line_step(x2, y2, dx, -ddy, sx, sy, x, y, err);
    assert(nx == x1 + ni * sx) by (nonlinear_arith)
        requires
            x == x1 + i * sx,
            nx == (if stepx {
                x + sx
            } else {
                x
            }),
            ni == (if stepx {
                i + 1
            } else {
                i
            }),
    ;
    assert(ny == y1 + nj * sy) by (nonlinear_arith)
        requires
            y == y1 + j * sy,
            ny == (if stepy {
                y + sy
            } else {
                y
            }),
            nj == (if stepy {
                j + 1
            } else {
                j
            }),
    ;
    assert((nx - x1) * sx == ni) by (nonlinear_arith)
        requires
            nx == x1 + ni * sx,
            sx * sx == 1,
    ;
    assert((ny - y1) * sy == nj) by (nonlinear_arith)
        requires
            ny == y1 + nj * sy,
            sy * sy == 1,
    ;
    assert(ne == dx * (1 + nj) - ddy * (1 + ni)) by (nonlinear_arith)
        requires
            err == dx * (1 + j) - ddy * (1 + i),
            ne == err + (if stepx {
                -ddy
            } else {
                0
            }) + (if stepy {
                dx
            } else {
                0
            }),
            ni == (if stepx {
                i + 1
            } else {
                i
            }),
            nj == (if stepy {
                j + 1
            } else {
                j
            }),
    ;
}

/// How far point `p` has come along the line from `(x1, y1)` toward `(x2, y2)`:
/// its distance from the start along x plus that along y, each counted toward
/// the end.
pub open spec fn line_progress(x1: int, y1: int, x2: int, y2: int, p: (int, int)) -> int {
    (p.0 - x1) * step_toward(x1, x2) + (p.1 - y1) * step_toward(y1, y2)
}

proof fn lemma_trace_shape(
    x1: int,
    y1: int,
    x2: int,
    y2: int,
    x: int,
    y: int,
    err: int,
    fuel: nat,
)
    requires
        walk_state(x1, y1, x2, y2, x, y, err, fuel as int),
    ensures
        ({
            let dx = abs_int(x2 - x1);
            let ddy = abs_int(y2 - y1);
            let t = line_trace(
                x2,
                y2,
                dx,
                -ddy,
                step_toward(x1, x2),
                step_toward(y1, y2),
                x,
                y,
                err,
                fuel,
            );
            let i = (x - x1) * step_toward(x1, x2);
            let j = (y - y1) * step_toward(y1, y2);
            &&& t.len() >= 1
            &&& t[0] == (x, y)
            &&& t.last() == (x2, y2)
            &&& (dx >= ddy ==> t.len() == dx - i + 1)
            &&& (ddy >= dx ==> t.len() == ddy - j + 1)
            &&& forall|k: int|
                0 <= k < t.len() - 1 ==> abs_int(#[trigger] t[k + 1].0 - t[k].0) <= 1 && abs_int(
                    t[k + 1].1 - t[k].1,
                ) <= 1
            &&& forall|k: int|
                0 <= k < t.len() - 1 ==> (#[trigger] t[k + 1].0 == t[k].0 || t[k + 1].0 == t[k].0
                    + step_toward(x1, x2)) && (t[k + 1].1 == t[k].1 || t[k + 1].1 == t[k].1
                    + step_toward(y1, y2)) && t[k + 1] != t[k]
            &&& forall|k: int, l: int|
                0 <= k < l < t.len() ==> line_progress(x1, y1, x2, y2, #[trigger] t[l])
                    >= line_progress(x1, y1, x2, y2, #[trigger] t[k]) + (l - k)
        }),
    decreases fuel,
{
    let dx = abs_int(x2 - x1);
    let ddy = abs_int(y2 - y1);
    let sx = step_toward(x1, x2);
    let sy = step_toward(y1, y2);
    let i = (x - x1) * sx;
    let j = (y - y1) * sy;
    if x == x2 && y == y2 {
        assert(i == dx) by (nonlinear_arith)
            requires
                i == (x - x1) * sx,
                x == x2,
                dx == abs_int(x2 - x1),
                sx == step_toward(x1, x2),
        ;
        assert(j == ddy) by (nonlinear_arith)
            requires
                j == (y - y1) * sy,
                y == y2,
                ddy == abs_int(y2 - y1),
                sy == step_toward(y1, y2),
        ;
    } else {
        lemma_walk_step(x1, y1, x2, y2, x, y, err, fuel as int);
        let (nx, ny, ne) = line_step(x2, y2, dx, -ddy, sx, sy, x, y, err);
        lemma_trace_shape(x1, y1, x2, y2, nx, ny, ne, (fuel - 1) as nat);
        let rest = line_trace(x2, y2, dx, -ddy, sx, sy, nx, ny, ne, (fuel - 1) as nat);
        let t = line_trace(x2, y2, dx, -ddy, sx, sy, x, y, err, fuel);
        assert(t == seq![(x, y)] + rest);
        assert(sx * sx == 1);
        assert(sy * sy == 1);
        let ni = (nx - x1) * sx;
        let nj = (ny - y1) * sy;
        if dx >= ddy {
            assert(ni == i + 1) by (nonlinear_arith)
                requires
                    nx == x + sx,
                    ni == (nx - x1) * sx,
                    i == (x - x1) * sx,
                    sx * sx == 1,
            ;
        }
        if ddy >= dx {
            assert(nj == j + 1) by (nonlinear_arith)
                requires
                    ny == y + sy,
                    nj == (ny - y1) * sy,
                    j == (y - y1) * sy,
                    sy * sy == 1,
            ;
        }
        assert forall|k: int| 0 <= k < t.len() - 1 implies abs_int(#[trigger] t[k + 1].0 - t[k].0)
            <= 1 && abs_int(t[k + 1].1 - t[k].1) <= 1 by {
            if k > 0 {
                assert(t[k + 1] == rest[k]);
                assert(t[k] == rest[k - 1]);
                assert(rest[(k - 1) + 1] == rest[k]);
            }
        }
        assert forall|k: int| 0 <= k < t.len() - 1 implies (#[trigger] t[k + 1].0 == t[k].0 || t[k
            + 1].0 == t[k].0 + sx) && (t[k + 1].1 == t[k].1 || t[k + 1].1 == t[k].1 + sy) && t[k
            + 1] != t[k] by {
            if k > 0 {
                assert(t[k + 1] == rest[k]);
                assert(t[k] == rest[k - 1]);
                assert(rest[(k - 1) + 1] == rest[k]);
            }
        }
        let p0 = line_progress(x1, y1, x2, y2, (x, y));
        let p1 = line_progress(x1, y1, x2, y2, (nx, ny));
        assert(p1 >= p0 + 1) by (nonlinear_arith)
            requires
                p0 == (x - x1) * sx + (y - y1) * sy,
                p1 == (nx - x1) * sx + (ny - y1) * sy,
                nx == x || nx == x + sx,
                ny == y || ny == y + sy,
                nx != x || ny != y,
                sx * sx == 1,
                sy * sy == 1,
        ;
        assert forall|k: int, l: int| 0 <= k < l < t.len() implies line_progress(
            x1,
            y1,
            x2,
            y2,
            #[trigger] t[l],
        ) >= line_progress(x1, y1, x2, y2, #[trigger] t[k]) + (l - k) by {
            assert(t[l] == rest[l - 1]);
            if k > 0 {
                assert(t[k] == rest[k - 1]);
            } else {
                if l > 1 {
                    assert(rest[0] == (nx, ny));
                    assert(line_progress(x1, y1, x2, y2, rest[l - 1]) >= line_progress(
                        x1,
                        y1,
                        x2,
                        y2,
                        rest[0],
                    ) + (l - 1 - 0));
                }
            }
        }
    }
}

/// The Bresenham line from `(x1, y1)` to `(x2, y2)` starts at the first end,
/// finishes at the second, moves one pixel (straight or diagonal) per point and
/// has one point per pixel of its longer axis, plus one. Every step moves, x only
/// ever toward `x2` and y only ever toward `y2`, so no point repeats.
pub proof fn law_line_shape(x1: int, y1: int, x2: int, y2: int)
    ensures
        ({
            let t = line_points(x1, y1, x2, y2);
            let n = if abs_int(x2 - x1) >= abs_int(y2 - y1) {
                abs_int(x2 - x1)
            } else {
                abs_int(y2 - y1)
            };
            &&& t.len() == n + 1
            &&& t[0] == (x1, y1)
            &&& t.last() == (x2, y2)
            &&& forall|k: int|
                0 <= k < t.len() - 1 ==> abs_int(#[trigger] t[k + 1].0 - t[k].0) <= 1 && abs_int(
                    t[k + 1].1 - t[k].1,
                ) <= 1
            &&& forall|k: int|
                0 <= k < t.len() - 1 ==> (#[trigger] t[k + 1].0 == t[k].0 || t[k + 1].0 == t[k].0
                    + step_toward(x1, x2)) && (t[k + 1].1 == t[k].1 || t[k + 1].1 == t[k].1
                    + step_toward(y1, y2)) && t[k + 1] != t[k]
            &&& forall|k: int, l: int| 0 <= k < l < t.len() ==> #[trigger] t[k] != #[trigger] t[l]
        }),
{
    let dx = abs_int(x2 - x1);
    let ddy = abs_int(y2 - y1);
    lemma_walk_start(x1, y1, x2, y2);
    lemma_trace_shape(x1, y1, x2, y2, x1, y1, dx - ddy, (dx + ddy) as nat);
    let t = line_points(x1, y1, x2, y2);
    assert forall|k: int, l: int| 0 <= k < l < t.len() implies #[trigger] t[k] != #[trigger] t[l] by {
        assert(line_progress(x1, y1, x2, y2, t[l]) >= line_progress(x1, y1, x2, y2, t[k]) + (l - k));
    }
}

/// Line rasterisation.
pub struct Geometry;

impl Geometry {
    /// The pixels of the line from `(x1, y1)` to `(x2, y2)`, in drawing order.
    pub fn bresenham_line(x1: i32, y1: i32, x2: i32, y2: i32) -> (pts: Vec<(i32, i32)>)
        ensures
            pts@.len() == line_points(x1 as int, y1 as int, x2 as int, y2 as int).len(),
            forall|k: int|
                0 <= k < pts@.len() ==> (pts@[k].0 as int, pts@[k].1 as int) == #[trigger] line_points(
                    x1 as int,
                    y1 as int,
                    x2 as int,
                    y2 as int,
                )[k],
            forall|k: int|
                0 <= k < pts@.len() ==> (x1 <= #[trigger] pts@[k].0 <= x2 || x2 <= pts@[k].0 <= x1) && (y1
                    <= pts@[k].1 <= y2 || y2 <= pts@[k].1 <= y1),
    {
        let ghost gx1 = x1 as int;
        let ghost gy1 = y1 as int;
        let ghost gx2 = x2 as int;
        let ghost gy2 = y2 as int;
        let ghost full = line_points(gx1, gy1, gx2, gy2);
        let dx: i64 = if x2 >= x1 {
            x2 as i64 - x1 as i64
        } else {
            x1 as i64 - x2 as i64
        };
        let ady: i64 = if y2 >= y1 {
            y2 as i64 - y1 as i64
        } else {
            y1 as i64 - y2 as i64
        };
        let dy: i64 = -ady;
        let sx: i64 = if x1 < x2 {
            1
        } else {
            -1
        };
        let sy: i64 = if y1 < y2 {
            1
        } else {
            -1
        };
        let mut x: i64 = x1 as i64;
        let mut y: i64 = y1 as i64;
        let mut err: i64 = dx + dy;
        let ghost mut fuel: nat = (dx - dy) as nat;
        let mut pts: Vec<(i32, i32)> = Vec::new();
        let ghost mut rest = full;
        proof {
            lemma_walk_start(gx1, gy1, gx2, gy2);
        }
        loop
            invariant_except_break
                full.len() == pts@.len() + rest.len(),
                forall|k: int|
                    0 <= k < pts@.len() ==> (pts@[k].0 as int, pts@[k].1 as int) == #[trigger] full[k],
                forall|k: int| 0 <= k < rest.len() ==> #[trigger] rest[k] == full[pts@.len() + k],
                forall|k: int|
                    0 <= k < pts@.len() ==> (x1 <= #[trigger] pts@[k].0 <= x2 || x2 <= pts@[k].0 <= x1) && (
                    y1 <= pts@[k].1 <= y2 || y2 <= pts@[k].1 <= y1),
            invariant
                gx1 == x1 as int,
                gy1 == y1 as int,
                gx2 == x2 as int,
                gy2 == y2 as int,
                dx == abs_int(gx2 - gx1),
                dy == -abs_int(gy2 - gy1),
                sx == step_toward(gx1, gx2),
                sy == step_toward(gy1, gy2),
                walk_state(gx1, gy1, gx2, gy2, x as int, y as int, err as int, fuel as int),
                full == line_points(gx1, gy1, gx2, gy2),
                rest == line_trace(
                    gx2,
                    gy2,
                    dx as int,
                    dy as int,
                    sx as int,
                    sy as int,
                    x as int,
                    y as int,
                    err as int,
                    fuel,
                ),
            ensures
                pts@.len() == full.len(),
                forall|k: int|
                    0 <= k < pts@.len() ==> (pts@[k].0 as int, pts@[k].1 as int) == #[trigger] full[k],
                forall|k: int|
                    0 <= k < pts@.len() ==> (x1 <= #[trigger] pts@[k].0 <= x2 || x2 <= pts@[k].0 <= x1) && (
                    y1 <= pts@[k].1 <= y2 || y2 <= pts@[k].1 <= y1),
            decreases fuel,
        {
            let ghost i = (x - gx1) * sx;
            let ghost j = (y - gy1) * sy;
            proof {
                assert(sx * sx == 1);
                assert(sy * sy == 1);
                assert(gx1 <= x <= gx2 || gx2 <= x <= gx1) by (nonlinear_arith)
                    requires
                        x == gx1 + i * sx,
                        0 <= i <= dx,
                        dx == abs_int(gx2 - gx1),
                        sx == step_toward(gx1, gx2),
                ;
                assert(gy1 <= y <= gy2 || gy2 <= y <= gy1) by (nonlinear_arith)
                    requires
                        y == gy1 + j * sy,
                        0 <= j <= -dy,
                        dy == -abs_int(gy2 - gy1),
                        sy == step_toward(gy1, gy2),
                ;
                assert(rest[0] == (x as int, y as int));
                assert(rest[0] == full[pts@.len() as int]);
            }
            let ghost old_pts = pts@;
            pts.push((x as i32, y as i32));
            assert(pts@[pts@.len() - 1].0 == x && pts@[pts@.len() - 1].1 == y);
            assert forall|k: int| 0 <= k < pts@.len() implies (x1 <= #[trigger] pts@[k].0 <= x2 || x2 <= pts@[k].0 <= x1) && (
                y1 <= pts@[k].1 <= y2 || y2 <= pts@[k].1 <= y1) by {
                if k < old_pts.len() {
                    assert(pts@[k] == old_pts[k]);
                }
            }
            if x == x2 as i64 && y == y2 as i64 {
                proof {
                    assert(rest == seq![(x as int, y as int)]);
                    assert(rest.len() == 1);
                }
                break;
            }
            proof {
                lemma_walk_step(gx1, gy1, gx2, gy2, x as int, y as int, err as int, fuel as int);
                assert(-3 * 0x1_0000_0000 <= err <= 3 * 0x1_0000_0000) by (nonlinear_arith)
                    requires
                        -2 * (-dy) - dx <= err <= 2 * dx + (-dy),
                        dx <= 0x1_0000_0000,
                        -dy <= 0x1_0000_0000,
                ;
            }
            let e2 = 2 * err;
            if e2 >= dy {
                err = err + dy;
                x = x + sx;
            }
            if e2 <= dx {
                err = err + dx;
                y = y + sy;
            }
            proof {
                let next = line_trace(
                    gx2,
                    gy2,
                    dx as int,
                    dy as int,
                    sx as int,
                    sy as int,
                    x as int,
                    y as int,
                    err as int,
                    (fuel - 1) as nat,
                );
                assert(rest == seq![rest[0]] + next);
                assert forall|k: int| 0 <= k < next.len() implies #[trigger] next[k] == full[pts@.len() + k] by {
                    assert(next[k] == rest[k + 1]);
                }
                rest = next;
                fuel = (fuel - 1) as nat;
            }
        }
        pts
    }
}

} // verus!
