//! Integer line rasterisation (Bresenham) for skeleton polylines.
use vstd::prelude::*;

verus! {

/// Largest coordinate magnitude a segment end may have.
pub const COORD_LIMIT: i32 = 0x1000_0000;

/// `v` lies within `±COORD_LIMIT`.
pub open spec fn in_range(v: int) -> bool {
    -(COORD_LIMIT as int) <= v <= COORD_LIMIT as int
}

/// Whether a coordinate is acceptable as a segment end of [`bresenham`].
pub fn coordinate_in_range(v: i32) -> (b: bool)
    ensures
        b == in_range(v as int),
{
    -COORD_LIMIT <= v && v <= COORD_LIMIT
}

pub open spec fn abs(v: int) -> int {
    if v < 0 {
        -v
    } else {
        v
    }
}

/// Unit step from `a` toward `b` (−1 when they are equal).
pub open spec fn dir(a: int, b: int) -> int {
    if a < b {
        1
    } else {
        -1
    }
}

/// The point (x, y), if it lies inside `[0, max_x) × [0, max_y)`.
pub open spec fn visible(x: int, y: int, max_x: int, max_y: int) -> Seq<(int, int)> {
    if 0 <= x < max_x && 0 <= y < max_y {
        seq![(x, y)]
    } else {
        Seq::empty()
    }
}

/// Bresenham's walk from state (x, y, err) toward (x1, y1): the visible points
/// it passes, this one first, until it reaches (x1, y1) or runs out of `fuel`
/// steps. Each step moves x by `sx` when `2·err > −dy` (err −= dy) and y by
/// `sy` when `2·err < dx` (err += dx), both tests on the error before the step.
pub open spec fn walk(
    x: int,
    y: int,
    err: int,
    x1: int,
    y1: int,
    dx: int,
    dy: int,
    sx: int,
    sy: int,
    max_x: int,
    max_y: int,
    fuel: nat,
) -> Seq<(int, int)>
    decreases fuel,
{
    if (x == x1 && y == y1) || fuel == 0 {
        visible(x, y, max_x, max_y)
    } else {
        let e2 = 2 * err;
        let x2 = if e2 > -dy { x + sx } else { x };
        let err2 = if e2 > -dy { err - dy } else { err };
        let y2 = if e2 < dx { y + sy } else { y };
        let err3 = if e2 < dx { err2 + dx } else { err2 };
        visible(x, y, max_x, max_y) + walk(x2, y2, err3, x1, y1, dx, dy, sx, sy, max_x, max_y, (fuel - 1) as nat)
    }
}

/// The visible points of the line from (x0, y0) to (x1, y1), in order.
pub open spec fn line(x0: int, y0: int, x1: int, y1: int, max_x: int, max_y: int) -> Seq<(int, int)> {
    let dx = abs(x1 - x0);
    let dy = abs(y1 - y0);
    walk(x0, y0, dx - dy, x1, y1, dx, dy, dir(x0, x1), dir(y0, y1), max_x, max_y, (dx + dy) as nat)
}

/// The walk never overshoots: with `p` x-steps and `q` y-steps left, the next
/// step moves only along axes with steps left, and moves at least one.
proof fn lemma_step(dx: int, dy: int, p: int, q: int, err: int)
    requires
        0 <= p <= dx,
        0 <= q <= dy,
        p + q > 0,
        err == dx - dy + p * dy - q * dx,
    ensures
        2 * err > -dy ==> p >= 1,
        2 * err < dx ==> q >= 1,
        2 * err > -dy || 2 * err < dx,
        err - dy == dx - dy + (p - 1) * dy - q * dx,
        err + dx == dx - dy + p * dy - (q - 1) * dx,
        err - dy + dx == dx - dy + (p - 1) * dy - (q - 1) * dx,
{
    assert(2 * err > -dy ==> p >= 1) by (nonlinear_arith)
        requires
            0 <= p,
            0 <= q,
            0 <= dx,
            0 <= dy,
            p + q > 0,
            err == dx - dy + p * dy - q * dx,
    {
        if p == 0 {
            assert(q >= 1);
            assert(q * dx >= dx);
        }
    }
    assert(2 * err < dx ==> q >= 1) by (nonlinear_arith)
        requires
            0 <= p,
            0 <= q,
            0 <= dx,
            0 <= dy,
            p + q > 0,
            err == dx - dy + p * dy - q * dx,
    {
        if q == 0 {
            assert(p >= 1);
            assert(p * dy >= dy);
        }
    }
    assert(err - dy == dx - dy + (p - 1) * dy - q * dx) by (nonlinear_arith)
        requires
            err == dx - dy + p * dy - q * dx,
    ;
    assert(err + dx == dx - dy + p * dy - (q - 1) * dx) by (nonlinear_arith)
        requires
            err == dx - dy + p * dy - q * dx,
    ;
    assert(err - dy + dx == dx - dy + (p - 1) * dy - (q - 1) * dx) by (nonlinear_arith)
        requires
            err == dx - dy + p * dy - q * dx,
    ;
}

/// Bound on the error term along the walk.
proof fn lemma_err_bound(dx: int, dy: int, p: int, q: int, err: int)
    requires
        0 <= p <= dx <= 0x2000_0000,
        0 <= q <= dy <= 0x2000_0000,
        err == dx - dy + p * dy - q * dx,
    ensures
        -0x1000_0000_0000_0000 <= err <= 0x1000_0000_0000_0000,
{
    assert(p * dy <= 0x2000_0000 * 0x2000_0000 && q * dx <= 0x2000_0000 * 0x2000_0000
        && p * dy >= 0 && q * dx >= 0) by (nonlinear_arith)
        requires
            0 <= p <= dx <= 0x2000_0000,
            0 <= q <= dy <= 0x2000_0000,
    ;
}

/// The pixels of the segment (x0, y0)–(x1, y1) that lie inside
/// `[0, max_x) × [0, max_y)`, in the order Bresenham's algorithm visits them.
pub fn bresenham(x0: i32, y0: i32, x1: i32, y1: i32, max_x: i32, max_y: i32) -> (out: Vec<(i32, i32)>)
    requires
        in_range(x0 as int),
        in_range(y0 as int),
        in_range(x1 as int),
        in_range(y1 as int),
    ensures
        out@.len() == line(x0 as int, y0 as int, x1 as int, y1 as int, max_x as int, max_y as int).len(),
        forall|i: int|
            0 <= i < out@.len() ==> ((#[trigger] out@[i]).0 as int, out@[i].1 as int) == line(
                x0 as int,
                y0 as int,
                x1 as int,
                y1 as int,
                max_x as int,
                max_y as int,
            )[i],
        forall|i: int|
            0 <= i < out@.len() ==> 0 <= (#[trigger] out@[i]).0 < max_x && 0 <= out@[i].1 < max_y,
        0 <= x0 < max_x && 0 <= y0 < max_y ==> out@.len() > 0 && out@[0] == (x0, y0),
        0 <= x1 < max_x && 0 <= y1 < max_y ==> out@.len() > 0 && out@.last() == (x1, y1),
{
    let ghost target = line(x0 as int, y0 as int, x1 as int, y1 as int, max_x as int, max_y as int);
    let (xa, ya, xb, yb) = (x0 as i64, y0 as i64, x1 as i64, y1 as i64);
    let dx: i64 = if xb >= xa { xb - xa } else { xa - xb };
    let dy: i64 = if yb >= ya { yb - ya } else { ya - yb };
    let sx: i64 = if xa < xb { 1 } else { -1 };
    let sy: i64 = if ya < yb { 1 } else { -1 };
    let mut err: i64 = dx - dy;
    let mut x: i64 = xa;
    let mut y: i64 = ya;
    let ghost mut p: int = dx as int;
    let ghost mut q: int = dy as int;
    let ghost mut fuel: nat = (dx + dy) as nat;
    let mut out: Vec<(i32, i32)> = Vec::new();
    let ghost mut seen: Seq<(int, int)> = Seq::empty();
    loop
        invariant_except_break
            seen + walk(x as int, y as int, err as int, x1 as int, y1 as int, dx as int, dy as int,
                sx as int, sy as int, max_x as int, max_y as int, fuel) == target,
            p == dx && q == dy ==> seen.len() == 0,
        invariant
            0 <= dx <= 0x2000_0000,
            0 <= dy <= 0x2000_0000,
            dx == abs(x1 - x0),
            dy == abs(y1 - y0),
            sx == dir(x0 as int, x1 as int),
            sy == dir(y0 as int, y1 as int),
            xb == x1,
            yb == y1,
            0 <= p <= dx,
            0 <= q <= dy,
            x == (if sx == 1 { x1 - p } else { x1 + p }),
            y == (if sy == 1 { y1 - q } else { y1 + q }),
            err == dx - dy + p * dy - q * dx,
            fuel >= p + q,
            out@.len() == seen.len(),
            forall|i: int|
                0 <= i < out@.len() ==> ((#[trigger] out@[i]).0 as int, out@[i].1 as int) == seen[i],
            forall|i: int|
                0 <= i < out@.len() ==> 0 <= (#[trigger] out@[i]).0 < max_x && 0 <= out@[i].1 < max_y,
            p < dx || q < dy ==> (0 <= x0 < max_x && 0 <= y0 < max_y ==> out@.len() > 0 && out@[0] == (
                x0,
                y0,
            )),
        ensures
            out@.len() == target.len(),
            forall|i: int|
                0 <= i < out@.len() ==> ((#[trigger] out@[i]).0 as int, out@[i].1 as int) == target[i],
            forall|i: int|
                0 <= i < out@.len() ==> 0 <= (#[trigger] out@[i]).0 < max_x && 0 <= out@[i].1 < max_y,
            0 <= x0 < max_x && 0 <= y0 < max_y ==> out@.len() > 0 && out@[0] == (x0, y0),
            0 <= x1 < max_x && 0 <= y1 < max_y ==> out@.len() > 0 && out@.last() == (x1, y1),
        decreases p + q,
    {
        proof {
            lemma_err_bound(dx as int, dy as int, p, q, err as int);
        }
        let here_visible = 0 <= x && x < max_x as i64 && 0 <= y && y < max_y as i64;
        let ghost old_seen = seen;
        let ghost here = visible(x as int, y as int, max_x as int, max_y as int);
        if here_visible {
            out.push((x as i32, y as i32));
        }
        proof {
            seen = seen + here;
        }
        if x == xb && y == yb {
            proof {
                assert(p == 0 && q == 0);
                assert(old_seen + here == target);
            }
            break;
        }
        proof {
            lemma_step(dx as int, dy as int, p, q, err as int);
        }
        let e2 = 2 * err;
        let step_x = e2 > -dy;
        let step_y = e2 < dx;
        if step_x {
            err = err - dy;
            x = x + sx;
            proof {
                p = p - 1;
            }
        }
        if step_y {
            err = err + dx;
            y = y + sy;
            proof {
                q = q - 1;
            }
        }
        proof {
            assert(fuel > 0);
            let f = fuel;
            fuel = (fuel - 1) as nat;
            assert(old_seen + here + walk(x as int, y as int, err as int, x1 as int, y1 as int, dx as int,
                dy as int, sx as int, sy as int, max_x as int, max_y as int, fuel) == target) by {
                assert(old_seen + (here + walk(x as int, y as int, err as int, x1 as int, y1 as int, dx as int,
                    dy as int, sx as int, sy as int, max_x as int, max_y as int, fuel)) == target);
            }
        }
    }
    out
}

} // verus!
