use crate::centers::{dist2, dist_squared, in_range, picked};
use crate::room::{tiles_in_range, Room};
use crate::region::{at, in_grid, set_tile};
use crate::tile_map::{Tile, TileMap};
use crate::types::{cell, is_square, Coord, UMap8};
use vstd::prelude::*;

verus! {

/// The edge-tile pair of two rooms at index pair `(i, j)` of their edge lists.
pub open spec fn edge_pair(a: Room, b: Room, i: int, j: int) -> (Coord, Coord) {
    (a.tiles@[a.edge_tile_indexes@[i] as int], b.tiles@[b.edge_tile_indexes@[j] as int])
}

/// `(i, j)` comes before `(k, l)` in row-major order.
pub open spec fn pair_before(i: int, j: int, k: int, l: int) -> bool {
    i < k || (i == k && j < l)
}

/// The closest pair of edge tiles of `a` and `b`: the first pair in
/// row-major order over the two edge lists with the smallest squared
/// distance; the first tiles of both rooms when either has no edge tile.
pub open spec fn is_closest_pair(a: Room, b: Room, r: (Coord, Coord)) -> bool {
    let na = a.edge_tile_indexes@.len() as int;
    let nb = b.edge_tile_indexes@.len() as int;
    if na == 0 || nb == 0 {
        r == (a.tiles@[0], b.tiles@[0])
    } else {
        exists|i: int, j: int|
            #![trigger edge_pair(a, b, i, j)]
            0 <= i < na && 0 <= j < nb && r == edge_pair(a, b, i, j) && (forall|k: int, l: int|
                0 <= k < na && 0 <= l < nb ==> dist2(edge_pair(a, b, i, j).0, edge_pair(a, b, i, j).1)
                    <= dist2(#[trigger] edge_pair(a, b, k, l).0, edge_pair(a, b, k, l).1)) && (forall|
                k: int,
                l: int,
            |
                0 <= k < na && 0 <= l < nb && pair_before(k, l, i, j) ==> dist2(
                    edge_pair(a, b, i, j).0,
                    edge_pair(a, b, i, j).1,
                ) < dist2(#[trigger] edge_pair(a, b, k, l).0, edge_pair(a, b, k, l).1))
    }
}

/// The closest pair of edge tiles between two rooms, by exhaustive scan.
pub fn closest_tiles(a: &Room, b: &Room) -> (r: (Coord, Coord))
    requires
        a.wf(),
        b.wf(),
    ensures
        is_closest_pair(*a, *b, r),
{
    let e1 = &a.edge_tile_indexes;
    let e2 = &b.edge_tile_indexes;
    if e1.len() == 0 || e2.len() == 0 {
        return (a.tiles[0], b.tiles[0]);
    }
    let mut best: u128 = 0;
    let mut bi: usize = 0;
    let mut bj: usize = 0;
    let mut found = false;
    let mut i: usize = 0;
    while i < e1.len()
        invariant
            a.wf(),
            b.wf(),
            e1@ == a.edge_tile_indexes@,
            e2@ == b.edge_tile_indexes@,
            e1@.len() > 0,
            e2@.len() > 0,
            i <= e1@.len(),
            found == (i > 0),
            found ==> bi < i && bj < e2@.len() && best == dist2(edge_pair(*a, *b, bi as int, bj as int).0, edge_pair(*a, *b, bi as int, bj as int).1),
            forall|k: int, l: int|
                0 <= k < i && 0 <= l < e2@.len() ==> best <= dist2(#[trigger] edge_pair(*a, *b, k, l).0, edge_pair(*a, *b, k, l).1),
            forall|k: int, l: int|
                0 <= k < e1@.len() && 0 <= l < e2@.len() && pair_before(k, l, bi as int, bj as int) ==> best < dist2(#[trigger] edge_pair(*a, *b, k, l).0, edge_pair(*a, *b, k, l).1) || !pair_before(k, l, i as int, 0),
        decreases e1.len() - i,
    {
        let mut j: usize = 0;
        while j < e2.len()
            invariant
                a.wf(),
                b.wf(),
                e1@ == a.edge_tile_indexes@,
                e2@ == b.edge_tile_indexes@,
                e2@.len() > 0,
                i < e1@.len(),
                j <= e2@.len(),
                found == (i > 0 || j > 0),
                found ==> pair_before(bi as int, bj as int, i as int, j as int) && bj < e2@.len() && best == dist2(edge_pair(*a, *b, bi as int, bj as int).0, edge_pair(*a, *b, bi as int, bj as int).1),
                forall|k: int, l: int|
                    0 <= k < e1@.len() && 0 <= l < e2@.len() && pair_before(k, l, i as int, j as int) ==> best <= dist2(#[trigger] edge_pair(*a, *b, k, l).0, edge_pair(*a, *b, k, l).1),
                forall|k: int, l: int|
                    0 <= k < e1@.len() && 0 <= l < e2@.len() && pair_before(k, l, bi as int, bj as int) ==> best < dist2(#[trigger] edge_pair(*a, *b, k, l).0, edge_pair(*a, *b, k, l).1) || !pair_before(k, l, i as int, j as int),
            decreases e2.len() - j,
        {
            let y_tile = a.tiles[e1[i]];
            let z_tile = b.tiles[e2[j]];
            assert(in_range(a.tiles@[e1@[i as int] as int]));
            assert(in_range(b.tiles@[e2@[j as int] as int]));
            let d = dist_squared(&y_tile, &z_tile);
            if !found || d < best {
                best = d;
                bi = i;
                bj = j;
                found = true;
            }
            j += 1;
        }
        i += 1;
    }
    let r = (a.tiles[e1[bi]], b.tiles[e2[bj]]);
    assert(r == edge_pair(*a, *b, bi as int, bj as int));
    r
}

/// `b` equals `a` or is one step from `a` towards `end`.
pub open spec fn toward(a: usize, b: usize, end: usize) -> bool {
    b == a || (a < end && b == a + 1) || (a > end && b + 1 == a)
}

/// One step of a line walk towards `end`: a king move that brings each
/// coordinate closer to `end` or keeps it.
pub open spec fn line_step(p: Coord, q: Coord, end: Coord) -> bool {
    toward(p.x, q.x, end.x) && toward(p.y, q.y, end.y) && p != q
}

/// `s` is a line walk from `start` to `end`.
pub open spec fn is_line_walk(s: Seq<Coord>, start: Coord, end: Coord) -> bool {
    &&& s.len() >= 1
    &&& s[0] == start
    &&& s.last() == end
    &&& forall|k: int| 0 <= k < s.len() - 1 ==> #[trigger] line_step(s[k], s[k + 1], end)
}

proof fn lemma_no_overshoot(ax: int, ay: int, gx: int, gy: int)
    requires
        0 <= gx <= ax,
        0 <= gy <= ay,
        !(gx == ax && gy == ay),
    ensures
        gx == ax ==> 2 * (ax * (1 + gy) - ay * (1 + gx)) < -ay,
        gy == ay ==> 2 * (ax * (1 + gy) - ay * (1 + gx)) > ax,
{
    if gx == ax {
        assert(2 * (ax * (1 + gy) - ay * (1 + gx)) < -ay) by (nonlinear_arith)
            requires gx == ax, 0 <= gy < ay, 0 <= ax;
    }
    if gy == ay {
        assert(2 * (ax * (1 + gy) - ay * (1 + gx)) > ax) by (nonlinear_arith)
            requires gy == ay, 0 <= gx < ax, 0 <= ay;
    }
}

/// The distance between two values.
pub open spec fn gap(a: usize, b: usize) -> int {
    if a >= b { a - b } else { b - a }
}

/// The cell after `p` on the Bresenham line from `start` to `end`. With
/// `ax = |dx|`, `ay = |dy|` and `p` lying `gx` and `gy` cells from `start`,
/// the error term is `ax * (1 + gy) - ay * (1 + gx)`; x moves one cell
/// towards `end` when twice the error is at least `-ay`, and y when it is at
/// most `ax`.
pub open spec fn bresenham_next(start: Coord, end: Coord, p: Coord) -> Coord {
    let ax = gap(end.x, start.x);
    let ay = gap(end.y, start.y);
    let e = ax * (1 + gap(p.y, start.y)) - ay * (1 + gap(p.x, start.x));
    let nx = if 2 * e >= -ay {
        if start.x < end.x { p.x + 1 } else { p.x - 1 }
    } else {
        p.x as int
    };
    let ny = if 2 * e <= ax {
        if start.y < end.y { p.y + 1 } else { p.y - 1 }
    } else {
        p.y as int
    };
    Coord { x: nx as usize, y: ny as usize }
}

/// `s` is Bresenham's line from `start` to `end`: it starts at `start`, each
/// cell follows the one before it by `bresenham_next`, and it stops at the
/// first arrival at `end`.
pub open spec fn is_bresenham_line(s: Seq<Coord>, start: Coord, end: Coord) -> bool {
    &&& s.len() >= 1
    &&& s[0] == start
    &&& s.last() == end
    &&& forall|k: int|
        0 <= k < s.len() - 1 ==> s[k + 1] == #[trigger] bresenham_next(start, end, s[k]) && s[k] != end
}

proof fn lemma_bresenham_line_intro(s: Seq<Coord>, start: Coord, end: Coord)
    requires
        s.len() >= 1,
        s[0] == start,
        s.last() == end,
        forall|k: int| 0 <= k < s.len() - 1 ==> s[k + 1] == #[trigger] bresenham_next(start, end, s[k]) && s[k] != end,
    ensures
        is_bresenham_line(s, start, end),
{
}

/// The cells of a Bresenham line from `start` to `end`, both included.
#[verifier::spinoff_prover]
pub fn simple_line(start: Coord, end: Coord) -> (r: Vec<Coord>)
    requires
        in_range(start),
        in_range(end),
    ensures
        is_line_walk(r@, start, end),
        is_bresenham_line(r@, start, end),
{
    let xs = start.x as i64;
    let ys = start.y as i64;
    let x1 = end.x as i64;
    let y1 = end.y as i64;
    let dx: i64 = if x1 >= xs { x1 - xs } else { xs - x1 };
    let dy: i64 = if y1 >= ys { ys - y1 } else { y1 - ys };
    let sx: i64 = if xs < x1 { 1 } else { -1 };
    let sy: i64 = if ys < y1 { 1 } else { -1 };
    let ghost ax = dx as int;
    let ghost ay = -dy as int;
    let mut err: i128 = dx as i128 + dy as i128;
    let mut x0 = xs;
    let mut y0 = ys;
    let ghost mut gx: int = 0;
    let ghost mut gy: int = 0;
    let mut points: Vec<Coord> = Vec::new();
    points.push(start);
    assert(ax * (1 + gy) - ay * (1 + gx) == ax - ay) by (nonlinear_arith)
        requires gx == 0, gy == 0;
    while !(x0 == x1 && y0 == y1)
        invariant
            in_range(start),
            in_range(end),
            xs == start.x,
            ys == start.y,
            x1 == end.x,
            y1 == end.y,
            ax == dx,
            ay == -dy,
            ax == (if x1 >= xs { x1 - xs } else { xs - x1 }),
            ay == (if y1 >= ys { y1 - ys } else { ys - y1 }),
            sx == (if xs < x1 { 1int } else { -1int }),
            sy == (if ys < y1 { 1int } else { -1int }),
            0 <= gx <= ax,
            0 <= gy <= ay,
            x0 == xs + sx * gx,
            y0 == ys + sy * gy,
            err == ax * (1 + gy) - ay * (1 + gx),
            points@.len() >= 1,
            points@[0] == start,
            points@.last() == at(x0 as int, y0 as int),
            forall|k: int| 0 <= k < points@.len() - 1 ==> #[trigger] line_step(points@[k], points@[k + 1], end),
            forall|k: int|
                0 <= k < points@.len() - 1 ==> points@[k + 1] == #[trigger] bresenham_next(start, end, points@[k])
                    && points@[k] != end,
        decreases (ax - gx) + (ay - gy),
    {
        proof {
            if gx == ax {
                assert(x0 == x1) by (nonlinear_arith)
                    requires x0 == xs + sx * gx, gx == ax, ax == (if x1 >= xs { x1 - xs } else { xs - x1 }),
                        sx == (if xs < x1 { 1int } else { -1int });
            }
            if gy == ay {
                assert(y0 == y1) by (nonlinear_arith)
                    requires y0 == ys + sy * gy, gy == ay, ay == (if y1 >= ys { y1 - ys } else { ys - y1 }),
                        sy == (if ys < y1 { 1int } else { -1int });
            }
            lemma_no_overshoot(ax, ay, gx, gy);
            assert(ax * (1 + gy) <= 0x1_0000_0000 * 0x1_0000_0000) by (nonlinear_arith)
                requires 0 <= ax < 0x1_0000_0000, 0 <= gy < 0x1_0000_0000;
            assert(ay * (1 + gx) <= 0x1_0000_0000 * 0x1_0000_0000) by (nonlinear_arith)
                requires 0 <= ay < 0x1_0000_0000, 0 <= gx < 0x1_0000_0000;
        }
        proof {
            assert(0 <= x0 < 0xffff_ffff) by (nonlinear_arith)
                requires x0 == xs + sx * gx, 0 <= gx <= ax, ax == (if x1 >= xs { x1 - xs } else { xs - x1 }),
                    sx == (if xs < x1 { 1int } else { -1int }), 0 <= xs < 0xffff_ffff, 0 <= x1 < 0xffff_ffff;
            assert(0 <= y0 < 0xffff_ffff) by (nonlinear_arith)
                requires y0 == ys + sy * gy, 0 <= gy <= ay, ay == (if y1 >= ys { y1 - ys } else { ys - y1 }),
                    sy == (if ys < y1 { 1int } else { -1int }), 0 <= ys < 0xffff_ffff, 0 <= y1 < 0xffff_ffff;
        }
        let ghost prev = at(x0 as int, y0 as int);
        proof {
            assert(prev.x == x0 && prev.y == y0);
            assert(gap(prev.x, start.x) == gx) by (nonlinear_arith)
                requires prev.x == x0, x0 == xs + sx * gx, xs == start.x, 0 <= gx,
                    sx == (if xs < x1 { 1int } else { -1int }), gap(prev.x, start.x) == (if prev.x >= start.x { prev.x - start.x } else { start.x - prev.x });
            assert(gap(prev.y, start.y) == gy) by (nonlinear_arith)
                requires prev.y == y0, y0 == ys + sy * gy, ys == start.y, 0 <= gy,
                    sy == (if ys < y1 { 1int } else { -1int }), gap(prev.y, start.y) == (if prev.y >= start.y { prev.y - start.y } else { start.y - prev.y });
            assert(prev != end);
        }
        let e2 = 2 * err;
        if e2 >= dy as i128 {
            proof {
                assert(gx < ax);
                assert(0 <= xs + sx * (gx + 1) < 0xffff_ffff) by (nonlinear_arith)
                    requires 0 <= gx < ax, ax == (if x1 >= xs { x1 - xs } else { xs - x1 }),
                        sx == (if xs < x1 { 1int } else { -1int }), 0 <= xs < 0xffff_ffff, 0 <= x1 < 0xffff_ffff;
                assert(x0 + sx == xs + sx * (gx + 1)) by (nonlinear_arith)
                    requires x0 == xs + sx * gx;
            }
            assert(ay * (1 + (gx + 1)) == ay * (1 + gx) + ay) by (nonlinear_arith);
            err = err + dy as i128;
            x0 = x0 + sx;
            proof {
                gx = gx + 1;
            }
        }
        if e2 <= dx as i128 {
            proof {
                assert(gy < ay);
                assert(0 <= ys + sy * (gy + 1) < 0xffff_ffff) by (nonlinear_arith)
                    requires 0 <= gy < ay, ay == (if y1 >= ys { y1 - ys } else { ys - y1 }),
                        sy == (if ys < y1 { 1int } else { -1int }), 0 <= ys < 0xffff_ffff, 0 <= y1 < 0xffff_ffff;
                assert(y0 + sy == ys + sy * (gy + 1)) by (nonlinear_arith)
                    requires y0 == ys + sy * gy;
            }
            assert(ax * (1 + (gy + 1)) == ax * (1 + gy) + ax) by (nonlinear_arith);
            err = err + dx as i128;
            y0 = y0 + sy;
            proof {
                gy = gy + 1;
            }
        }
        proof {
            assert(0 <= x0 < 0xffff_ffff) by (nonlinear_arith)
                requires x0 == xs + sx * gx, 0 <= gx <= ax, ax == (if x1 >= xs { x1 - xs } else { xs - x1 }),
                    sx == (if xs < x1 { 1int } else { -1int }), 0 <= xs < 0xffff_ffff, 0 <= x1 < 0xffff_ffff;
            assert(0 <= y0 < 0xffff_ffff) by (nonlinear_arith)
                requires y0 == ys + sy * gy, 0 <= gy <= ay, ay == (if y1 >= ys { y1 - ys } else { ys - y1 }),
                    sy == (if ys < y1 { 1int } else { -1int }), 0 <= ys < 0xffff_ffff, 0 <= y1 < 0xffff_ffff;
        }
        let ghost old_points = points@;
        points.push(Coord { x: x0 as usize, y: y0 as usize });
        proof {
            assert(line_step(prev, at(x0 as int, y0 as int), end));
            assert(at(x0 as int, y0 as int) == bresenham_next(start, end, prev));
            assert forall|k: int| 0 <= k < points@.len() - 1 implies #[trigger] line_step(points@[k], points@[k + 1], end) by {
                if k < points@.len() - 2 {
                    assert(points@[k] == old_points[k] && points@[k + 1] == old_points[k + 1]);
                }
            }
            assert forall|k: int|
                0 <= k < points@.len() - 1 implies points@[k + 1] == #[trigger] bresenham_next(start, end, points@[k])
                    && points@[k] != end by {
                if k < points@.len() - 2 {
                    assert(points@[k] == old_points[k] && points@[k + 1] == old_points[k + 1]);
                    assert(old_points[k + 1] == bresenham_next(start, end, old_points[k]));
                } else {
                    assert(points@[k] == old_points[old_points.len() - 1]);
                    assert(points@[k] == prev);
                    assert(points@[k + 1] == at(x0 as int, y0 as int));
                    assert(prev != end);
                }
            }
        }
    }
    assert(points@.last() == end);
    assert forall|k: int|
        0 <= k < points@.len() - 1 implies points@[k + 1] == #[trigger] bresenham_next(start, end, points@[k])
            && points@[k] != end by {}
    proof {
        lemma_bresenham_line_intro(points@, start, end);
    }
    points
}

/// `c` lies in the square of side `2 * (w / 2) + 1` centered on `p`.
pub open spec fn in_square(p: Coord, w: usize, c: Coord) -> bool {
    let h = (w / 2) as int;
    p.x - h <= c.x <= p.x + h && p.y - h <= c.y <= p.y + h
}

/// The cells of the square of side `2 * (w / 2) + 1` centered on `p`, clipped at zero.
pub fn square_cells(p: Coord, w: usize) -> (r: Vec<Coord>)
    requires
        in_range(p),
        w < u32::MAX,
        p.x + w <= usize::MAX,
        p.y + w <= usize::MAX,
    ensures
        forall|c: Coord| #[trigger] r@.contains(c) <==> in_square(p, w, c),
{
    let h = (w / 2) as i64;
    let px = p.x as i64;
    let py = p.y as i64;
    let mut out: Vec<Coord> = Vec::new();
    let mut i: i64 = -h;
    while i <= h
        invariant
            h == w / 2,
            px == p.x,
            py == p.y,
            in_range(p),
            w < u32::MAX,
            p.x + w <= usize::MAX,
            p.y + w <= usize::MAX,
            -h <= i <= h + 1,
            forall|c: Coord| #[trigger] out@.contains(c) <==> (in_square(p, w, c) && c.x < px + i),
        decreases h + 1 - i,
    {
        let mut j: i64 = -h;
        while j <= h
            invariant
                h == w / 2,
                px == p.x,
                py == p.y,
                in_range(p),
                w < u32::MAX,
                p.x + w <= usize::MAX,
                p.y + w <= usize::MAX,
                -h <= i <= h,
                -h <= j <= h + 1,
                forall|c: Coord| #[trigger] out@.contains(c) <==> ((in_square(p, w, c) && c.x < px + i) || (
                c.x == px + i && py - h <= c.y < py + j)),
            decreases h + 1 - j,
        {
            let qx = px + i;
            let qy = py + j;
            if qx >= 0 && qy >= 0 {
                let q = Coord { x: qx as usize, y: qy as usize };
                let ghost prev = out@;
                out.push(q);
                assert forall|c: Coord| #[trigger] out@.contains(c) <==> ((in_square(p, w, c) && c.x < px + i) || (
                    c.x == px + i && py - h <= c.y < py + j + 1)) by {
                    if out@.contains(c) && c != q {
                        let k = choose|k: int| 0 <= k < out@.len() && out@[k] == c;
                        assert(k < prev.len());
                        assert(prev[k] == c);
                        assert(prev.contains(c));
                    }
                    if c == q {
                        assert(q.x == px + i && q.y == py + j);
                    }
                    if (in_square(p, w, c) && c.x < px + i) || (c.x == px + i && py - h <= c.y < py + j + 1) {
                        if c.x == px + i && c.y == py + j {
                            assert(c == q);
                            assert(out@[prev.len() as int] == c);
                        } else {
                            assert(prev.contains(c));
                            let k = choose|k: int| 0 <= k < prev.len() && prev[k] == c;
                            assert(out@[k] == c);
                        }
                    }
                }
            }
            j += 1;
        }
        i += 1;
    }
    out
}

/// `c` lies in the square around one of the points of a line.
pub open spec fn covered(points: Seq<Coord>, widths: Seq<usize>, c: Coord) -> bool {
    exists|k: int| 0 <= k < points.len() && #[trigger] in_square(points[k], widths[k], c)
}

/// Widens a line: every point `k` is replaced by the square of side
/// `2 * (widths[k] / 2) + 1` around it, clipped at zero.
pub fn thicken_line(points: &Vec<Coord>, widths: &Vec<usize>) -> (r: Vec<Coord>)
    requires
        points@.len() == widths@.len(),
        tiles_in_range(points@),
        forall|k: int| 0 <= k < widths@.len() ==> #[trigger] widths@[k] < u32::MAX,
        forall|k: int| 0 <= k < widths@.len() ==> points@[k].x + #[trigger] widths@[k] <= usize::MAX
            && points@[k].y + widths@[k] <= usize::MAX,
    ensures
        forall|c: Coord| #[trigger] r@.contains(c) <==> covered(points@, widths@, c),
{
    let mut out: Vec<Coord> = Vec::new();
    let mut k: usize = 0;
    while k < points.len()
        invariant
            points@.len() == widths@.len(),
            tiles_in_range(points@),
            forall|q: int| 0 <= q < widths@.len() ==> #[trigger] widths@[q] < u32::MAX,
            forall|q: int| 0 <= q < widths@.len() ==> points@[q].x + #[trigger] widths@[q] <= usize::MAX
                && points@[q].y + widths@[q] <= usize::MAX,
            k <= points@.len(),
            forall|c: Coord| #[trigger] out@.contains(c) <==> covered(points@.subrange(0, k as int), widths@, c),
        decreases points.len() - k,
    {
        assert(in_range(points@[k as int]));
        assert(widths@[k as int] < u32::MAX);
        let mut sq = square_cells(points[k], widths[k]);
        let ghost sqv = sq@;
        let ghost prev = out@;
        out.append(&mut sq);
        assert forall|c: Coord| #[trigger] out@.contains(c) <==> covered(points@.subrange(0, k + 1), widths@, c) by {
            let pre = points@.subrange(0, k as int);
            let nxt = points@.subrange(0, k + 1);
            if out@.contains(c) {
                let q = choose|q: int| 0 <= q < out@.len() && out@[q] == c;
                if q < prev.len() {
                    assert(prev[q] == c);
                    assert(prev.contains(c));
                    let w = choose|w: int| 0 <= w < pre.len() && #[trigger] in_square(pre[w], widths@[w], c);
                    assert(nxt[w] == pre[w]);
                } else {
                    assert(sqv[q - prev.len()] == c);
                    assert(sqv.contains(c));
                    assert(nxt[k as int] == points@[k as int]);
                    assert(in_square(nxt[k as int], widths@[k as int], c));
                }
            }
            if covered(nxt, widths@, c) {
                let w = choose|w: int| 0 <= w < nxt.len() && #[trigger] in_square(nxt[w], widths@[w], c);
                if w < k {
                    assert(pre[w] == nxt[w]);
                    assert(covered(pre, widths@, c));
                    assert(prev.contains(c));
                    let q = choose|q: int| 0 <= q < prev.len() && prev[q] == c;
                    assert(out@[q] == c);
                } else {
                    assert(nxt[w] == points@[k as int]);
                    assert(sqv.contains(c));
                    let q = choose|q: int| 0 <= q < sqv.len() && sqv[q] == c;
                    assert(out@[prev.len() + q] == c);
                }
            }
        }
        k += 1;
    }
    assert(points@.subrange(0, points@.len() as int) =~= points@);
    out
}

/// A tunnel line left a grid of the given side.
#[derive(Clone, Copy, Debug, PartialEq, Eq, Structural)]
pub enum TunnelError {
    OutOfBounds(Coord),
}

/// Every point of `line` lies on the `n x n` grid.
pub open spec fn fits(n: int, line: Seq<Coord>) -> bool {
    forall|k: int| 0 <= k < line.len() ==> in_grid(n, #[trigger] line[k])
}

/// The tile of `c` after carving `line` into `m`: walls on the line become tunnel.
pub open spec fn carved_tile(m: Seq<Vec<Tile>>, line: Seq<Coord>, c: Coord) -> Tile {
    let t = cell(m, c.x as int, c.y as int);
    if line.contains(c) && t == Tile::Wall { Tile::Tunnel(0) } else { t }
}

/// The occupancy of `c` after carving `line`: cleared where a wall became tunnel.
pub open spec fn carved_cell(m: Seq<Vec<Tile>>, u: Seq<Vec<u8>>, line: Seq<Coord>, c: Coord) -> u8 {
    if line.contains(c) && cell(m, c.x as int, c.y as int) == Tile::Wall {
        0
    } else {
        cell(u, c.x as int, c.y as int)
    }
}

/// Carves one tunnel: every wall cell on `line` becomes `Tunnel(0)` and is
/// cleared in `umap`. A line with a point off the grid is abandoned whole:
/// the first such point is reported and nothing is changed.
pub fn carve_tunnel(line: &Vec<Coord>, tile_map: &mut TileMap, umap: &mut UMap8) -> (r: Result<(), TunnelError>)
    requires
        is_square(old(tile_map)@, old(tile_map)@.len() as nat),
        is_square(old(umap)@, old(tile_map)@.len() as nat),
    ensures
        is_square(final(tile_map)@, old(tile_map)@.len() as nat),
        is_square(final(umap)@, old(tile_map)@.len() as nat),
        r.is_ok() == fits(old(tile_map)@.len() as int, line@),
        r.is_err() ==> final(tile_map)@ == old(tile_map)@ && final(umap)@ == old(umap)@,
        r.is_err() ==> exists|k: int| 0 <= k < line@.len() && r == Err::<(), TunnelError>(TunnelError::OutOfBounds(line@[k]))
            && !in_grid(old(tile_map)@.len() as int, line@[k]) && fits(old(tile_map)@.len() as int, line@.subrange(0, k)),
        r.is_ok() ==> forall|a: int, b: int|
            0 <= a < old(tile_map)@.len() && 0 <= b < old(tile_map)@.len() ==> #[trigger] cell(final(tile_map)@, a, b)
                == carved_tile(old(tile_map)@, line@, at(a, b)) && cell(final(umap)@, a, b) == carved_cell(
                old(tile_map)@,
                old(umap)@,
                line@,
                at(a, b),
            ),
{
    let res = tile_map.len();
    let mut k: usize = 0;
    while k < line.len()
        invariant
            res == tile_map@.len(),
            tile_map@ == old(tile_map)@,
            umap@ == old(umap)@,
            is_square(old(tile_map)@, res as nat),
            is_square(old(umap)@, res as nat),
            k <= line@.len(),
            fits(res as int, line@.subrange(0, k as int)),
        decreases line.len() - k,
    {
        let p = line[k];
        if p.x >= res || p.y >= res {
            return Err(TunnelError::OutOfBounds(p));
        }
        assert(line@.subrange(0, k + 1)[k as int] == p);
        assert forall|q: int| 0 <= q < k + 1 implies in_grid(res as int, #[trigger] line@.subrange(0, k + 1)[q]) by {
            if q < k {
                assert(line@.subrange(0, k + 1)[q] == line@.subrange(0, k as int)[q]);
            }
        }
        k += 1;
    }
    assert(line@.subrange(0, line@.len() as int) =~= line@);
    let ghost m0 = tile_map@;
    let ghost u0 = umap@;
    let mut k: usize = 0;
    while k < line.len()
        invariant
            res == m0.len(),
            is_square(m0, res as nat),
            is_square(u0, res as nat),
            is_square(tile_map@, res as nat),
            is_square(umap@, res as nat),
            fits(res as int, line@),
            k <= line@.len(),
            forall|a: int, b: int|
                0 <= a < res && 0 <= b < res ==> #[trigger] cell(tile_map@, a, b) == carved_tile(
                    m0,
                    line@.subrange(0, k as int),
                    at(a, b),
                ) && cell(umap@, a, b) == carved_cell(m0, u0, line@.subrange(0, k as int), at(a, b)),
        decreases line.len() - k,
    {
        let p = line[k];
        assert(in_grid(res as int, line@[k as int]));
        let ghost pre = line@.subrange(0, k as int);
        let ghost nxt = line@.subrange(0, k + 1);
        assert(nxt =~= pre.push(p));
        assert(at(p.x as int, p.y as int) == p);
        if tile_map[p.x][p.y] == Tile::Wall {
            let ghost bt = tile_map@;
            let ghost bu = umap@;
            set_tile(tile_map, p, Tile::Tunnel(0));
            umap[p.x].set(p.y, 0);
            assert forall|a: int, b: int|
                0 <= a < res && 0 <= b < res implies #[trigger] cell(tile_map@, a, b) == carved_tile(m0, nxt, at(a, b))
                    && cell(umap@, a, b) == carved_cell(m0, u0, nxt, at(a, b)) by {
                assert(cell(bt, a, b) == carved_tile(m0, pre, at(a, b)));
                assert(cell(bu, a, b) == carved_cell(m0, u0, pre, at(a, b)));
                if a == p.x && b == p.y {
                    assert(nxt[k as int] == at(a, b));
                    if pre.contains(at(a, b)) {
                        assert(cell(bt, a, b) != Tile::Wall || cell(m0, a, b) == Tile::Wall);
                    }
                } else {
                    assert(cell(tile_map@, a, b) == cell(bt, a, b));
                    assert(cell(umap@, a, b) == cell(bu, a, b));
                    assert(nxt.contains(at(a, b)) == pre.contains(at(a, b))) by {
                        if nxt.contains(at(a, b)) {
                            let w = choose|w: int| 0 <= w < nxt.len() && nxt[w] == at(a, b);
                            assert(pre[w] == at(a, b));
                        }
                        if pre.contains(at(a, b)) {
                            let w = choose|w: int| 0 <= w < pre.len() && pre[w] == at(a, b);
                            assert(nxt[w] == at(a, b));
                        }
                    }
                }
            }
        } else {
            assert forall|a: int, b: int|
                0 <= a < res && 0 <= b < res implies #[trigger] cell(tile_map@, a, b) == carved_tile(m0, nxt, at(a, b))
                    && cell(umap@, a, b) == carved_cell(m0, u0, nxt, at(a, b)) by {
                assert(cell(tile_map@, a, b) == carved_tile(m0, pre, at(a, b)));
                if a == p.x && b == p.y {
                    assert(nxt[k as int] == at(a, b));
                } else {
                    assert(nxt.contains(at(a, b)) == pre.contains(at(a, b))) by {
                        if nxt.contains(at(a, b)) {
                            let w = choose|w: int| 0 <= w < nxt.len() && nxt[w] == at(a, b);
                            assert(pre[w] == at(a, b));
                        }
                        if pre.contains(at(a, b)) {
                            let w = choose|w: int| 0 <= w < pre.len() && pre[w] == at(a, b);
                            assert(nxt[w] == at(a, b));
                        }
                    }
                }
            }
        }
        k += 1;
    }
    Ok(())
}

/// The walk between the closest edge tiles of two rooms.
pub fn line_between_rooms(a: &Room, b: &Room) -> (r: Vec<Coord>)
    requires
        a.wf(),
        b.wf(),
    ensures
        r@.len() >= 1,
        is_closest_pair(*a, *b, (r@[0], r@.last())),
        is_line_walk(r@, r@[0], r@.last()),
        is_bresenham_line(r@, r@[0], r@.last()),
{
    let c = closest_tiles(a, b);
    proof {
        let na = a.edge_tile_indexes@.len() as int;
        let nb = b.edge_tile_indexes@.len() as int;
        if na == 0 || nb == 0 {
            assert(in_range(a.tiles@[0]) && in_range(b.tiles@[0]));
        } else {
            let (i, j) = choose|i: int, j: int|
                #![trigger edge_pair(*a, *b, i, j)]
                0 <= i < na && 0 <= j < nb && c == edge_pair(*a, *b, i, j);
            assert(in_range(a.tiles@[a.edge_tile_indexes@[i] as int]));
            assert(in_range(b.tiles@[b.edge_tile_indexes@[j] as int]));
        }
    }
    simple_line(c.0, c.1)
}

/// `c` lies on a tunnel line that fits the `n x n` grid.
pub open spec fn on_tunnel(n: int, lines: Seq<Vec<Coord>>, c: Coord) -> bool {
    exists|k: int| 0 <= k < lines.len() && fits(n, lines[k]@) && #[trigger] lines[k]@.contains(c)
}

/// The indexes below `k` of the lines that leave the `n x n` grid.
pub open spec fn abandoned_upto(n: int, lines: Seq<Vec<Coord>>, k: int) -> Seq<usize>
    decreases k,
{
    if k <= 0 {
        seq![]
    } else {
        let prev = abandoned_upto(n, lines, k - 1);
        if fits(n, lines[k - 1]@) { prev } else { prev.push((k - 1) as usize) }
    }
}

/// Carves every tunnel line in turn. A line with a point off the grid is
/// abandoned and the others are still carved; the indexes of the abandoned
/// lines are returned in order. Only wall cells become tunnel.
pub fn connect_rooms(lines: &Vec<Vec<Coord>>, tile_map: &mut TileMap, umap: &mut UMap8) -> (r: Vec<usize>)
    requires
        is_square(old(tile_map)@, old(tile_map)@.len() as nat),
        is_square(old(umap)@, old(tile_map)@.len() as nat),
    ensures
        is_square(final(tile_map)@, old(tile_map)@.len() as nat),
        is_square(final(umap)@, old(tile_map)@.len() as nat),
        r@ == abandoned_upto(old(tile_map)@.len() as int, lines@, lines@.len() as int),
        forall|a: int, b: int|
            0 <= a < old(tile_map)@.len() && 0 <= b < old(tile_map)@.len() ==> #[trigger] cell(final(tile_map)@, a, b)
                == (if on_tunnel(old(tile_map)@.len() as int, lines@, at(a, b)) && cell(old(tile_map)@, a, b)
                == Tile::Wall {
                Tile::Tunnel(0)
            } else {
                cell(old(tile_map)@, a, b)
            }),
        forall|a: int, b: int|
            0 <= a < old(tile_map)@.len() && 0 <= b < old(tile_map)@.len() ==> #[trigger] cell(final(umap)@, a, b)
                == (if on_tunnel(old(tile_map)@.len() as int, lines@, at(a, b)) && cell(old(tile_map)@, a, b)
                == Tile::Wall {
                0
            } else {
                cell(old(umap)@, a, b)
            }),
        forall|a: int, b: int|
            0 <= a < old(tile_map)@.len() && 0 <= b < old(tile_map)@.len() && #[trigger] cell(final(tile_map)@, a, b)
                == Tile::Tunnel(0) ==> cell(old(tile_map)@, a, b) == Tile::Wall || cell(old(tile_map)@, a, b)
                == Tile::Tunnel(0),
{
    let ghost m0 = tile_map@;
    let ghost u0 = umap@;
    let ghost n = m0.len() as int;
    let mut abandoned: Vec<usize> = Vec::new();
    let mut k: usize = 0;
    while k < lines.len()
        invariant
            n == m0.len(),
            is_square(m0, n as nat),
            is_square(u0, n as nat),
            is_square(tile_map@, n as nat),
            is_square(umap@, n as nat),
            k <= lines@.len(),
            abandoned@ == abandoned_upto(n, lines@, k as int),
            forall|a: int, b: int|
                0 <= a < n && 0 <= b < n ==> #[trigger] cell(tile_map@, a, b) == (if on_tunnel(
                    n,
                    lines@.subrange(0, k as int),
                    at(a, b),
                ) && cell(m0, a, b) == Tile::Wall {
                    Tile::Tunnel(0)
                } else {
                    cell(m0, a, b)
                }) && cell(umap@, a, b) == (if on_tunnel(n, lines@.subrange(0, k as int), at(a, b))
                    && cell(m0, a, b) == Tile::Wall {
                    0
                } else {
                    cell(u0, a, b)
                }),
        decreases lines.len() - k,
    {
        let ghost bt = tile_map@;
        let ghost bu = umap@;
        let ghost pre = lines@.subrange(0, k as int);
        let ghost nxt = lines@.subrange(0, k + 1);
        let res = carve_tunnel(&lines[k], tile_map, umap);
        assert forall|a: int, b: int|
            0 <= a < n && 0 <= b < n implies #[trigger] cell(tile_map@, a, b) == (if on_tunnel(n, nxt, at(a, b))
                && cell(m0, a, b) == Tile::Wall {
                Tile::Tunnel(0)
            } else {
                cell(m0, a, b)
            }) && cell(umap@, a, b) == (if on_tunnel(n, nxt, at(a, b)) && cell(m0, a, b) == Tile::Wall {
                0
            } else {
                cell(u0, a, b)
            }) by {
            assert(cell(bt, a, b) == (if on_tunnel(n, pre, at(a, b)) && cell(m0, a, b) == Tile::Wall {
                Tile::Tunnel(0)
            } else {
                cell(m0, a, b)
            }));
            assert(cell(bu, a, b) == (if on_tunnel(n, pre, at(a, b)) && cell(m0, a, b) == Tile::Wall {
                0
            } else {
                cell(u0, a, b)
            }));
            assert(nxt[k as int] == lines@[k as int]);
            if on_tunnel(n, pre, at(a, b)) {
                let w = choose|w: int| 0 <= w < pre.len() && fits(n, pre[w]@) && #[trigger] pre[w]@.contains(at(a, b));
                assert(nxt[w] == pre[w]);
                assert(on_tunnel(n, nxt, at(a, b)));
            }
            if on_tunnel(n, nxt, at(a, b)) {
                let w = choose|w: int| 0 <= w < nxt.len() && fits(n, nxt[w]@) && #[trigger] nxt[w]@.contains(at(a, b));
                if w < k {
                    assert(nxt[w] == pre[w]);
                    assert(on_tunnel(n, pre, at(a, b)));
                }
            }
            if res.is_ok() {
                assert(cell(tile_map@, a, b) == carved_tile(bt, lines@[k as int]@, at(a, b)));
            }
        }
        if res.is_err() {
            abandoned.push(k);
        }
        k += 1;
    }
    assert(lines@.subrange(0, lines@.len() as int) =~= lines@);
    assert forall|a: int, b: int| 0 <= a < n && 0 <= b < n implies #[trigger] cell(umap@, a, b) == (if on_tunnel(
        n,
        lines@,
        at(a, b),
    ) && cell(m0, a, b) == Tile::Wall {
        0
    } else {
        cell(u0, a, b)
    }) by {
        assert(lines@.subrange(0, k as int) == lines@);
        assert(cell(tile_map@, a, b) == (if on_tunnel(n, lines@.subrange(0, k as int), at(a, b)) && cell(m0, a, b) == Tile::Wall {
            Tile::Tunnel(0)
        } else {
            cell(m0, a, b)
        }));
    }
    abandoned
}

} // verus!
