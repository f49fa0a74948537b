use crate::types::Coord;
use vstd::prelude::*;

verus! {

/// Coordinates small enough for exact squared distances and sums.
pub open spec fn in_range(c: Coord) -> bool {
    c.x < u32::MAX && c.y < u32::MAX
}

/// Squared Euclidean distance between two cells.
pub open spec fn dist2(a: Coord, b: Coord) -> int {
    (a.x - b.x) * (a.x - b.x) + (a.y - b.y) * (a.y - b.y)
}

/// Sum of the x components.
pub open spec fn sum_x(s: Seq<Coord>) -> int
    decreases s.len(),
{
    if s.len() == 0 { 0 } else { sum_x(s.drop_last()) + s.last().x }
}

/// Sum of the y components.
pub open spec fn sum_y(s: Seq<Coord>) -> int
    decreases s.len(),
{
    if s.len() == 0 { 0 } else { sum_y(s.drop_last()) + s.last().y }
}

/// The component-wise mean of `s`, rounded down, over `count` items.
pub open spec fn mean_over(s: Seq<Coord>, count: int) -> Coord {
    Coord { x: (sum_x(s) / count) as usize, y: (sum_y(s) / count) as usize }
}

/// The tiles that `edges` indexes.
pub open spec fn picked(tiles: Seq<Coord>, edges: Seq<usize>) -> Seq<Coord> {
    edges.map_values(|i: usize| tiles[i as int])
}

/// Every index of `edges` points into `tiles`.
pub open spec fn valid_indexes(tiles: Seq<Coord>, edges: Seq<usize>) -> bool {
    forall|k: int| 0 <= k < edges.len() ==> #[trigger] edges[k] < tiles.len()
}

/// The smallest squared distance from `t` to a point of `pts` (0 when there is none).
pub open spec fn min_dist(t: Coord, pts: Seq<Coord>) -> int
    decreases pts.len(),
{
    if pts.len() == 0 {
        0
    } else if pts.len() == 1 {
        dist2(t, pts[0])
    } else {
        let m = min_dist(t, pts.drop_last());
        let d = dist2(t, pts.last());
        if d < m { d } else { m }
    }
}

/// The `k`-th tile is not one of the edge tiles.
pub open spec fn interior(tiles: Seq<Coord>, edges: Seq<usize>, k: int) -> bool {
    !picked(tiles, edges).contains(tiles[k])
}

/// The room center: the first interior tile whose smallest distance to an
/// edge tile is largest; the mean of all tiles where every tile is an edge
/// tile; the first tile where there are no edge tiles.
pub open spec fn is_center(tiles: Seq<Coord>, edges: Seq<usize>, c: Coord) -> bool {
    let e = picked(tiles, edges);
    if forall|k: int| 0 <= k < tiles.len() ==> e.contains(#[trigger] tiles[k]) {
        c == mean_over(tiles, tiles.len() as int)
    } else if edges.len() == 0 {
        c == tiles[0]
    } else {
        exists|k: int|
            #![trigger tiles[k]]
            0 <= k < tiles.len() && interior(tiles, edges, k) && c == tiles[k] && (forall|j: int|
                0 <= j < tiles.len() && interior(tiles, edges, j) ==> #[trigger] min_dist(
                    tiles[j],
                    e,
                ) <= min_dist(tiles[k], e)) && (forall|j: int|
                0 <= j < k && interior(tiles, edges, j) ==> #[trigger] min_dist(tiles[j], e)
                    < min_dist(tiles[k], e))
    }
}

/// Squared distance between two cells.
pub fn dist_squared(a: &Coord, b: &Coord) -> (r: u128)
    requires
        in_range(*a),
        in_range(*b),
    ensures
        r == dist2(*a, *b),
{
    let dx: u128 = if a.x >= b.x { (a.x - b.x) as u128 } else { (b.x - a.x) as u128 };
    let dy: u128 = if a.y >= b.y { (a.y - b.y) as u128 } else { (b.y - a.y) as u128 };
    assert(dx * dx <= 0xffff_ffffu128 * 0xffff_ffffu128) by (nonlinear_arith)
        requires dx <= 0xffff_ffffu128;
    assert(dy * dy <= 0xffff_ffffu128 * 0xffff_ffffu128) by (nonlinear_arith)
        requires dy <= 0xffff_ffffu128;
    assert((a.x - b.x) * (a.x - b.x) == dx * dx) by (nonlinear_arith)
        requires dx == a.x - b.x || dx == b.x - a.x;
    assert((a.y - b.y) * (a.y - b.y) == dy * dy) by (nonlinear_arith)
        requires dy == a.y - b.y || dy == b.y - a.y;
    dx * dx + dy * dy
}

proof fn lemma_sum_bounds(s: Seq<Coord>)
    requires
        forall|k: int| 0 <= k < s.len() ==> in_range(#[trigger] s[k]),
    ensures
        0 <= sum_x(s) <= s.len() * 0xffff_ffff,
        0 <= sum_y(s) <= s.len() * 0xffff_ffff,
    decreases s.len(),
{
    if s.len() > 0 {
        lemma_sum_bounds(s.drop_last());
        assert(in_range(s[s.len() - 1]));
    }
}

/// Component-wise sums of `s` as exact integers.
fn coord_sums(s: &[Coord]) -> (r: (u128, u128))
    requires
        forall|k: int| 0 <= k < s@.len() ==> in_range(#[trigger] s@[k]),
    ensures
        r.0 == sum_x(s@),
        r.1 == sum_y(s@),
{
    let mut sx: u128 = 0;
    let mut sy: u128 = 0;
    let mut i: usize = 0;
    while i < s.len()
        invariant
            i <= s@.len(),
            forall|k: int| 0 <= k < s@.len() ==> in_range(#[trigger] s@[k]),
            sx == sum_x(s@.subrange(0, i as int)),
            sy == sum_y(s@.subrange(0, i as int)),
        decreases s.len() - i,
    {
        let ghost pre = s@.subrange(0, i as int);
        let ghost nxt = s@.subrange(0, i + 1);
        assert(nxt.drop_last() =~= pre);
        proof {
            lemma_sum_bounds(nxt);
            assert(nxt.len() * 0xffff_ffff <= 0x1_0000_0000_0000_0000 * 0xffff_ffff) by (nonlinear_arith)
                requires nxt.len() <= 0x1_0000_0000_0000_0000;
        }
        sx = sx + s[i].x as u128;
        sy = sy + s[i].y as u128;
        i += 1;
    }
    assert(s@.subrange(0, s@.len() as int) =~= s@);
    (sx, sy)
}

/// The component-wise mean of all tiles, rounded down.
pub fn average_center(tiles: &[Coord]) -> (r: Coord)
    requires
        tiles@.len() > 0,
        forall|k: int| 0 <= k < tiles@.len() ==> in_range(#[trigger] tiles@[k]),
    ensures
        r == mean_over(tiles@, tiles@.len() as int),
{
    let (sx, sy) = coord_sums(tiles);
    let n = tiles.len() as u128;
    proof {
        lemma_sum_bounds(tiles@);
        assert(sum_x(tiles@) / (n as int) <= 0xffff_ffff) by (nonlinear_arith)
            requires 0 <= sum_x(tiles@) <= n * 0xffff_ffff, n > 0;
        assert(sum_y(tiles@) / (n as int) <= 0xffff_ffff) by (nonlinear_arith)
            requires 0 <= sum_y(tiles@) <= n * 0xffff_ffff, n > 0;
    }
    Coord { x: (sx / n) as usize, y: (sy / n) as usize }
}

/// The sum of the edge tiles divided by the number of all tiles.
pub fn edge_average_center(tiles: &[Coord], edges: &[usize]) -> (r: Coord)
    requires
        tiles@.len() > 0,
        edges@.len() <= tiles@.len(),
        valid_indexes(tiles@, edges@),
        forall|k: int| 0 <= k < tiles@.len() ==> in_range(#[trigger] tiles@[k]),
    ensures
        r == mean_over(picked(tiles@, edges@), tiles@.len() as int),
{
    let mut z: Vec<Coord> = Vec::new();
    let mut i: usize = 0;
    while i < edges.len()
        invariant
            i <= edges@.len(),
            valid_indexes(tiles@, edges@),
            z@ =~= picked(tiles@, edges@.subrange(0, i as int)),
        decreases edges.len() - i,
    {
        z.push(tiles[edges[i]]);
        i += 1;
        assert(z@ =~= picked(tiles@, edges@.subrange(0, i as int)));
    }
    assert(edges@.subrange(0, edges@.len() as int) =~= edges@);
    proof {
        assert forall|k: int| 0 <= k < z@.len() implies in_range(#[trigger] z@[k]) by {
            assert(edges@[k] < tiles@.len());
        }
    }
    let (sx, sy) = coord_sums(z.as_slice());
    let n = tiles.len() as u128;
    proof {
        lemma_sum_bounds(z@);
        assert forall|k: int| 0 <= k < z@.len() implies in_range(#[trigger] z@[k]) by {
            assert(edges@[k] < tiles@.len());
        }
        lemma_sum_bounds(z@);
        assert(sum_x(z@) / (n as int) <= 0xffff_ffff) by (nonlinear_arith)
            requires 0 <= sum_x(z@) <= z@.len() * 0xffff_ffff, n > 0, z@.len() <= n;
        assert(sum_y(z@) / (n as int) <= 0xffff_ffff) by (nonlinear_arith)
            requires 0 <= sum_y(z@) <= z@.len() * 0xffff_ffff, n > 0, z@.len() <= n;
    }
    Coord { x: (sx / n) as usize, y: (sy / n) as usize }
}

/// Whether `c` is one of the tiles that `edges` indexes.
fn is_picked(tiles: &[Coord], edges: &[usize], c: Coord) -> (r: bool)
    requires
        valid_indexes(tiles@, edges@),
    ensures
        r == picked(tiles@, edges@).contains(c),
{
    let ghost e = picked(tiles@, edges@);
    let mut i: usize = 0;
    while i < edges.len()
        invariant
            i <= edges@.len(),
            valid_indexes(tiles@, edges@),
            e == picked(tiles@, edges@),
            forall|k: int| 0 <= k < i ==> e[k] != c,
        decreases edges.len() - i,
    {
        if tiles[edges[i]] == c {
            assert(e[i as int] == c);
            return true;
        }
        i += 1;
    }
    assert(!e.contains(c)) by {
        if e.contains(c) {
            let k = choose|k: int| 0 <= k < e.len() && e[k] == c;
            assert(e[k] != c);
        }
    }
    false
}

/// The smallest squared distance from `t` to the tiles that `edges` indexes.
fn min_edge_dist(t: Coord, tiles: &[Coord], edges: &[usize]) -> (r: u128)
    requires
        in_range(t),
        valid_indexes(tiles@, edges@),
        forall|k: int| 0 <= k < tiles@.len() ==> in_range(#[trigger] tiles@[k]),
    ensures
        r == min_dist(t, picked(tiles@, edges@)),
{
    if edges.len() == 0 {
        assert(picked(tiles@, edges@).len() == 0);
        return 0;
    }
    let ghost e = picked(tiles@, edges@);
    assert(tiles@[edges@[0] as int] == e[0]);
    let mut m = dist_squared(&t, &tiles[edges[0]]);
    assert(e.subrange(0, 1).len() == 1);
    let mut i: usize = 1;
    while i < edges.len()
        invariant
            1 <= i <= edges@.len(),
            in_range(t),
            valid_indexes(tiles@, edges@),
            forall|k: int| 0 <= k < tiles@.len() ==> in_range(#[trigger] tiles@[k]),
            e == picked(tiles@, edges@),
            m == min_dist(t, e.subrange(0, i as int)),
        decreases edges.len() - i,
    {
        let ghost nxt = e.subrange(0, i + 1);
        assert(nxt.drop_last() =~= e.subrange(0, i as int));
        assert(nxt.last() == tiles@[edges@[i as int] as int]);
        let d = dist_squared(&t, &tiles[edges[i]]);
        if d < m {
            m = d;
        }
        i += 1;
    }
    assert(e.subrange(0, edges@.len() as int) =~= e);
    m
}

/// The approximate center of the largest circle inside a room: among the
/// tiles that are not edge tiles, the first one whose nearest edge tile is
/// farthest away. Falls back to the mean of all tiles where every tile is an
/// edge tile, and to the first tile where no edge tile is given.
pub fn max_inscribed_circle(tiles: &[Coord], edges: &[usize]) -> (r: Coord)
    requires
        tiles@.len() > 0,
        valid_indexes(tiles@, edges@),
        forall|k: int| 0 <= k < tiles@.len() ==> in_range(#[trigger] tiles@[k]),
    ensures
        is_center(tiles@, edges@, r),
{
    let ghost e = picked(tiles@, edges@);
    let n = tiles.len();
    let mut all_edges = true;
    let mut i: usize = 0;
    while i < n
        invariant
            n == tiles@.len(),
            i <= n,
            valid_indexes(tiles@, edges@),
            e == picked(tiles@, edges@),
            all_edges == (forall|k: int| 0 <= k < i ==> e.contains(#[trigger] tiles@[k])),
        decreases n - i,
    {
        if !is_picked(tiles, edges, tiles[i]) {
            all_edges = false;
        }
        i += 1;
    }
    if all_edges {
        return average_center(tiles);
    }
    if edges.len() == 0 {
        return tiles[0];
    }
    let mut found = false;
    let mut best: u128 = 0;
    let mut best_k: usize = 0;
    let mut i: usize = 0;
    while i < n
        invariant
            n == tiles@.len(),
            i <= n,
            valid_indexes(tiles@, edges@),
            forall|k: int| 0 <= k < tiles@.len() ==> in_range(#[trigger] tiles@[k]),
            e == picked(tiles@, edges@),
            found ==> {
                &&& best_k < i
                &&& interior(tiles@, edges@, best_k as int)
                &&& best == min_dist(tiles@[best_k as int], e)
                &&& forall|j: int|
                    0 <= j < i && interior(tiles@, edges@, j) ==> #[trigger] min_dist(tiles@[j], e)
                        <= best
                &&& forall|j: int|
                    0 <= j < best_k && interior(tiles@, edges@, j) ==> #[trigger] min_dist(
                        tiles@[j],
                        e,
                    ) < best
            },
            !found ==> forall|j: int| 0 <= j < i ==> !interior(tiles@, edges@, j),
        decreases n - i,
    {
        if !is_picked(tiles, edges, tiles[i]) {
            let d = min_edge_dist(tiles[i], tiles, edges);
            if !found || d > best {
                found = true;
                best = d;
                best_k = i;
            }
        }
        i += 1;
    }
    assert(found) by {
        let k = choose|k: int| 0 <= k < n && !e.contains(#[trigger] tiles@[k]);
        assert(interior(tiles@, edges@, k));
    }
    let c = tiles[best_k];
    assert(is_center(tiles@, edges@, c)) by {
        assert(interior(tiles@, edges@, best_k as int) && c == tiles@[best_k as int]);
    }
    c
}

proof fn lemma_sum_bounded(s: Seq<Coord>, b: int)
    requires
        forall|k: int| 0 <= k < s.len() ==> (#[trigger] s[k]).x <= b && s[k].y <= b,
    ensures
        sum_x(s) <= s.len() * b,
        sum_y(s) <= s.len() * b,
        sum_x(s) >= 0,
        sum_y(s) >= 0,
    decreases s.len(),
{
    if s.len() > 0 {
        lemma_sum_bounded(s.drop_last(), b);
        assert(s[s.len() - 1].x <= b);
        assert(s.drop_last().len() * b + b == s.len() * b) by (nonlinear_arith)
            requires s.drop_last().len() + 1 == s.len();
    }
}

/// A center of tiles that lie below `n` in both coordinates lies there too.
pub proof fn lemma_center_bounded(tiles: Seq<Coord>, edges: Seq<usize>, c: Coord, n: int)
    requires
        tiles.len() > 0,
        is_center(tiles, edges, c),
        forall|k: int| 0 <= k < tiles.len() ==> (#[trigger] tiles[k]).x < n && tiles[k].y < n,
    ensures
        c.x < n,
        c.y < n,
{
    let e = picked(tiles, edges);
    if forall|k: int| 0 <= k < tiles.len() ==> e.contains(#[trigger] tiles[k]) {
        lemma_sum_bounded(tiles, n - 1);
        let len = tiles.len() as int;
        assert(sum_x(tiles) / len <= n - 1) by (nonlinear_arith)
            requires 0 <= sum_x(tiles) <= len * (n - 1), len > 0;
        assert(sum_y(tiles) / len <= n - 1) by (nonlinear_arith)
            requires 0 <= sum_y(tiles) <= len * (n - 1), len > 0;
        assert(0 <= sum_x(tiles) / len) by (nonlinear_arith)
            requires 0 <= sum_x(tiles), len > 0;
        assert(0 <= sum_y(tiles) / len) by (nonlinear_arith)
            requires 0 <= sum_y(tiles), len > 0;
    } else if edges.len() == 0 {
        assert(tiles[0].x < n);
    } else {
        let k = choose|k: int|
            #![trigger tiles[k]]
            0 <= k < tiles.len() && interior(tiles, edges, k) && c == tiles[k] && (forall|j: int|
                0 <= j < tiles.len() && interior(tiles, edges, j) ==> #[trigger] min_dist(
                    tiles[j],
                    e,
                ) <= min_dist(tiles[k], e)) && (forall|j: int|
                0 <= j < k && interior(tiles, edges, j) ==> #[trigger] min_dist(tiles[j], e)
                    < min_dist(tiles[k], e));
        assert(tiles[k].x < n);
    }
}

/// A list of tiles has one center.
pub proof fn lemma_center_unique(tiles: Seq<Coord>, edges: Seq<usize>, c1: Coord, c2: Coord)
    requires
        is_center(tiles, edges, c1),
        is_center(tiles, edges, c2),
    ensures
        c1 == c2,
{
    let e = picked(tiles, edges);
    if !(forall|k: int| 0 <= k < tiles.len() ==> e.contains(#[trigger] tiles[k])) && edges.len() != 0 {
        let k1 = choose|k: int|
            #![trigger tiles[k]]
            0 <= k < tiles.len() && interior(tiles, edges, k) && c1 == tiles[k] && (forall|j: int|
                0 <= j < tiles.len() && interior(tiles, edges, j) ==> #[trigger] min_dist(tiles[j], e)
                    <= min_dist(tiles[k], e)) && (forall|j: int|
                0 <= j < k && interior(tiles, edges, j) ==> #[trigger] min_dist(tiles[j], e) < min_dist(
                    tiles[k],
                    e,
                ));
        let k2 = choose|k: int|
            #![trigger tiles[k]]
            0 <= k < tiles.len() && interior(tiles, edges, k) && c2 == tiles[k] && (forall|j: int|
                0 <= j < tiles.len() && interior(tiles, edges, j) ==> #[trigger] min_dist(tiles[j], e)
                    <= min_dist(tiles[k], e)) && (forall|j: int|
                0 <= j < k && interior(tiles, edges, j) ==> #[trigger] min_dist(tiles[j], e) < min_dist(
                    tiles[k],
                    e,
                ));
        if k1 < k2 {
            assert(min_dist(tiles[k1], e) < min_dist(tiles[k2], e));
            assert(min_dist(tiles[k2], e) <= min_dist(tiles[k1], e));
        } else if k2 < k1 {
            assert(min_dist(tiles[k2], e) < min_dist(tiles[k1], e));
            assert(min_dist(tiles[k1], e) <= min_dist(tiles[k2], e));
        }
    }
}

} // verus!
