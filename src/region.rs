use crate::room::{adjacent, adjacent_in, get_adjacent_coords};
use crate::tile_map::{Status, Tile, TileMap};
use crate::types::{cell, is_square, Coord};
use vstd::prelude::*;

verus! {

/// `c` lies on the `n x n` grid.
pub open spec fn in_grid(n: int, c: Coord) -> bool {
    c.x < n && c.y < n
}

/// `c` is a room cell that no flood fill has claimed yet.
pub open spec fn open_at(m: Seq<Vec<Tile>>, c: Coord) -> bool {
    in_grid(m.len() as int, c) && cell(m, c.x as int, c.y as int) == Tile::Room(Status::Undesignated)
}

/// `p` is a 4-connected walk over unclaimed room cells.
pub open spec fn is_open_path(m: Seq<Vec<Tile>>, p: Seq<Coord>) -> bool {
    &&& p.len() > 0
    &&& forall|i: int| 0 <= i < p.len() ==> open_at(m, #[trigger] p[i])
    &&& forall|i: int| 0 <= i < p.len() - 1 ==> #[trigger] adjacent(p[i], p[i + 1])
}

/// `c` can be reached from `s` over unclaimed room cells.
pub open spec fn reachable(m: Seq<Vec<Tile>>, s: Coord, c: Coord) -> bool {
    exists|p: Seq<Coord>| #[trigger] is_open_path(m, p) && p[0] == s && p.last() == c
}

/// The cells that a flood fill from `s` claims.
pub open spec fn region(m: Seq<Vec<Tile>>, s: Coord) -> Set<Coord> {
    Set::new(|c: Coord| reachable(m, s, c))
}

/// Every unclaimed neighbour of a cell of `s` is in `s`.
pub open spec fn closed(m: Seq<Vec<Tile>>, s: Seq<Coord>) -> bool {
    forall|c: Coord, n: Coord|
        s.contains(c) && open_at(m, n) && #[trigger] adjacent(c, n) ==> #[trigger] s.contains(n)
}

/// Number of unclaimed room cells among the first `n` of a row.
pub open spec fn row_open(r: Seq<Tile>, n: int) -> nat
    decreases n,
{
    if n <= 0 {
        0
    } else {
        row_open(r, n - 1) + if r[n - 1] == Tile::Room(Status::Undesignated) { 1nat } else { 0nat }
    }
}

/// Number of unclaimed room cells among the first `n` rows.
pub open spec fn grid_open(m: Seq<Vec<Tile>>, n: int) -> nat
    decreases n,
{
    if n <= 0 { 0 } else { grid_open(m, n - 1) + row_open(m[n - 1]@, m[n - 1]@.len() as int) }
}

proof fn lemma_row_open_update(r: Seq<Tile>, n: int, y: int, t: Tile)
    requires
        0 <= y < n <= r.len(),
        r[y] == Tile::Room(Status::Undesignated),
        t != Tile::Room(Status::Undesignated),
    ensures
        row_open(r.update(y, t), n) + 1 == row_open(r, n),
    decreases n,
{
    if n - 1 > y {
        lemma_row_open_update(r, n - 1, y, t);
    } else {
        lemma_row_open_same(r, r.update(y, t), n - 1);
    }
}

proof fn lemma_row_open_same(a: Seq<Tile>, b: Seq<Tile>, n: int)
    requires
        0 <= n <= a.len(),
        n <= b.len(),
        forall|i: int| 0 <= i < n ==> a[i] == b[i],
    ensures
        row_open(a, n) == row_open(b, n),
    decreases n,
{
    if n > 0 {
        lemma_row_open_same(a, b, n - 1);
    }
}

/// Claiming an unclaimed cell lowers the count of unclaimed cells by one.
pub proof fn lemma_grid_open_update(m: Seq<Vec<Tile>>, m2: Seq<Vec<Tile>>, n: int, x: int, y: int, t: Tile)
    requires
        0 <= x < n <= m.len(),
        m2.len() == m.len(),
        0 <= y < m[x]@.len(),
        m[x]@[y] == Tile::Room(Status::Undesignated),
        t != Tile::Room(Status::Undesignated),
        m2[x]@ == m[x]@.update(y, t),
        forall|i: int| 0 <= i < m.len() && i != x ==> m2[i] == m[i],
    ensures
        grid_open(m2, n) + 1 == grid_open(m, n),
    decreases n,
{
    if n - 1 > x {
        lemma_grid_open_update(m, m2, n - 1, x, y, t);
    } else {
        lemma_grid_open_same(m, m2, n - 1);
        lemma_row_open_update(m[x]@, m[x]@.len() as int, y, t);
    }
}

proof fn lemma_grid_open_same(a: Seq<Vec<Tile>>, b: Seq<Vec<Tile>>, n: int)
    requires
        0 <= n <= a.len(),
        n <= b.len(),
        forall|i: int| 0 <= i < n ==> a[i] == b[i],
    ensures
        grid_open(a, n) == grid_open(b, n),
    decreases n,
{
    if n > 0 {
        lemma_grid_open_same(a, b, n - 1);
    }
}

/// Every cell of a walk over unclaimed cells that starts in a closed set lies in it.
pub proof fn lemma_closed_path(m: Seq<Vec<Tile>>, s: Seq<Coord>, p: Seq<Coord>)
    requires
        is_open_path(m, p),
        s.contains(p[0]),
        closed(m, s),
    ensures
        s.contains(p.last()),
    decreases p.len(),
{
    if p.len() > 1 {
        let q = p.drop_last();
        assert(is_open_path(m, q)) by {
            assert forall|i: int| 0 <= i < q.len() - 1 implies #[trigger] adjacent(q[i], q[i + 1]) by {
                assert(adjacent(p[i], p[i + 1]));
            }
            assert forall|i: int| 0 <= i < q.len() implies open_at(m, #[trigger] q[i]) by {
                assert(open_at(m, p[i]));
            }
        }
        lemma_closed_path(m, s, q);
        let i = p.len() - 2;
        assert(adjacent(p[i], p[i + 1]));
        assert(open_at(m, p[i + 1]));
        assert(q.last() == p[i]);
    }
}

/// Writes one cell of a tile grid.
pub fn set_tile(m: &mut TileMap, c: Coord, t: Tile)
    requires
        c.x < old(m)@.len(),
        c.y < old(m)@[c.x as int]@.len(),
    ensures
        final(m)@.len() == old(m)@.len(),
        final(m)@[c.x as int]@ == old(m)@[c.x as int]@.update(c.y as int, t),
        forall|i: int| 0 <= i < old(m)@.len() && i != c.x ==> final(m)@[i] == old(m)@[i],
{
    m[c.x].set(c.y, t);
}

/// The cell at `(i, j)`.
pub open spec fn at(i: int, j: int) -> Coord {
    Coord { x: i as usize, y: j as usize }
}

/// The direction of the neighbour `d` of `c`: 0 above, 1 below, 2 left, 3 right.
pub open spec fn dir_code(c: Coord, d: Coord) -> int {
    if d.x == c.x && d.y + 1 == c.y {
        0
    } else if d.x == c.x && c.y + 1 == d.y {
        1
    } else if d.y == c.y && d.x + 1 == c.x {
        2
    } else {
        3
    }
}

/// Cell `j` of `r` was discovered from cell `h`: the first earlier cell next to it.
pub open spec fn discovered_from(r: Seq<Coord>, j: int, h: int) -> bool {
    &&& 0 <= h < j
    &&& adjacent(r[h], r[j])
    &&& forall|g: int| 0 <= g < h ==> !adjacent(#[trigger] r[g], r[j])
}

/// Cell `j` of `r` was discovered from some earlier cell.
pub open spec fn has_parent(r: Seq<Coord>, j: int) -> bool {
    exists|h: int| #[trigger] discovered_from(r, j, h)
}

/// With parents `par`, cell `j1` comes before cell `j2` in breadth-first
/// order: it has an earlier parent, or the same parent and an earlier direction.
pub open spec fn bfs_before(r: Seq<Coord>, par: Seq<int>, j1: int, j2: int) -> bool {
    par[j1] < par[j2] || (par[j1] == par[j2] && dir_code(r[par[j1]], r[j1]) < dir_code(r[par[j1]], r[j2]))
}

/// `r` is in breadth-first discovery order: every cell after the first was
/// discovered from an earlier cell, and cells come ordered by the cell they
/// were discovered from, then by direction (above, below, left, right).
pub open spec fn in_discovery_order(r: Seq<Coord>) -> bool {
    &&& forall|j: int| 1 <= j < r.len() ==> #[trigger] has_parent(r, j)
    &&& forall|j1: int, j2: int, h1: int, h2: int|
        1 <= j1 < j2 < r.len() && #[trigger] discovered_from(r, j1, h1) && #[trigger] discovered_from(r, j2, h2)
            ==> h1 < h2 || (h1 == h2 && dir_code(r[h1], r[j1]) < dir_code(r[h1], r[j2]))
}

proof fn lemma_discovered_unique(r: Seq<Coord>, j: int, h1: int, h2: int)
    requires
        discovered_from(r, j, h1),
        discovered_from(r, j, h2),
    ensures
        h1 == h2,
{
    if h1 < h2 {
        assert(!adjacent(r[h1], r[j]));
    } else if h2 < h1 {
        assert(!adjacent(r[h2], r[j]));
    }
}

/// `adjacent_in` lists exactly the in-bounds 4-neighbours.
pub proof fn lemma_adjacent_in(c: Coord, n: int)
    requires
        in_grid(n, c),
        n <= usize::MAX,
    ensures
        forall|d: Coord| in_grid(n, d) && adjacent(c, d) ==> #[trigger] adjacent_in(c, n).contains(d),
        forall|k: int| 0 <= k < adjacent_in(c, n).len() ==> in_grid(n, #[trigger] adjacent_in(c, n)[k])
            && adjacent(c, adjacent_in(c, n)[k]),
        forall|k1: int, k2: int|
            0 <= k1 < k2 < adjacent_in(c, n).len() ==> dir_code(c, #[trigger] adjacent_in(c, n)[k1]) < dir_code(
                c,
                #[trigger] adjacent_in(c, n)[k2],
            ),
{
    let s = adjacent_in(c, n);
    let up: Seq<Coord> = if c.y > 0 { seq![Coord { x: c.x, y: (c.y - 1) as usize }] } else { seq![] };
    let down: Seq<Coord> = if c.y < n - 1 { seq![Coord { x: c.x, y: (c.y + 1) as usize }] } else { seq![] };
    let left: Seq<Coord> = if c.x > 0 { seq![Coord { x: (c.x - 1) as usize, y: c.y }] } else { seq![] };
    let right: Seq<Coord> = if c.x < n - 1 { seq![Coord { x: (c.x + 1) as usize, y: c.y }] } else { seq![] };
    assert(s == up + down + left + right);
    assert forall|d: Coord| in_grid(n, d) && adjacent(c, d) implies #[trigger] s.contains(d) by {
        if d.x == c.x && d.y + 1 == c.y {
            assert(s[0] == d);
        } else if d.x == c.x && c.y + 1 == d.y {
            assert(s[up.len() as int] == d);
        } else if d.y == c.y && d.x + 1 == c.x {
            assert(s[(up.len() + down.len()) as int] == d);
        } else {
            assert(s[(up.len() + down.len() + left.len()) as int] == d);
        }
    }
    let a = up.len() as int;
    let b = a + down.len();
    let e = b + left.len();
    assert forall|k: int| 0 <= k < s.len() implies in_grid(n, #[trigger] s[k]) && adjacent(c, s[k]) && dir_code(c, s[k])
        == (if k < a { 0int } else if k < b { 1int } else if k < e { 2int } else { 3int }) by {
        if k < a {
            assert(s[k] == up[k]);
        } else if k < b {
            assert(s[k] == down[k - a]);
        } else if k < e {
            assert(s[k] == left[k - b]);
        } else {
            assert(s[k] == right[k - e]);
        }
    }
    assert forall|k1: int, k2: int| 0 <= k1 < k2 < s.len() implies dir_code(c, #[trigger] s[k1]) < dir_code(c, #[trigger] s[k2]) by {
        assert(in_grid(n, s[k1]) && in_grid(n, s[k2]));
    }
}

/// Claims, breadth first, every unclaimed room cell 4-connected to `start`
/// over unclaimed room cells, marking each `Room(Designated(id))` as it is
/// queued. Returns the claimed cells in discovery order.
pub fn flood_fill(start: Coord, m: &mut TileMap, id: u16) -> (r: Vec<Coord>)
    requires
        is_square(old(m)@, old(m)@.len() as nat),
        open_at(old(m)@, start),
    ensures
        is_square(final(m)@, old(m)@.len() as nat),
        r@.len() >= 1,
        r@[0] == start,
        r@.no_duplicates(),
        forall|c: Coord| #[trigger] r@.contains(c) <==> reachable(old(m)@, start, c),
        forall|k: int| 0 <= k < r@.len() ==> open_at(old(m)@, #[trigger] r@[k]),
        in_discovery_order(r@),
        forall|i: int, j: int|
            0 <= i < old(m)@.len() && 0 <= j < old(m)@.len() ==> #[trigger] cell(final(m)@, i, j) == (
            if r@.contains(at(i, j)) {
                Tile::Room(Status::Designated(id))
            } else {
                cell(old(m)@, i, j)
            }),
{
    let ghost m0 = m@;
    let res = m.len();
    let mut results: Vec<Coord> = Vec::new();
    results.push(start);
    proof {
        assert(is_open_path(m0, seq![start]));
        assert(reachable(m0, start, start));
        assert(m0[start.x as int]@[start.y as int] == Tile::Room(Status::Undesignated));
    }
    let ghost before = m@;
    set_tile(m, start, Tile::Room(Status::Designated(id)));
    proof {
        lemma_grid_open_update(before, m@, res as int, start.x as int, start.y as int, Tile::Room(Status::Designated(id)));
        assert forall|i: int, j: int| 0 <= i < res && 0 <= j < res implies #[trigger] cell(m@, i, j) == (
            if results@.contains(at(i, j)) {
                Tile::Room(Status::Designated(id))
            } else {
                cell(m0, i, j)
            }) by {
            if i == start.x && j == start.y {
                assert(results@[0] == at(i, j));
            } else {
                assert(!results@.contains(at(i, j)));
            }
        }
    }
    let ghost mut par: Seq<int> = seq![0int];
    let mut head: usize = 0;
    while head < results.len()
        invariant
            res == m0.len(),
            m@.len() == res,
            is_square(m0, res as nat),
            is_square(m@, res as nat),
            open_at(m0, start),
            head <= results@.len(),
            results@.len() >= 1,
            results@[0] == start,
            results@.no_duplicates(),
            forall|k: int| 0 <= k < results@.len() ==> open_at(m0, #[trigger] results@[k]),
            forall|k: int| 0 <= k < results@.len() ==> reachable(m0, start, #[trigger] results@[k]),
            forall|i: int, j: int|
                0 <= i < res && 0 <= j < res ==> #[trigger] cell(m@, i, j) == (if results@.contains(
                    at(i, j),
                ) {
                    Tile::Room(Status::Designated(id))
                } else {
                    cell(m0, i, j)
                }),
            forall|k: int, d: Coord|
                0 <= k < head && open_at(m0, d) && #[trigger] adjacent(results@[k], d)
                    ==> results@.contains(d),
            par.len() == results@.len(),
            forall|j: int| 1 <= j < results@.len() ==> discovered_from(results@, j, #[trigger] par[j]),
            forall|j1: int, j2: int| 1 <= j1 < j2 < results@.len() ==> #[trigger] bfs_before(results@, par, j1, j2),
            forall|j: int| 1 <= j < results@.len() ==> #[trigger] par[j] < head,
        decreases 2 * grid_open(m@, res as int) + results@.len() - head,
    {
        let tile = results[head];
        assert(open_at(m0, results@[head as int]));
        let adj = get_adjacent_coords(&tile, res);
        proof {
            lemma_adjacent_in(tile, res as int);
        }
        let ghost measure0 = 2 * grid_open(m@, res as int) + results@.len();
        let mut k: usize = 0;
        while k < adj.len()
            invariant
                res == m0.len(),
                m@.len() == res,
                is_square(m0, res as nat),
                is_square(m@, res as nat),
                head < results@.len(),
                tile == results@[head as int],
                in_grid(res as int, tile),
                adj@ == adjacent_in(tile, res as int),
                forall|q: int| 0 <= q < adj@.len() ==> in_grid(res as int, #[trigger] adj@[q]) && adjacent(tile, adj@[q]),
                k <= adj@.len(),
                results@.len() >= 1,
                results@[0] == start,
                results@.no_duplicates(),
                forall|q: int| 0 <= q < results@.len() ==> open_at(m0, #[trigger] results@[q]),
                forall|q: int| 0 <= q < results@.len() ==> reachable(m0, start, #[trigger] results@[q]),
                forall|i: int, j: int|
                    0 <= i < res && 0 <= j < res ==> #[trigger] cell(m@, i, j) == (if results@.contains(
                        at(i, j),
                    ) {
                        Tile::Room(Status::Designated(id))
                    } else {
                        cell(m0, i, j)
                    }),
                forall|q: int, d: Coord|
                    0 <= q < head && open_at(m0, d) && #[trigger] adjacent(results@[q], d)
                        ==> results@.contains(d),
                forall|q: int| 0 <= q < k && open_at(m0, #[trigger] adj@[q]) ==> results@.contains(adj@[q]),
                2 * grid_open(m@, res as int) + results@.len() <= measure0,
                forall|q1: int, q2: int| 0 <= q1 < q2 < adj@.len() ==> dir_code(tile, #[trigger] adj@[q1]) < dir_code(tile, #[trigger] adj@[q2]),
                par.len() == results@.len(),
                forall|j: int| 1 <= j < results@.len() ==> discovered_from(results@, j, #[trigger] par[j]),
                forall|j1: int, j2: int| 1 <= j1 < j2 < results@.len() ==> #[trigger] bfs_before(results@, par, j1, j2),
                forall|j: int|
                    1 <= j < results@.len() ==> #[trigger] par[j] < head || (par[j] == head && k < adj@.len() && dir_code(
                        tile,
                        results@[j],
                    ) < dir_code(tile, adj@[k as int])) || (par[j] == head && k >= adj@.len()),
            decreases adj@.len() - k,
        {
            let a = adj[k];
            assert(in_grid(res as int, adj@[k as int]));
            if m[a.x][a.y] == Tile::Room(Status::Undesignated) {
                proof {
                    assert(cell(m@, a.x as int, a.y as int) == Tile::Room(Status::Undesignated));
                    assert(at(a.x as int, a.y as int) == a);
                    assert(!results@.contains(a));
                    assert(open_at(m0, a));
                    assert(reachable(m0, start, tile));
                    let p = choose|p: Seq<Coord>| #[trigger] is_open_path(m0, p) && p[0] == start && p.last() == tile;
                    let p2 = p.push(a);
                    assert(is_open_path(m0, p2)) by {
                        assert forall|i: int| 0 <= i < p2.len() - 1 implies #[trigger] adjacent(p2[i], p2[i + 1]) by {
                            if i < p.len() - 1 {
                                assert(adjacent(p[i], p[i + 1]));
                            } else {
                                assert(adjacent(tile, adj@[k as int]));
                            }
                        }
                        assert forall|i: int| 0 <= i < p2.len() implies open_at(m0, #[trigger] p2[i]) by {
                            if i < p.len() {
                                assert(open_at(m0, p[i]));
                            }
                        }
                    }
                    assert(p2[0] == start && p2.last() == a);
                }
                let ghost before = m@;
                set_tile(m, a, Tile::Room(Status::Designated(id)));
                proof {
                    lemma_grid_open_update(before, m@, res as int, a.x as int, a.y as int, Tile::Room(Status::Designated(id)));
                }
                let ghost old_results = results@;
                let ghost old_par = par;
                results.push(a);
                proof {
                    par = par.push(head as int);
                    let nj = old_results.len() as int;
                    assert(results@[nj] == a);
                    assert(results@[head as int] == tile);
                    assert forall|g: int| 0 <= g < head implies !adjacent(#[trigger] results@[g], results@[nj]) by {
                        assert(results@[g] == old_results[g]);
                        if adjacent(old_results[g], a) {
                            assert(old_results.contains(a));
                        }
                    }
                    assert(discovered_from(results@, nj, par[nj]));
                    assert forall|j: int| 1 <= j < results@.len() implies discovered_from(results@, j, #[trigger] par[j]) by {
                        if j < nj {
                            assert(par[j] == old_par[j]);
                            assert(discovered_from(old_results, j, old_par[j]));
                            assert forall|g: int| 0 <= g < par[j] implies !adjacent(#[trigger] results@[g], results@[j]) by {
                                assert(results@[g] == old_results[g]);
                                assert(results@[j] == old_results[j]);
                            }
                            assert(results@[par[j]] == old_results[old_par[j]]);
                        }
                    }
                    assert forall|j1: int, j2: int| 1 <= j1 < j2 < results@.len() implies #[trigger] bfs_before(results@, par, j1, j2) by {
                        if j2 < nj {
                            assert(bfs_before(old_results, old_par, j1, j2));
                            assert(par[j1] == old_par[j1] && par[j2] == old_par[j2]);
                            assert(results@[j1] == old_results[j1] && results@[j2] == old_results[j2]);
                            assert(results@[par[j1]] == old_results[old_par[j1]]);
                        } else {
                            assert(par[j1] == old_par[j1]);
                            assert(results@[j1] == old_results[j1]);
                            if par[j1] == head {
                                assert(results@[par[j1]] == tile);
                            }
                        }
                    }
                    assert forall|j: int|
                        1 <= j < results@.len() implies #[trigger] par[j] < head || (par[j] == head && k + 1 < adj@.len() && dir_code(
                            tile,
                            results@[j],
                        ) < dir_code(tile, adj@[k + 1])) || (par[j] == head && k + 1 >= adj@.len()) by {
                        if j < nj {
                            assert(par[j] == old_par[j]);
                            assert(results@[j] == old_results[j]);
                        }
                        if par[j] == head && k + 1 < adj@.len() {
                            assert(dir_code(tile, adj@[k as int]) < dir_code(tile, adj@[k + 1]));
                        }
                    }
                    assert forall|i: int, j: int| 0 <= i < res && 0 <= j < res implies #[trigger] cell(m@, i, j) == (
                        if results@.contains(at(i, j)) {
                            Tile::Room(Status::Designated(id))
                        } else {
                            cell(m0, i, j)
                        }) by {
                        assert(cell(before, i, j) == (if old_results.contains(at(i, j)) {
                            Tile::Room(Status::Designated(id))
                        } else {
                            cell(m0, i, j)
                        }));
                        if i == a.x && j == a.y {
                            assert(results@[old_results.len() as int] == at(i, j));
                        } else {
                            assert(cell(m@, i, j) == cell(before, i, j));
                            if old_results.contains(at(i, j)) {
                                let w = choose|w: int| 0 <= w < old_results.len() && old_results[w] == at(i, j);
                                assert(results@[w] == at(i, j));
                            }
                            if results@.contains(at(i, j)) {
                                let w = choose|w: int| 0 <= w < results@.len() && results@[w] == at(i, j);
                                assert(w < old_results.len());
                                assert(old_results[w] == at(i, j));
                            }
                        }
                    }
                    assert forall|q: int, d: Coord|
                        0 <= q < head && open_at(m0, d) && #[trigger] adjacent(results@[q], d)
                        implies results@.contains(d) by {
                        assert(results@[q] == old_results[q]);
                        assert(adjacent(old_results[q], d));
                        let w = choose|w: int| 0 <= w < old_results.len() && old_results[w] == d;
                        assert(results@[w] == d);
                    }
                    assert forall|q: int| 0 <= q < k + 1 && open_at(m0, #[trigger] adj@[q]) implies results@.contains(adj@[q]) by {
                        if q < k {
                            let w = choose|w: int| 0 <= w < old_results.len() && old_results[w] == adj@[q];
                            assert(results@[w] == adj@[q]);
                        } else {
                            assert(results@[old_results.len() as int] == adj@[q]);
                        }
                    }
                    assert forall|q: int| 0 <= q < results@.len() implies reachable(m0, start, #[trigger] results@[q]) by {
                        if q < old_results.len() {
                            assert(results@[q] == old_results[q]);
                        }
                    }
                    assert forall|q: int| 0 <= q < results@.len() implies open_at(m0, #[trigger] results@[q]) by {
                        if q < old_results.len() {
                            assert(results@[q] == old_results[q]);
                        }
                    }
                }
            } else {
                proof {
                    assert(cell(m@, a.x as int, a.y as int) != Tile::Room(Status::Undesignated));
                    assert(at(a.x as int, a.y as int) == a);
                    assert forall|j: int|
                        1 <= j < results@.len() implies #[trigger] par[j] < head || (par[j] == head && k + 1 < adj@.len() && dir_code(
                            tile,
                            results@[j],
                        ) < dir_code(tile, adj@[k + 1])) || (par[j] == head && k + 1 >= adj@.len()) by {
                        if par[j] == head && k + 1 < adj@.len() {
                            assert(dir_code(tile, adj@[k as int]) < dir_code(tile, adj@[k + 1]));
                        }
                    }
                }
            }
            k += 1;
        }
        proof {
            assert forall|q: int, d: Coord|
                0 <= q < head + 1 && open_at(m0, d) && #[trigger] adjacent(results@[q], d)
                implies results@.contains(d) by {
                if q == head {
                    assert(adjacent_in(tile, res as int).contains(d));
                    let w = choose|w: int| 0 <= w < adj@.len() && adj@[w] == d;
                    assert(open_at(m0, adj@[w]));
                }
            }
        }
        head += 1;
    }
    proof {
        assert forall|j: int| 1 <= j < results@.len() implies #[trigger] has_parent(results@, j) by {
            assert(discovered_from(results@, j, par[j]));
        }
        assert forall|j1: int, j2: int, h1: int, h2: int|
            1 <= j1 < j2 < results@.len() && #[trigger] discovered_from(results@, j1, h1) && #[trigger] discovered_from(results@, j2, h2)
            implies h1 < h2 || (h1 == h2 && dir_code(results@[h1], results@[j1]) < dir_code(results@[h1], results@[j2])) by {
            assert(discovered_from(results@, j1, par[j1]));
            assert(discovered_from(results@, j2, par[j2]));
            lemma_discovered_unique(results@, j1, h1, par[j1]);
            lemma_discovered_unique(results@, j2, h2, par[j2]);
            assert(bfs_before(results@, par, j1, j2));
        }
        assert(closed(m0, results@));
        assert forall|c: Coord| #[trigger] results@.contains(c) <==> reachable(m0, start, c) by {
            if reachable(m0, start, c) {
                let p = choose|p: Seq<Coord>| #[trigger] is_open_path(m0, p) && p[0] == start && p.last() == c;
                assert(results@[0] == start);
                lemma_closed_path(m0, results@, p);
            }
            if results@.contains(c) {
                let w = choose|w: int| 0 <= w < results@.len() && results@[w] == c;
                assert(reachable(m0, start, results@[w]));
            }
        }
    }
    results
}

/// Two breadth-first listings of the same region that agree before
/// position `i` agree at `i`.
proof fn lemma_discovery_step(m: Seq<Vec<Tile>>, start: Coord, r1: Seq<Coord>, r2: Seq<Coord>, i: int)
    requires
        1 <= i < r1.len(),
        r1.len() == r2.len(),
        r1.no_duplicates(),
        r2.no_duplicates(),
        forall|c: Coord| #[trigger] r1.contains(c) <==> reachable(m, start, c),
        forall|c: Coord| #[trigger] r2.contains(c) <==> reachable(m, start, c),
        in_discovery_order(r1),
        in_discovery_order(r2),
        forall|k: int| 0 <= k < i ==> r1[k] == r2[k],
    ensures
        r1[i] == r2[i],
{
    let x = r1[i];
    let y = r2[i];
    if x != y {
        assert(r1.contains(x)) by {
            assert(r1[i] == x);
        }
        assert(reachable(m, start, x));
        assert(r2.contains(x));
        let p2 = choose|p: int| 0 <= p < r2.len() && r2[p] == x;
        if p2 < i {
            assert(r1[p2] == x);
        }
        assert(r2.contains(y)) by {
            assert(r2[i] == y);
        }
        assert(reachable(m, start, y));
        assert(r1.contains(y));
        let p1 = choose|p: int| 0 <= p < r1.len() && r1[p] == y;
        if p1 < i {
            assert(r2[p1] == y);
        }
        assert(has_parent(r1, i));
        let h1 = choose|h: int| #[trigger] discovered_from(r1, i, h);
        assert(has_parent(r2, i));
        let h2 = choose|h: int| #[trigger] discovered_from(r2, i, h);
        assert(r1[h1] == r2[h1]);
        assert(r1[h2] == r2[h2]);
        assert(discovered_from(r2, p2, h1)) by {
            assert forall|g: int| 0 <= g < h1 implies !adjacent(#[trigger] r2[g], r2[p2]) by {
                assert(r1[g] == r2[g]);
                assert(!adjacent(r1[g], r1[i]));
            }
        }
        assert(discovered_from(r1, p1, h2)) by {
            assert forall|g: int| 0 <= g < h2 implies !adjacent(#[trigger] r1[g], r1[p1]) by {
                assert(r1[g] == r2[g]);
                assert(!adjacent(r2[g], r2[i]));
            }
        }
        assert(h1 < h2 || (h1 == h2 && dir_code(r1[h1], r1[i]) < dir_code(r1[h1], r1[p1])));
        assert(h2 < h1 || (h2 == h1 && dir_code(r2[h2], r2[i]) < dir_code(r2[h2], r2[p2])));
    }
}

proof fn lemma_discovery_prefix(m: Seq<Vec<Tile>>, start: Coord, r1: Seq<Coord>, r2: Seq<Coord>, i: int)
    requires
        1 <= i <= r1.len(),
        r1.len() == r2.len(),
        r1[0] == start,
        r2[0] == start,
        r1.no_duplicates(),
        r2.no_duplicates(),
        forall|c: Coord| #[trigger] r1.contains(c) <==> reachable(m, start, c),
        forall|c: Coord| #[trigger] r2.contains(c) <==> reachable(m, start, c),
        in_discovery_order(r1),
        in_discovery_order(r2),
    ensures
        forall|k: int| 0 <= k < i ==> r1[k] == r2[k],
    decreases i,
{
    if i > 1 {
        lemma_discovery_prefix(m, start, r1, r2, i - 1);
        lemma_discovery_step(m, start, r1, r2, i - 1);
    }
}

/// A flood fill's result is determined by the grid and the start cell: two
/// duplicate-free breadth-first listings of the same region are equal.
pub proof fn lemma_discovery_order_unique(m: Seq<Vec<Tile>>, start: Coord, r1: Seq<Coord>, r2: Seq<Coord>)
    requires
        r1.len() >= 1,
        r2.len() >= 1,
        r1[0] == start,
        r2[0] == start,
        r1.no_duplicates(),
        r2.no_duplicates(),
        forall|c: Coord| #[trigger] r1.contains(c) <==> reachable(m, start, c),
        forall|c: Coord| #[trigger] r2.contains(c) <==> reachable(m, start, c),
        in_discovery_order(r1),
        in_discovery_order(r2),
    ensures
        r1 == r2,
{
    assert(r1.to_set() =~= r2.to_set());
    r1.unique_seq_to_set();
    r2.unique_seq_to_set();
    lemma_discovery_prefix(m, start, r1, r2, r1.len() as int);
    assert(r1 =~= r2);
}

} // verus!
