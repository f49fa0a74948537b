use crate::centers::{
    in_range, interior, is_center, lemma_center_bounded, lemma_center_unique, max_inscribed_circle, picked,
    valid_indexes,
};
use crate::region::{
    at, flood_fill, in_discovery_order, in_grid, is_open_path, lemma_discovery_order_unique, open_at, reachable,
    region, set_tile,
};
use crate::tile_map::{Status, Tile, TileMap};
use crate::types::{cell, is_square, Coord};
use vstd::prelude::*;

verus! {

/// A connected region of cave cells found by flood fill.
#[derive(Clone, Debug)]
pub struct Room {
    /// Member cells in discovery order.
    pub tiles: Vec<Coord>,
    /// The chosen center cell.
    pub center: Coord,
    /// Indexes into `tiles` of the cells that border a non-member cell.
    pub edge_tile_indexes: Vec<usize>,
    pub id: u16,
}

/// The four neighbours that the edge test looks at, each offset clamped at zero.
pub open spec fn edge_neighbours(c: Coord) -> Seq<Coord> {
    seq![c.offset_spec(1, 0), c.offset_spec(0, 1), c.offset_spec(0, -1), c.offset_spec(-1, 0)]
}

/// `c` has a 4-neighbour that is not among `tiles`. A tile in column 0 or
/// row 0 has a neighbour below zero, which no tile list holds; elsewhere the
/// clamped neighbours are the true ones.
pub open spec fn on_edge(tiles: Seq<Coord>, c: Coord) -> bool {
    c.x == 0 || c.y == 0 || exists|k: int| 0 <= k < 4 && !tiles.contains(#[trigger] edge_neighbours(c)[k])
}

/// The indexes below `n` of the tiles that lie on the edge of `tiles`, in order.
pub open spec fn edge_indexes_upto(tiles: Seq<Coord>, n: int) -> Seq<usize>
    decreases n,
{
    if n <= 0 {
        seq![]
    } else {
        let prev = edge_indexes_upto(tiles, n - 1);
        if on_edge(tiles, tiles[n - 1]) { prev.push((n - 1) as usize) } else { prev }
    }
}

/// The indexes of the tiles that lie on the edge of `tiles`, in order.
pub open spec fn edge_indexes_of(tiles: Seq<Coord>) -> Seq<usize> {
    edge_indexes_upto(tiles, tiles.len() as int)
}

/// All tiles have coordinates that the room computations can handle.
pub open spec fn tiles_in_range(tiles: Seq<Coord>) -> bool {
    forall|k: int| 0 <= k < tiles.len() ==> in_range(#[trigger] tiles[k])
}

/// The in-bounds 4-neighbours of `c` on a grid of side `max`: above, below,
/// left, right.
pub open spec fn adjacent_in(c: Coord, max: int) -> Seq<Coord> {
    let up: Seq<Coord> = if c.y > 0 { seq![Coord { x: c.x, y: (c.y - 1) as usize }] } else { seq![] };
    let down: Seq<Coord> = if c.y < max - 1 { seq![Coord { x: c.x, y: (c.y + 1) as usize }] } else { seq![] };
    let left: Seq<Coord> = if c.x > 0 { seq![Coord { x: (c.x - 1) as usize, y: c.y }] } else { seq![] };
    let right: Seq<Coord> = if c.x < max - 1 { seq![Coord { x: (c.x + 1) as usize, y: c.y }] } else { seq![] };
    up + down + left + right
}

/// `a` and `b` differ by one step along one axis.
pub open spec fn adjacent(a: Coord, b: Coord) -> bool {
    (a.x == b.x && (a.y + 1 == b.y || b.y + 1 == a.y)) || (a.y == b.y && (a.x + 1 == b.x || b.x
        + 1 == a.x))
}

/// `min` and `max` are the component-wise extremes of `s`, or the sentinels
/// `(usize::MAX, usize::MAX)` and `(0, 0)` when `s` is empty.
pub open spec fn is_bounding_box(s: Seq<Coord>, min: Coord, max: Coord) -> bool {
    &&& forall|k: int|
        0 <= k < s.len() ==> min.x <= (#[trigger] s[k]).x <= max.x && min.y <= s[k].y <= max.y
    &&& s.len() == 0 ==> min.x == usize::MAX && min.y == usize::MAX && max.x == 0 && max.y == 0
    &&& s.len() > 0 ==> (exists|k: int| 0 <= k < s.len() && #[trigger] s[k].x == min.x)
    &&& s.len() > 0 ==> (exists|k: int| 0 <= k < s.len() && #[trigger] s[k].y == min.y)
    &&& s.len() > 0 ==> (exists|k: int| 0 <= k < s.len() && #[trigger] s[k].x == max.x)
    &&& s.len() > 0 ==> (exists|k: int| 0 <= k < s.len() && #[trigger] s[k].y == max.y)
}

/// The tile of `c` right after a flood fill from `start` claimed its region for `id`.
pub open spec fn after_fill(m: Seq<Vec<Tile>>, start: Coord, id: u16, c: Coord) -> Tile {
    if reachable(m, start, c) {
        Tile::Room(Status::Designated(id))
    } else {
        cell(m, c.x as int, c.y as int)
    }
}

/// The tile of `c` once `room` is marked over `before`: edge tiles become
/// `RoomEdge`, the center `RoomCenter`, everything else keeps its tile.
pub open spec fn marked_tile(room: Room, before: Tile, c: Coord) -> Tile {
    if room.edge_tiles().contains(c) {
        Tile::RoomEdge(room.id)
    } else if c == room.center {
        Tile::RoomCenter(room.id)
    } else {
        before
    }
}

/// The tile of `c` after a region that was too small has been turned back into wall.
pub open spec fn erased_tile(m: Seq<Vec<Tile>>, start: Coord, c: Coord) -> Tile {
    if reachable(m, start, c) {
        Tile::Wall
    } else {
        cell(m, c.x as int, c.y as int)
    }
}

/// What `generate_room` from `start` did, given the grid before (`m0`) and after (`m1`).
pub open spec fn room_outcome(
    m0: Seq<Vec<Tile>>,
    m1: Seq<Vec<Tile>>,
    start: Coord,
    id: u16,
    min_size: int,
    r: Option<Room>,
) -> bool {
    let n = m0.len() as int;
    if !open_at(m0, start) {
        r.is_none() && m1 == m0
    } else if region(m0, start).len() < min_size {
        &&& r.is_none()
        &&& forall|a: int, b: int|
            0 <= a < n && 0 <= b < n ==> #[trigger] cell(m1, a, b) == erased_tile(m0, start, at(a, b))
    } else {
        &&& r.is_some()
        &&& r.unwrap().wf()
        &&& r.unwrap().id == id
        &&& r.unwrap().tiles@[0] == start
        &&& r.unwrap().tiles@.no_duplicates()
        &&& in_discovery_order(r.unwrap().tiles@)
        &&& r.unwrap().tiles@.len() >= min_size
        &&& r.unwrap().tiles@.to_set() == region(m0, start)
        &&& forall|a: int, b: int|
            0 <= a < n && 0 <= b < n ==> #[trigger] cell(m1, a, b) == marked_tile(
                r.unwrap(),
                after_fill(m0, start, id, at(a, b)),
                at(a, b),
            )
    }
}

impl Room {
    /// The room's parts agree: edges and center are those of its tiles.
    pub open spec fn wf(&self) -> bool {
        &&& self.tiles@.len() > 0
        &&& tiles_in_range(self.tiles@)
        &&& self.edge_tile_indexes@ == edge_indexes_of(self.tiles@)
        &&& valid_indexes(self.tiles@, self.edge_tile_indexes@)
        &&& is_center(self.tiles@, self.edge_tile_indexes@, self.center)
    }

    /// The edge tiles of the room.
    pub open spec fn edge_tiles(&self) -> Seq<Coord> {
        picked(self.tiles@, self.edge_tile_indexes@)
    }

    /// Builds a room from its member tiles: finds the edge tiles and the center.
    pub fn new(tiles: Vec<Coord>, id: u16) -> (r: Room)
        requires
            tiles@.len() > 0,
            tiles_in_range(tiles@),
        ensures
            r.wf(),
            r.tiles@ == tiles@,
            r.id == id,
    {
        let edge_tile_indexes = get_edge_indexes(tiles.as_slice());
        let center = max_inscribed_circle(tiles.as_slice(), edge_tile_indexes.as_slice());
        Room { tiles, center, edge_tile_indexes, id }
    }

    /// Flood-fills the region of unclaimed room cells that contains
    /// `search_start`. A region with fewer than `min_room_size` cells is
    /// turned into wall and gives `None`; a larger one becomes a room whose
    /// edge tiles and center are marked on the grid. A start cell that is not
    /// an unclaimed room cell gives `None` and leaves the grid as it is.
    pub fn generate_room(
        search_start: (usize, usize),
        tile_map: &mut TileMap,
        id: u16,
        min_room_size: usize,
    ) -> (r: Option<Room>)
        requires
            is_square(old(tile_map)@, old(tile_map)@.len() as nat),
            old(tile_map)@.len() < u32::MAX,
            search_start.0 < old(tile_map)@.len(),
            search_start.1 < old(tile_map)@.len(),
        ensures
            is_square(final(tile_map)@, old(tile_map)@.len() as nat),
            room_outcome(
                old(tile_map)@,
                final(tile_map)@,
                at(search_start.0 as int, search_start.1 as int),
                id,
                min_room_size as int,
                r,
            ),
    {
        let res = tile_map.len();
        let start = Coord { x: search_start.0, y: search_start.1 };
        let ghost m0 = tile_map@;
        if tile_map[start.x][start.y] != Tile::Room(Status::Undesignated) {
            return None;
        }
        let results = flood_fill(start, tile_map, id);
        proof {
            assert(results@.to_set() =~= region(m0, start));
            results@.unique_seq_to_set();
        }
        if results.len() < min_room_size {
            let mut i: usize = 0;
            while i < results.len()
                invariant
                    i <= results@.len(),
                    res == m0.len(),
                    tile_map@.len() == res,
                    is_square(tile_map@, res as nat),
                    forall|k: int| 0 <= k < results@.len() ==> open_at(m0, #[trigger] results@[k]),
                    forall|c: Coord| #[trigger] results@.contains(c) <==> reachable(m0, start, c),
                    forall|a: int, b: int|
                        0 <= a < res && 0 <= b < res ==> #[trigger] cell(tile_map@, a, b) == (if results@.subrange(0, i as int).contains(at(a, b)) {
                            Tile::Wall
                        } else {
                            after_fill(m0, start, id, at(a, b))
                        }),
                decreases results.len() - i,
            {
                let c = results[i];
                assert(open_at(m0, results@[i as int]));
                let ghost before = tile_map@;
                set_tile(tile_map, c, Tile::Wall);
                proof {
                    let ghost pre = results@.subrange(0, i as int);
                    let ghost nxt = results@.subrange(0, i + 1);
                    assert(nxt =~= pre.push(c));
                    assert forall|a: int, b: int|
                        0 <= a < res && 0 <= b < res implies #[trigger] cell(tile_map@, a, b) == (if nxt.contains(at(a, b)) {
                            Tile::Wall
                        } else {
                            after_fill(m0, start, id, at(a, b))
                        }) by {
                        assert(cell(before, a, b) == (if pre.contains(at(a, b)) {
                            Tile::Wall
                        } else {
                            after_fill(m0, start, id, at(a, b))
                        }));
                        if a == c.x && b == c.y {
                            assert(nxt[i as int] == at(a, b));
                        } else {
                            assert(cell(tile_map@, a, b) == cell(before, a, b));
                            if nxt.contains(at(a, b)) {
                                let w = choose|w: int| 0 <= w < nxt.len() && nxt[w] == at(a, b);
                                assert(pre[w] == at(a, b));
                            }
                            if pre.contains(at(a, b)) {
                                let w = choose|w: int| 0 <= w < pre.len() && pre[w] == at(a, b);
                                assert(nxt[w] == at(a, b));
                            }
                        }
                    }
                }
                i += 1;
            }
            proof {
                assert(results@.subrange(0, results@.len() as int) =~= results@);
                assert forall|a: int, b: int|
                    0 <= a < res && 0 <= b < res implies #[trigger] cell(tile_map@, a, b) == erased_tile(m0, start, at(a, b)) by {
                    assert(results@.contains(at(a, b)) == reachable(m0, start, at(a, b)));
                }
            }
            return None;
        }
        proof {
            assert forall|k: int| 0 <= k < results@.len() implies in_range(#[trigger] results@[k]) by {
                assert(open_at(m0, results@[k]));
            }
        }
        let room = Room::new(results, id);
        proof {
            assert forall|k: int| 0 <= k < room.tiles@.len() implies (#[trigger] room.tiles@[k]).x < res && room.tiles@[k].y < res by {
                assert(open_at(m0, room.tiles@[k]));
            }
            lemma_center_bounded(room.tiles@, room.edge_tile_indexes@, room.center, res as int);
        }
        let ghost m1 = tile_map@;
        set_tile(tile_map, room.center, Tile::RoomCenter(id));
        let mut i: usize = 0;
        while i < room.edge_tile_indexes.len()
            invariant
                i <= room.edge_tile_indexes@.len(),
                room.wf(),
                room.id == id,
                res == m0.len(),
                tile_map@.len() == res,
                is_square(tile_map@, res as nat),
                in_grid(res as int, room.center),
                forall|k: int| 0 <= k < room.tiles@.len() ==> open_at(m0, #[trigger] room.tiles@[k]),
                forall|a: int, b: int|
                    0 <= a < res && 0 <= b < res ==> #[trigger] cell(m1, a, b) == after_fill(m0, start, id, at(a, b)),
                forall|a: int, b: int|
                    0 <= a < res && 0 <= b < res ==> #[trigger] cell(tile_map@, a, b) == (if picked(room.tiles@, room.edge_tile_indexes@.subrange(0, i as int)).contains(at(a, b)) {
                        Tile::RoomEdge(id)
                    } else if at(a, b) == room.center {
                        Tile::RoomCenter(id)
                    } else {
                        cell(m1, a, b)
                    }),
            decreases room.edge_tile_indexes.len() - i,
        {
            let e = room.tiles[room.edge_tile_indexes[i]];
            assert(open_at(m0, room.tiles@[room.edge_tile_indexes@[i as int] as int]));
            let ghost before = tile_map@;
            set_tile(tile_map, e, Tile::RoomEdge(id));
            proof {
                let ghost pre = picked(room.tiles@, room.edge_tile_indexes@.subrange(0, i as int));
                let ghost nxt = picked(room.tiles@, room.edge_tile_indexes@.subrange(0, i + 1));
                assert(nxt =~= pre.push(e));
                assert forall|a: int, b: int|
                    0 <= a < res && 0 <= b < res implies #[trigger] cell(tile_map@, a, b) == (if nxt.contains(at(a, b)) {
                        Tile::RoomEdge(id)
                    } else if at(a, b) == room.center {
                        Tile::RoomCenter(id)
                    } else {
                        cell(m1, a, b)
                    }) by {
                    assert(cell(before, a, b) == (if pre.contains(at(a, b)) {
                        Tile::RoomEdge(id)
                    } else if at(a, b) == room.center {
                        Tile::RoomCenter(id)
                    } else {
                        cell(m1, a, b)
                    }));
                    if a == e.x && b == e.y {
                        assert(nxt[i as int] == at(a, b));
                    } else {
                        assert(cell(tile_map@, a, b) == cell(before, a, b));
                        if nxt.contains(at(a, b)) {
                            let w = choose|w: int| 0 <= w < nxt.len() && nxt[w] == at(a, b);
                            assert(pre[w] == at(a, b));
                        }
                        if pre.contains(at(a, b)) {
                            let w = choose|w: int| 0 <= w < pre.len() && pre[w] == at(a, b);
                            assert(nxt[w] == at(a, b));
                        }
                    }
                }
            }
            i += 1;
        }
        proof {
            assert(room.edge_tile_indexes@.subrange(0, room.edge_tile_indexes@.len() as int) =~= room.edge_tile_indexes@);
        }
        Some(room)
    }

    /// The edge tiles, in the order of `edge_tile_indexes`.
    pub fn get_edge_tiles(&self) -> (r: Vec<Coord>)
        requires
            valid_indexes(self.tiles@, self.edge_tile_indexes@),
        ensures
            r@ == self.edge_tiles(),
    {
        let mut out: Vec<Coord> = Vec::new();
        let mut i: usize = 0;
        while i < self.edge_tile_indexes.len()
            invariant
                i <= self.edge_tile_indexes@.len(),
                valid_indexes(self.tiles@, self.edge_tile_indexes@),
                out@ =~= picked(self.tiles@, self.edge_tile_indexes@.subrange(0, i as int)),
            decreases self.edge_tile_indexes.len() - i,
        {
            out.push(self.tiles[self.edge_tile_indexes[i]]);
            i += 1;
            assert(out@ =~= picked(self.tiles@, self.edge_tile_indexes@.subrange(0, i as int)));
        }
        assert(self.edge_tile_indexes@.subrange(0, i as int) =~= self.edge_tile_indexes@);
        out
    }

    /// The component-wise minimum and maximum of the tiles; the sentinels
    /// `Coord::max()` and `Coord::min()` for a room without tiles.
    pub fn get_min_max_coords(&self) -> (r: (Coord, Coord))
        ensures
            is_bounding_box(self.tiles@, r.0, r.1),
    {
        let mut max = Coord::min();
        let mut min = Coord::max();
        let mut i: usize = 0;
        while i < self.tiles.len()
            invariant
                i <= self.tiles@.len(),
                is_bounding_box(self.tiles@.subrange(0, i as int), min, max),
            decreases self.tiles.len() - i,
        {
            let t = self.tiles[i];
            if i == 0 || t.x > max.x {
                max.x = t.x;
            }
            if i == 0 || t.y > max.y {
                max.y = t.y;
            }
            if i == 0 || t.x < min.x {
                min.x = t.x;
            }
            if i == 0 || t.y < min.y {
                min.y = t.y;
            }
            i += 1;
            assert(self.tiles@.subrange(0, i as int).last() == t);
            assert forall|k: int| 0 <= k < i - 1 implies self.tiles@.subrange(0, i as int)[k]
                == #[trigger] self.tiles@.subrange(0, i - 1)[k] by {}
        }
        assert(self.tiles@.subrange(0, i as int) =~= self.tiles@);
        (min, max)
    }
}

/// Whether `c` is one of `tiles`.
pub fn contains_coord(tiles: &[Coord], c: Coord) -> (r: bool)
    ensures
        r == tiles@.contains(c),
{
    let mut i: usize = 0;
    while i < tiles.len()
        invariant
            i <= tiles@.len(),
            forall|k: int| 0 <= k < i ==> tiles@[k] != c,
        decreases tiles.len() - i,
    {
        if tiles[i] == c {
            return true;
        }
        i += 1;
    }
    false
}

/// The right, lower, upper and left neighbours, each offset clamped at zero.
pub fn get_neighbouring_coords_vertical_horizontal(c: &Coord) -> (r: Vec<Coord>)
    requires
        c.x < usize::MAX,
        c.y < usize::MAX,
    ensures
        r@ == edge_neighbours(*c),
{
    let r = vec![c.offset(1, 0), c.offset(0, 1), c.offset(0, -1), c.offset(-1, 0)];
    assert(r@ =~= edge_neighbours(*c));
    r
}

/// The eight surrounding cells, each offset clamped at zero.
pub fn get_neighbouring_coords_all(c: &Coord) -> (r: Vec<Coord>)
    requires
        c.x < usize::MAX,
        c.y < usize::MAX,
    ensures
        r@ == seq![
            c.offset_spec(1, 0),
            c.offset_spec(1, 1),
            c.offset_spec(0, 1),
            c.offset_spec(-1, 1),
            c.offset_spec(0, -1),
            c.offset_spec(-1, -1),
            c.offset_spec(-1, 0),
            c.offset_spec(1, -1),
        ],
{
    let r = vec![
        c.offset(1, 0),
        c.offset(1, 1),
        c.offset(0, 1),
        c.offset(-1, 1),
        c.offset(0, -1),
        c.offset(-1, -1),
        c.offset(-1, 0),
        c.offset(1, -1),
    ];
    r
}

/// The four diagonal neighbours, each offset clamped at zero.
pub fn get_neighbouring_coords_diagonal(c: &Coord) -> (r: Vec<Coord>)
    requires
        c.x < usize::MAX,
        c.y < usize::MAX,
    ensures
        r@ == seq![
            c.offset_spec(1, 1),
            c.offset_spec(-1, 1),
            c.offset_spec(-1, -1),
            c.offset_spec(1, -1),
        ],
{
    let r = vec![c.offset(1, 1), c.offset(-1, 1), c.offset(-1, -1), c.offset(1, -1)];
    r
}

/// The indexes of the tiles that have a 4-neighbour outside the tile list.
pub fn get_edge_indexes(tiles: &[Coord]) -> (r: Vec<usize>)
    requires
        tiles_in_range(tiles@),
    ensures
        r@ == edge_indexes_of(tiles@),
        valid_indexes(tiles@, r@),
        r@.len() <= tiles@.len(),
{
    let mut out: Vec<usize> = Vec::new();
    let mut i: usize = 0;
    while i < tiles.len()
        invariant
            i <= tiles@.len(),
            tiles_in_range(tiles@),
            out@ == edge_indexes_upto(tiles@, i as int),
            valid_indexes(tiles@, out@),
            out@.len() <= i,
        decreases tiles.len() - i,
    {
        let c = tiles[i];
        assert(in_range(tiles@[i as int]));
        let ns = get_neighbouring_coords_vertical_horizontal(&c);
        let mut edge = c.x == 0 || c.y == 0;
        let mut k: usize = 0;
        while k < 4
            invariant
                k <= 4,
                ns@ == edge_neighbours(c),
                edge == (c.x == 0 || c.y == 0 || exists|j: int| 0 <= j < k && !tiles@.contains(#[trigger] edge_neighbours(c)[j])),
            decreases 4 - k,
        {
            if !contains_coord(tiles, ns[k]) {
                edge = true;
            }
            k += 1;
        }
        if edge {
            out.push(i);
        }
        i += 1;
    }
    out
}

/// The in-bounds 4-neighbours of `coord` on a grid of side `max_size`.
pub fn get_adjacent_coords(coord: &Coord, max_size: usize) -> (r: Vec<Coord>)
    requires
        max_size >= 1,
    ensures
        r@ == adjacent_in(*coord, max_size as int),
{
    let mut adjacent_coords: Vec<Coord> = Vec::new();
    if coord.y > 0 {
        adjacent_coords.push(Coord { x: coord.x, y: coord.y - 1 });
    }
    if coord.y < max_size - 1 {
        adjacent_coords.push(Coord { x: coord.x, y: coord.y + 1 });
    }
    if coord.x > 0 {
        adjacent_coords.push(Coord { x: coord.x - 1, y: coord.y });
    }
    if coord.x < max_size - 1 {
        adjacent_coords.push(Coord { x: coord.x + 1, y: coord.y });
    }
    assert(adjacent_coords@ =~= adjacent_in(*coord, max_size as int));
    adjacent_coords
}

/// A cell that was claimed stays claimed, and the start cell is claimed
/// after `generate_room`.
proof fn lemma_outcome_claims(
    m0: Seq<Vec<Tile>>,
    m1: Seq<Vec<Tile>>,
    start: Coord,
    id: u16,
    min_size: int,
    r: Option<Room>,
)
    requires
        is_square(m0, m0.len() as nat),
        in_grid(m0.len() as int, start),
        room_outcome(m0, m1, start, id, min_size, r),
    ensures
        forall|a: int, b: int|
            0 <= a < m0.len() && 0 <= b < m0.len() && !open_at(m0, at(a, b)) ==> !open_at(
                m1,
                #[trigger] at(a, b),
            ),
        !open_at(m1, start),
        forall|a: int, b: int|
            0 <= a < m0.len() && 0 <= b < m0.len() && open_at(m1, #[trigger] at(a, b)) ==> open_at(m0, at(a, b)),
        r.is_some() ==> forall|t: int|
            0 <= t < r.unwrap().tiles@.len() ==> open_at(m0, #[trigger] r.unwrap().tiles@[t]) && !open_at(
                m1,
                r.unwrap().tiles@[t],
            ),
{
    let n = m0.len() as int;
    assert forall|a: int, b: int|
        0 <= a < n && 0 <= b < n && open_at(m1, #[trigger] at(a, b)) implies open_at(m0, at(a, b)) by {
        assert(at(a, b).x == a && at(a, b).y == b);
    }
    if r.is_some() {
        let room = r.unwrap();
        assert forall|t: int| 0 <= t < room.tiles@.len() implies open_at(m0, #[trigger] room.tiles@[t]) && !open_at(
            m1,
            room.tiles@[t],
        ) by {
            let c = room.tiles@[t];
            assert(room.tiles@.to_set().contains(c));
            assert(region(m0, start).contains(c));
            let p = choose|p: Seq<Coord>| #[trigger] is_open_path(m0, p) && p[0] == start && p.last() == c;
            assert(open_at(m0, p[p.len() - 1]));
            assert(at(c.x as int, c.y as int) == c);
        }
    }
    assert forall|a: int, b: int|
        0 <= a < n && 0 <= b < n && !open_at(m0, at(a, b)) implies !open_at(m1, #[trigger] at(a, b)) by {
        assert(at(a, b).x == a && at(a, b).y == b);
        if open_at(m0, start) {
            if reachable(m0, start, at(a, b)) {
                let p = choose|p: Seq<Coord>| #[trigger] is_open_path(m0, p) && p[0] == start && p.last() == at(a, b);
                assert(open_at(m0, p[p.len() - 1]));
            }
            assert(cell(m1, a, b) != Tile::Room(Status::Undesignated));
        }
    }
    if open_at(m0, start) {
        assert(is_open_path(m0, seq![start]));
        assert(reachable(m0, start, start));
        assert(at(start.x as int, start.y as int) == start);
        assert(cell(m1, start.x as int, start.y as int) != Tile::Room(Status::Undesignated));
    }
}

/// The number of rooms among the outcomes.
pub open spec fn count_found(outs: Seq<Option<Room>>) -> nat
    decreases outs.len(),
{
    if outs.len() == 0 {
        0
    } else {
        count_found(outs.drop_last()) + if outs.last().is_some() { 1nat } else { 0nat }
    }
}

/// The rooms among the outcomes, in order.
pub open spec fn rooms_found(outs: Seq<Option<Room>>) -> Seq<Room>
    decreases outs.len(),
{
    if outs.len() == 0 {
        seq![]
    } else {
        let prev = rooms_found(outs.drop_last());
        if outs.last().is_some() { prev.push(outs.last().unwrap()) } else { prev }
    }
}

/// Cell `i` of the column-major scan of a `n x n` grid.
pub open spec fn scan_cell(n: int, i: int) -> Coord {
    at(i / n, i % n)
}

/// Step `i` of a scan: `generate_room` at scan cell `i` with the next id,
/// or nothing once 65536 rooms exist.
pub open spec fn scan_step(
    m0: Seq<Vec<Tile>>,
    m1: Seq<Vec<Tile>>,
    n: int,
    i: int,
    found: nat,
    min_size: int,
    out: Option<Room>,
) -> bool {
    if found < 0x10000 {
        room_outcome(m0, m1, scan_cell(n, i), found as u16, min_size, out)
    } else {
        m1 == m0 && out.is_none()
    }
}

/// `ms` and `outs` record a scan: grid `ms[i + 1]` and outcome `outs[i]`
/// follow from grid `ms[i]` by step `i`.
pub open spec fn is_scan(ms: Seq<Seq<Vec<Tile>>>, outs: Seq<Option<Room>>, n: int, min_size: int) -> bool {
    &&& ms.len() == outs.len() + 1
    &&& forall|i: int|
        0 <= i < outs.len() ==> scan_step(
            ms[i],
            ms[i + 1],
            n,
            i,
            count_found(outs.subrange(0, i)),
            min_size,
            #[trigger] outs[i],
        )
}

proof fn lemma_scan_index(x: int, y: int, n: int)
    requires
        0 <= x,
        0 <= y < n,
    ensures
        (x * n + y) / n == x,
        (x * n + y) % n == y,
{
    assert((x * n + y) / n == x && (x * n + y) % n == y) by (nonlinear_arith)
        requires 0 <= x, 0 <= y < n;
}

/// Extending a scan record by one step.
proof fn lemma_scan_push(
    ms: Seq<Seq<Vec<Tile>>>,
    outs: Seq<Option<Room>>,
    m1: Seq<Vec<Tile>>,
    out: Option<Room>,
    n: int,
    min_size: int,
)
    requires
        is_scan(ms, outs, n, min_size),
        scan_step(ms.last(), m1, n, outs.len() as int, count_found(outs), min_size, out),
    ensures
        is_scan(ms.push(m1), outs.push(out), n, min_size),
        count_found(outs.push(out)) == count_found(outs) + if out.is_some() { 1nat } else { 0nat },
        rooms_found(outs.push(out)) == if out.is_some() {
            rooms_found(outs).push(out.unwrap())
        } else {
            rooms_found(outs)
        },
{
    let ms2 = ms.push(m1);
    let outs2 = outs.push(out);
    let i = outs.len() as int;
    assert(outs2.subrange(0, i) =~= outs);
    assert(outs2.drop_last() =~= outs);
    assert forall|j: int| 0 <= j < outs2.len() implies scan_step(
        ms2[j],
        ms2[j + 1],
        n,
        j,
        count_found(outs2.subrange(0, j)),
        min_size,
        #[trigger] outs2[j],
    ) by {
        if j < i {
            assert(outs2.subrange(0, j) =~= outs.subrange(0, j));
            assert(outs2[j] == outs[j]);
            assert(ms2[j] == ms[j] && ms2[j + 1] == ms[j + 1]);
        } else {
            assert(ms2[j] == ms.last());
        }
    }
}

/// The cells before `(x, y)` in column-major scan order.
pub open spec fn scanned_before(x: int, y: int, a: int, b: int) -> bool {
    a < x || (a == x && b < y)
}

/// Scans the grid column by column and turns every region of unclaimed room
/// cells into a room (ids 0, 1, ... in discovery order) or, when it has fewer
/// than `min_room_size` cells, back into wall. Room ids are 16-bit: once
/// 65536 rooms exist the scan stops and leaves the rest unclaimed.
#[verifier::rlimit(60)]
#[verifier::spinoff_prover]
pub fn generate_rooms(tiles: &mut TileMap, min_room_size: usize) -> (r: Vec<Room>)
    requires
        is_square(old(tiles)@, old(tiles)@.len() as nat),
        old(tiles)@.len() < u32::MAX,
    ensures
        is_square(final(tiles)@, old(tiles)@.len() as nat),
        r@.len() <= 0x10000,
        forall|k: int| 0 <= k < r@.len() ==> (#[trigger] r@[k]).wf() && r@[k].id == k,
        forall|k: int| 0 <= k < r@.len() ==> (#[trigger] r@[k]).tiles@.len() >= min_room_size,
        forall|k: int, t: int|
            0 <= k < r@.len() && 0 <= t < r@[k].tiles@.len() ==> in_grid(
                old(tiles)@.len() as int,
                #[trigger] r@[k].tiles@[t],
            ),
        r@.len() < 0x10000 ==> forall|a: int, b: int|
            0 <= a < old(tiles)@.len() && 0 <= b < old(tiles)@.len() ==> !open_at(
                final(tiles)@,
                #[trigger] at(a, b),
            ),
        forall|k: int, t: int|
            0 <= k < r@.len() && 0 <= t < r@[k].tiles@.len() ==> open_at(old(tiles)@, #[trigger] r@[k].tiles@[t]),
        forall|k1: int, k2: int, t1: int, t2: int|
            0 <= k1 < r@.len() && 0 <= k2 < r@.len() && k1 != k2 && 0 <= t1 < r@[k1].tiles@.len() && 0 <= t2
                < r@[k2].tiles@.len() ==> #[trigger] r@[k1].tiles@[t1] != #[trigger] r@[k2].tiles@[t2],
        exists|ms: Seq<Seq<Vec<Tile>>>, outs: Seq<Option<Room>>|
            #[trigger] is_scan(ms, outs, old(tiles)@.len() as int, min_room_size as int) && outs.len()
                == old(tiles)@.len() * old(tiles)@.len() && ms[0] == old(tiles)@ && ms.last() == final(tiles)@ && r@
                == rooms_found(outs),
{
    let res = tiles.len();
    let mut rooms: Vec<Room> = Vec::new();
    let ghost mut ms: Seq<Seq<Vec<Tile>>> = seq![tiles@];
    let ghost mut outs: Seq<Option<Room>> = seq![];
    let mut x: usize = 0;
    while x < res
        invariant
            res == old(tiles)@.len(),
            res < u32::MAX,
            tiles@.len() == res,
            is_square(tiles@, res as nat),
            x <= res,
            outs.len() == x * res,
            ms.len() == outs.len() + 1,
            ms[0] == old(tiles)@,
            ms.last() == tiles@,
            is_scan(ms, outs, res as int, min_room_size as int),
            rooms@ == rooms_found(outs),
            rooms@.len() == count_found(outs),
            rooms@.len() <= 0x10000,
            forall|k: int| 0 <= k < rooms@.len() ==> (#[trigger] rooms@[k]).wf() && rooms@[k].id == k,
            forall|k: int| 0 <= k < rooms@.len() ==> (#[trigger] rooms@[k]).tiles@.len() >= min_room_size,
            forall|k: int, t: int|
                0 <= k < rooms@.len() && 0 <= t < rooms@[k].tiles@.len() ==> in_grid(
                    res as int,
                    #[trigger] rooms@[k].tiles@[t],
                ),
            forall|k: int, t: int|
                0 <= k < rooms@.len() && 0 <= t < rooms@[k].tiles@.len() ==> open_at(old(tiles)@, #[trigger] rooms@[k].tiles@[t])
                    && !open_at(tiles@, rooms@[k].tiles@[t]),
            forall|a: int, b: int|
                0 <= a < res && 0 <= b < res && open_at(tiles@, #[trigger] at(a, b)) ==> open_at(old(tiles)@, at(a, b)),
            forall|k1: int, k2: int, t1: int, t2: int|
                0 <= k1 < rooms@.len() && 0 <= k2 < rooms@.len() && k1 != k2 && 0 <= t1 < rooms@[k1].tiles@.len() && 0 <= t2
                    < rooms@[k2].tiles@.len() ==> #[trigger] rooms@[k1].tiles@[t1] != #[trigger] rooms@[k2].tiles@[t2],
            rooms@.len() < 0x10000 ==> forall|a: int, b: int|
                0 <= a < res && 0 <= b < res && scanned_before(x as int, 0, a, b) ==> !open_at(
                    tiles@,
                    #[trigger] at(a, b),
                ),
        decreases res - x,
    {
        let mut y: usize = 0;
        while y < res
            invariant
                res == old(tiles)@.len(),
                res < u32::MAX,
                tiles@.len() == res,
                is_square(tiles@, res as nat),
                x < res,
                y <= res,
                outs.len() == x * res + y,
                ms.len() == outs.len() + 1,
                ms[0] == old(tiles)@,
                ms.last() == tiles@,
                is_scan(ms, outs, res as int, min_room_size as int),
                rooms@ == rooms_found(outs),
                rooms@.len() == count_found(outs),
                rooms@.len() <= 0x10000,
                forall|k: int| 0 <= k < rooms@.len() ==> (#[trigger] rooms@[k]).wf() && rooms@[k].id == k,
                forall|k: int| 0 <= k < rooms@.len() ==> (#[trigger] rooms@[k]).tiles@.len() >= min_room_size,
                forall|k: int, t: int|
                    0 <= k < rooms@.len() && 0 <= t < rooms@[k].tiles@.len() ==> in_grid(
                        res as int,
                        #[trigger] rooms@[k].tiles@[t],
                    ),
                forall|k: int, t: int|
                    0 <= k < rooms@.len() && 0 <= t < rooms@[k].tiles@.len() ==> open_at(old(tiles)@, #[trigger] rooms@[k].tiles@[t])
                        && !open_at(tiles@, rooms@[k].tiles@[t]),
                forall|a: int, b: int|
                    0 <= a < res && 0 <= b < res && open_at(tiles@, #[trigger] at(a, b)) ==> open_at(old(tiles)@, at(a, b)),
                forall|k1: int, k2: int, t1: int, t2: int|
                    0 <= k1 < rooms@.len() && 0 <= k2 < rooms@.len() && k1 != k2 && 0 <= t1 < rooms@[k1].tiles@.len() && 0 <= t2
                        < rooms@[k2].tiles@.len() ==> #[trigger] rooms@[k1].tiles@[t1] != #[trigger] rooms@[k2].tiles@[t2],
                rooms@.len() < 0x10000 ==> forall|a: int, b: int|
                    0 <= a < res && 0 <= b < res && scanned_before(x as int, y as int, a, b) ==> !open_at(
                        tiles@,
                        #[trigger] at(a, b),
                    ),
            decreases res - y,
        {
            if rooms.len() < 0x10000 {
                let ghost m0 = tiles@;
                let ghost start = at(x as int, y as int);
                let id = rooms.len() as u16;
                let found = Room::generate_room((x, y), tiles, id, min_room_size);
                let ghost fg = found;
                let ghost old_rooms = rooms@;
                proof {
                    lemma_scan_index(x as int, y as int, res as int);
                    assert(scan_cell(res as int, outs.len() as int) == start);
                    lemma_scan_push(ms, outs, tiles@, fg, res as int, min_room_size as int);
                    outs = outs.push(fg);
                    ms = ms.push(tiles@);
                    lemma_outcome_claims(m0, tiles@, start, id, min_room_size as int, found);
                    assert forall|k: int, t: int|
                        0 <= k < rooms@.len() && 0 <= t < rooms@[k].tiles@.len() implies open_at(old(tiles)@, #[trigger] rooms@[k].tiles@[t])
                            && !open_at(tiles@, rooms@[k].tiles@[t]) by {
                        let c = rooms@[k].tiles@[t];
                        assert(in_grid(res as int, c));
                        assert(at(c.x as int, c.y as int) == c);
                        assert(!open_at(m0, c));
                    }
                    assert forall|a: int, b: int|
                        0 <= a < res && 0 <= b < res && open_at(tiles@, #[trigger] at(a, b)) implies open_at(old(tiles)@, at(a, b)) by {
                        assert(open_at(m0, at(a, b)));
                    }
                    assert forall|a: int, b: int|
                        0 <= a < res && 0 <= b < res && scanned_before(x as int, y + 1, a, b) implies !open_at(
                            tiles@,
                            #[trigger] at(a, b),
                        ) by {
                        if scanned_before(x as int, y as int, a, b) {
                            assert(!open_at(m0, at(a, b)));
                        } else {
                            assert(at(a, b) == start);
                        }
                    }
                }
                match found {
                    Some(room) => {
                        proof {
                            assert forall|t: int| 0 <= t < room.tiles@.len() implies in_grid(res as int, #[trigger] room.tiles@[t]) by {
                                assert(room.tiles@.to_set().contains(room.tiles@[t]));
                                let p = choose|p: Seq<Coord>| #[trigger] is_open_path(m0, p) && p[0] == start && p.last() == room.tiles@[t];
                                assert(open_at(m0, p[p.len() - 1]));
                            }
                        }
                        let ghost prev = rooms@;
                        rooms.push(room);
                        proof {
                            assert forall|k: int, t: int|
                                0 <= k < rooms@.len() && 0 <= t < rooms@[k].tiles@.len() implies in_grid(
                                    res as int,
                                    #[trigger] rooms@[k].tiles@[t],
                                ) by {
                                if k < rooms@.len() - 1 {
                                    assert(rooms@[k] == prev[k]);
                                }
                            }
                            assert forall|k: int, t: int|
                                0 <= k < rooms@.len() && 0 <= t < rooms@[k].tiles@.len() implies open_at(old(tiles)@, #[trigger] rooms@[k].tiles@[t])
                                    && !open_at(tiles@, rooms@[k].tiles@[t]) by {
                                let c = rooms@[k].tiles@[t];
                                if k < rooms@.len() - 1 {
                                    assert(rooms@[k] == prev[k]);
                                    assert(!open_at(m0, c));
                                    assert(in_grid(res as int, c));
                                    assert(at(c.x as int, c.y as int) == c);
                                } else {
                                    assert(open_at(m0, c));
                                    assert(at(c.x as int, c.y as int) == c);
                                }
                            }
                            assert forall|k1: int, k2: int, t1: int, t2: int|
                                0 <= k1 < rooms@.len() && 0 <= k2 < rooms@.len() && k1 != k2 && 0 <= t1 < rooms@[k1].tiles@.len() && 0 <= t2
                                    < rooms@[k2].tiles@.len() implies #[trigger] rooms@[k1].tiles@[t1] != #[trigger] rooms@[k2].tiles@[t2] by {
                                let last = rooms@.len() - 1;
                                if k1 < last && k2 < last {
                                    assert(rooms@[k1] == prev[k1] && rooms@[k2] == prev[k2]);
                                } else if k1 == last {
                                    assert(rooms@[k2] == prev[k2]);
                                    assert(!open_at(m0, prev[k2].tiles@[t2]));
                                    assert(open_at(m0, rooms@[k1].tiles@[t1]));
                                } else {
                                    assert(rooms@[k1] == prev[k1]);
                                    assert(!open_at(m0, prev[k1].tiles@[t1]));
                                    assert(open_at(m0, rooms@[k2].tiles@[t2]));
                                }
                            }
                        }
                    },
                    None => {},
                }
                proof {
                    if fg.is_some() {
                        assert(rooms@ =~= old_rooms.push(fg.unwrap()));
                    } else {
                        assert(rooms@ == old_rooms);
                    }
                }
            } else {
                proof {
                    lemma_scan_push(ms, outs, tiles@, None, res as int, min_room_size as int);
                    outs = outs.push(None);
                    ms = ms.push(tiles@);
                }
            }
            y += 1;
        }
        proof {
            assert(x * res + res == (x + 1) * res) by (nonlinear_arith);
            assert forall|a: int, b: int|
                0 <= a < res && 0 <= b < res && scanned_before(x + 1, 0, a, b) implies scanned_before(x as int, res as int, a, b) by {}
        }
        x += 1;
    }
    assert(is_scan(ms, outs, res as int, min_room_size as int));
    rooms
}

/// `t` carries the mark of room `id`.
pub open spec fn room_tagged(t: Tile, id: u16) -> bool {
    t == Tile::Room(Status::Designated(id)) || t == Tile::RoomEdge(id) || t == Tile::RoomCenter(id)
}

/// `p` is a 4-connected walk over cells of `m` that carry the mark of room `id`.
pub open spec fn is_tagged_path(m: Seq<Vec<Tile>>, p: Seq<Coord>, id: u16) -> bool {
    &&& p.len() > 0
    &&& forall|i: int|
        0 <= i < p.len() ==> in_grid(m.len() as int, #[trigger] p[i]) && room_tagged(
            cell(m, p[i].x as int, p[i].y as int),
            id,
        )
    &&& forall|i: int| 0 <= i < p.len() - 1 ==> #[trigger] adjacent(p[i], p[i + 1])
}

/// `b` can be reached from `a` over cells that carry the mark of room `id`.
pub open spec fn tagged_reach(m: Seq<Vec<Tile>>, id: u16, a: Coord, b: Coord) -> bool {
    exists|p: Seq<Coord>| #[trigger] is_tagged_path(m, p, id) && p[0] == a && p.last() == b
}

/// Every cell of a walk from `s` over unclaimed cells can be reached from `s`.
proof fn lemma_path_cells_reachable(m: Seq<Vec<Tile>>, s: Coord, p: Seq<Coord>)
    requires
        is_open_path(m, p),
        p[0] == s,
    ensures
        forall|i: int| 0 <= i < p.len() ==> reachable(m, s, #[trigger] p[i]),
{
    assert forall|i: int| 0 <= i < p.len() implies reachable(m, s, #[trigger] p[i]) by {
        let q = p.subrange(0, i + 1);
        assert forall|j: int| 0 <= j < q.len() - 1 implies #[trigger] adjacent(q[j], q[j + 1]) by {
            assert(adjacent(p[j], p[j + 1]));
        }
        assert forall|j: int| 0 <= j < q.len() implies open_at(m, #[trigger] q[j]) by {
            assert(open_at(m, p[j]));
        }
        assert(is_open_path(m, q));
        assert(q.last() == p[i]);
    }
}

/// The room center lies on the grid. When some tile of the room is not an
/// edge tile, every tile reaches the center by a 4-connected walk over cells
/// that carry the room's mark after `generate_room`.
pub proof fn lemma_room_center_reachable(
    m0: Seq<Vec<Tile>>,
    m1: Seq<Vec<Tile>>,
    start: Coord,
    id: u16,
    min_size: int,
    room: Room,
)
    requires
        is_square(m0, m0.len() as nat),
        is_square(m1, m0.len() as nat),
        room_outcome(m0, m1, start, id, min_size, Some(room)),
    ensures
        in_grid(m0.len() as int, room.center),
        (exists|k: int| 0 <= k < room.tiles@.len() && interior(room.tiles@, room.edge_tile_indexes@, k))
            ==> forall|t: int|
            0 <= t < room.tiles@.len() ==> tagged_reach(m1, id, #[trigger] room.tiles@[t], room.center),
{
    let n = m0.len() as int;
    let tiles = room.tiles@;
    assert forall|c: Coord| reachable(m0, start, c) implies in_grid(n, c) && room_tagged(
        cell(m1, c.x as int, c.y as int),
        id,
    ) && tiles.contains(c) by {
        let p = choose|p: Seq<Coord>| #[trigger] is_open_path(m0, p) && p[0] == start && p.last() == c;
        assert(open_at(m0, p[p.len() - 1]));
        assert(region(m0, start).contains(c));
        assert(tiles.to_set().contains(c));
        assert(at(c.x as int, c.y as int) == c);
    }
    assert forall|k: int| 0 <= k < tiles.len() implies (#[trigger] tiles[k]).x < n && tiles[k].y < n by {
        assert(tiles.to_set().contains(tiles[k]));
        assert(region(m0, start).contains(tiles[k]));
    }
    lemma_center_bounded(tiles, room.edge_tile_indexes@, room.center, n);
    if exists|k: int| 0 <= k < tiles.len() && interior(tiles, room.edge_tile_indexes@, k) {
        let e = picked(tiles, room.edge_tile_indexes@);
        let w = choose|k: int| 0 <= k < tiles.len() && interior(tiles, room.edge_tile_indexes@, k);
        assert(!e.contains(tiles[w]));
        assert(tiles.contains(room.center)) by {
            if room.edge_tile_indexes@.len() == 0 {
                assert(room.center == tiles[0]);
            } else {
                let k = choose|k: int|
                    #![trigger tiles[k]]
                    0 <= k < tiles.len() && interior(tiles, room.edge_tile_indexes@, k) && room.center == tiles[k]
                        && (forall|j: int|
                        0 <= j < tiles.len() && interior(tiles, room.edge_tile_indexes@, j) ==> #[trigger] crate::centers::min_dist(
                            tiles[j],
                            e,
                        ) <= crate::centers::min_dist(tiles[k], e)) && (forall|j: int|
                        0 <= j < k && interior(tiles, room.edge_tile_indexes@, j) ==> #[trigger] crate::centers::min_dist(tiles[j], e)
                            < crate::centers::min_dist(tiles[k], e));
                assert(tiles[k] == room.center);
            }
        }
        assert(tiles.to_set().contains(room.center));
        assert(reachable(m0, start, room.center));
        let pc = choose|p: Seq<Coord>| #[trigger] is_open_path(m0, p) && p[0] == start && p.last() == room.center;
        lemma_path_cells_reachable(m0, start, pc);
        assert forall|t: int| 0 <= t < tiles.len() implies tagged_reach(m1, id, #[trigger] tiles[t], room.center) by {
            assert(tiles.to_set().contains(tiles[t]));
            assert(region(m0, start).contains(tiles[t]));
            let pt = choose|p: Seq<Coord>| #[trigger] is_open_path(m0, p) && p[0] == start && p.last() == tiles[t];
            lemma_path_cells_reachable(m0, start, pt);
            let a = pt.len() as int;
            let b = pc.len() as int;
            let p = Seq::new((a + b - 1) as nat, |i: int| if i < a { pt[a - 1 - i] } else { pc[i - a + 1] });
            assert forall|i: int| 0 <= i < p.len() implies in_grid(m1.len() as int, #[trigger] p[i]) && room_tagged(
                cell(m1, p[i].x as int, p[i].y as int),
                id,
            ) by {
                if i < a {
                    assert(reachable(m0, start, pt[a - 1 - i]));
                } else {
                    assert(reachable(m0, start, pc[i - a + 1]));
                }
            }
            assert forall|i: int| 0 <= i < p.len() - 1 implies #[trigger] adjacent(p[i], p[i + 1]) by {
                if i < a - 1 {
                    let j = a - 2 - i;
                    assert(adjacent(pt[j], pt[j + 1]));
                } else if i == a - 1 {
                    assert(p[i] == start);
                    let j = 0int;
                    assert(adjacent(pc[j], pc[j + 1]));
                } else {
                    let j = i - a + 1;
                    assert(adjacent(pc[j], pc[j + 1]));
                }
            }
            assert(is_tagged_path(m1, p, id));
            if b == 1 {
                assert(p.last() == pt[0]);
            }
        }
    }
}

/// Room extraction is deterministic: two runs of `generate_room` from the
/// same grid, start cell, id and minimum size give the same room (tiles in
/// the same order, same edges, same center) and the same grid.
pub proof fn lemma_generate_room_deterministic(
    m0: Seq<Vec<Tile>>,
    m1: Seq<Vec<Tile>>,
    m2: Seq<Vec<Tile>>,
    start: Coord,
    id: u16,
    min_size: int,
    r1: Option<Room>,
    r2: Option<Room>,
)
    requires
        is_square(m0, m0.len() as nat),
        is_square(m1, m0.len() as nat),
        is_square(m2, m0.len() as nat),
        room_outcome(m0, m1, start, id, min_size, r1),
        room_outcome(m0, m2, start, id, min_size, r2),
    ensures
        r1.is_some() == r2.is_some(),
        r1.is_some() ==> r1.unwrap().tiles@ == r2.unwrap().tiles@ && r1.unwrap().edge_tile_indexes@
            == r2.unwrap().edge_tile_indexes@ && r1.unwrap().center == r2.unwrap().center && r1.unwrap().id
            == r2.unwrap().id,
        forall|a: int, b: int| 0 <= a < m0.len() && 0 <= b < m0.len() ==> #[trigger] cell(m1, a, b) == cell(m2, a, b),
{
    let n = m0.len() as int;
    if open_at(m0, start) && region(m0, start).len() >= min_size {
        let a1 = r1.unwrap();
        let a2 = r2.unwrap();
        assert forall|c: Coord| #[trigger] a1.tiles@.contains(c) <==> reachable(m0, start, c) by {
            assert(a1.tiles@.to_set().contains(c) == region(m0, start).contains(c));
        }
        assert forall|c: Coord| #[trigger] a2.tiles@.contains(c) <==> reachable(m0, start, c) by {
            assert(a2.tiles@.to_set().contains(c) == region(m0, start).contains(c));
        }
        lemma_discovery_order_unique(m0, start, a1.tiles@, a2.tiles@);
        lemma_center_unique(a1.tiles@, a1.edge_tile_indexes@, a1.center, a2.center);
        assert(a1.edge_tiles() == a2.edge_tiles());
        assert forall|a: int, b: int| 0 <= a < n && 0 <= b < n implies #[trigger] cell(m1, a, b) == cell(m2, a, b) by {
            assert(cell(m1, a, b) == marked_tile(a1, after_fill(m0, start, id, at(a, b)), at(a, b)));
            assert(cell(m2, a, b) == marked_tile(a2, after_fill(m0, start, id, at(a, b)), at(a, b)));
        }
    } else if open_at(m0, start) {
        assert forall|a: int, b: int| 0 <= a < n && 0 <= b < n implies #[trigger] cell(m1, a, b) == cell(m2, a, b) by {
            assert(cell(m1, a, b) == erased_tile(m0, start, at(a, b)));
            assert(cell(m2, a, b) == erased_tile(m0, start, at(a, b)));
        }
    }
}

} // verus!
