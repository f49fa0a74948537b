use crate::types::{cell, is_square, UMap8};
use vstd::prelude::*;

verus! {

/// Whether a room cell has been claimed by a flood fill yet.
#[derive(Clone, Copy, Debug, PartialEq, Eq, Structural)]
pub enum Status {
    Undesignated,
    Designated(u16),
}

/// The type of one cell of the tile grid.
#[derive(Clone, Copy, Debug, PartialEq, Eq, Structural)]
pub enum Tile {
    Space,
    Wall,
    Surface,
    Room(Status),
    RoomEdge(u16),
    RoomCenter(u16),
    Tunnel(u16),
}

/// A square grid of tiles, indexed `[x][y]`.
pub type TileMap = Vec<Vec<Tile>>;

/// The tile of a cell of a landmass grid alone.
pub open spec fn land_tile(v: u8) -> Tile {
    if v == 1 { Tile::Wall } else { Tile::Space }
}

/// The tile of a cell from the landmass value `p` and the cave value `c`.
pub open spec fn merged_tile(p: u8, c: u8) -> Tile {
    if p == 1 && c == 0 {
        Tile::Wall
    } else if p == 1 && c == 1 {
        Tile::Room(Status::Undesignated)
    } else {
        Tile::Space
    }
}

/// Building a tile grid from occupancy grids.
pub trait FromUMap: Sized {
    /// Solid cells become walls, the others space.
    fn from_u_map(from: &UMap8) -> (r: TileMap)
        requires
            is_square(from@, from.len() as nat),
        ensures
            is_square(r@, from.len() as nat),
            forall|x: int, y: int|
                0 <= x < from.len() && 0 <= y < from.len() ==> #[trigger] cell(r@, x, y)
                    == land_tile(cell(from@, x, y)),
    ;

    /// Merges a landmass grid and a cave grid: void land is space, solid land
    /// is a wall where the cave grid is void and an unclaimed room cell where
    /// it is solid.
    fn rooms_planet_combiner(planet: &UMap8, rooms: &UMap8) -> (r: TileMap)
        requires
            is_square(planet@, planet.len() as nat),
            is_square(rooms@, planet.len() as nat),
        ensures
            is_square(r@, planet.len() as nat),
            forall|x: int, y: int|
                0 <= x < planet.len() && 0 <= y < planet.len() ==> #[trigger] cell(r@, x, y)
                    == merged_tile(cell(planet@, x, y), cell(rooms@, x, y)),
    ;
}

impl FromUMap for TileMap {
    fn from_u_map(from: &UMap8) -> (r: TileMap) {
        let n = from.len();
        let mut out: TileMap = Vec::new();
        let mut x: usize = 0;
        while x < n
            invariant
                n == from.len(),
                is_square(from@, n as nat),
                x <= n,
                out.len() == x,
                forall|i: int| 0 <= i < x ==> (#[trigger] out@[i]).len() == n,
                forall|i: int, j: int|
                    0 <= i < x && 0 <= j < n ==> #[trigger] cell(out@, i, j) == land_tile(
                        cell(from@, i, j),
                    ),
            decreases n - x,
        {
            let mut row: Vec<Tile> = Vec::new();
            let mut y: usize = 0;
            while y < n
                invariant
                    n == from.len(),
                    is_square(from@, n as nat),
                    x < n,
                    y <= n,
                    row.len() == y,
                    forall|j: int| 0 <= j < y ==> #[trigger] row@[j] == land_tile(cell(from@, x as int, j)),
                decreases n - y,
            {
                let v = from[x][y];
                row.push(if v == 1 { Tile::Wall } else { Tile::Space });
                y += 1;
            }
            let ghost prev = out@;
            let ghost rv = row@;
            out.push(row);
            assert forall|i: int, j: int| 0 <= i <= x && 0 <= j < n implies #[trigger] cell(out@, i, j)
                == land_tile(cell(from@, i, j)) by {
                if i < x {
                    assert(out@[i] == prev[i]);
                    assert(cell(prev, i, j) == cell(out@, i, j));
                } else {
                    assert(rv[j] == cell(out@, i, j));
                }
            }
            x += 1;
        }
        out
    }

    fn rooms_planet_combiner(planet: &UMap8, rooms: &UMap8) -> (r: TileMap) {
        let n = planet.len();
        let mut out: TileMap = Vec::new();
        let mut x: usize = 0;
        while x < n
            invariant
                n == planet.len(),
                is_square(planet@, n as nat),
                is_square(rooms@, n as nat),
                x <= n,
                out.len() == x,
                forall|i: int| 0 <= i < x ==> (#[trigger] out@[i]).len() == n,
                forall|i: int, j: int|
                    0 <= i < x && 0 <= j < n ==> #[trigger] cell(out@, i, j) == merged_tile(
                        cell(planet@, i, j),
                        cell(rooms@, i, j),
                    ),
            decreases n - x,
        {
            let mut row: Vec<Tile> = Vec::new();
            let mut y: usize = 0;
            while y < n
                invariant
                    n == planet.len(),
                    is_square(planet@, n as nat),
                    is_square(rooms@, n as nat),
                    x < n,
                    y <= n,
                    row.len() == y,
                    forall|j: int|
                        0 <= j < y ==> #[trigger] row@[j] == merged_tile(
                            cell(planet@, x as int, j),
                            cell(rooms@, x as int, j),
                        ),
                decreases n - y,
            {
                let p = planet[x][y];
                let c = rooms[x][y];
                let t = if p == 1 && c == 0 {
                    Tile::Wall
                } else if p == 1 && c == 1 {
                    Tile::Room(Status::Undesignated)
                } else {
                    Tile::Space
                };
                row.push(t);
                y += 1;
            }
            let ghost prev = out@;
            let ghost rv = row@;
            out.push(row);
            assert forall|i: int, j: int| 0 <= i <= x && 0 <= j < n implies #[trigger] cell(out@, i, j)
                == merged_tile(cell(planet@, i, j), cell(rooms@, i, j)) by {
                if i < x {
                    assert(out@[i] == prev[i]);
                    assert(cell(prev, i, j) == cell(out@, i, j));
                } else {
                    assert(rv[j] == cell(out@, i, j));
                }
            }
            x += 1;
        }
        out
    }
}

} // verus!
