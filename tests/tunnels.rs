use planet_gen::room::{generate_rooms, Room};
use planet_gen::roooms::{mst_to_coords, triangulation_to_coords, RoomTriangulation, Roooms};
use planet_gen::tile_map::{Status, Tile, TileMap};
use planet_gen::triangulation::{find_mst_indexes, get_triangle_edge_indeces};
use planet_gen::tunnels::{
    carve_tunnel, connect_rooms, line_between_rooms, simple_line, square_cells, thicken_line,
    TunnelError,
};
use planet_gen::types::{Coord, UMap8};

fn c(x: usize, y: usize) -> Coord {
    Coord { x, y }
}

fn block(x0: usize, y0: usize, w: usize, h: usize) -> Vec<Coord> {
    let mut v = Vec::new();
    for x in x0..x0 + w {
        for y in y0..y0 + h {
            v.push(c(x, y));
        }
    }
    v
}

fn map_with_blocks(n: usize, blocks: &[Vec<Coord>]) -> TileMap {
    let mut m = vec![vec![Tile::Wall; n]; n];
    for b in blocks {
        for p in b {
            m[p.x][p.y] = Tile::Room(Status::Undesignated);
        }
    }
    m
}

#[test]
fn bresenham_lines() {
    assert_eq!(simple_line(c(0, 0), c(3, 1)), vec![c(0, 0), c(1, 0), c(2, 1), c(3, 1)]);
    assert_eq!(simple_line(c(2, 2), c(2, 2)), vec![c(2, 2)]);
    assert_eq!(simple_line(c(3, 3), c(0, 0)), vec![c(3, 3), c(2, 2), c(1, 1), c(0, 0)]);
    assert_eq!(simple_line(c(1, 0), c(1, 3)), vec![c(1, 0), c(1, 1), c(1, 2), c(1, 3)]);
}

#[test]
fn squares_and_thick_lines() {
    let sq = square_cells(c(0, 5), 3);
    assert_eq!(sq.len(), 6);
    assert!(sq.contains(&c(1, 6)) && sq.contains(&c(0, 4)));
    let line = thicken_line(&vec![c(5, 5), c(6, 5)], &vec![1, 3]);
    assert!(line.contains(&c(5, 5)));
    assert!(line.contains(&c(7, 6)));
    assert!(!line.contains(&c(4, 4)));
    let thin = thicken_line(&vec![c(2, 2)], &vec![0]);
    assert_eq!(thin, vec![c(2, 2)]);
}

#[test]
fn carving_only_touches_walls() {
    let mut m = vec![vec![Tile::Wall; 4]; 4];
    m[1][0] = Tile::Space;
    m[2][0] = Tile::RoomEdge(0);
    let mut u: UMap8 = vec![vec![1; 4]; 4];
    let line = vec![c(0, 0), c(1, 0), c(2, 0), c(3, 0), c(0, 0)];
    assert_eq!(carve_tunnel(&line, &mut m, &mut u), Ok(()));
    assert_eq!(m[0][0], Tile::Tunnel(0));
    assert_eq!(m[1][0], Tile::Space);
    assert_eq!(m[2][0], Tile::RoomEdge(0));
    assert_eq!(m[3][0], Tile::Tunnel(0));
    assert_eq!(u[0][0], 0);
    assert_eq!(u[1][0], 1);
    assert_eq!(u[0][1], 1);
}

#[test]
fn carving_off_the_grid_is_refused() {
    let mut m = vec![vec![Tile::Wall; 4]; 4];
    let mut u: UMap8 = vec![vec![1; 4]; 4];
    let line = vec![c(0, 0), c(4, 1), c(9, 9)];
    assert_eq!(carve_tunnel(&line, &mut m, &mut u), Err(TunnelError::OutOfBounds(c(4, 1))));
    assert_eq!(m[0][0], Tile::Wall);
    assert_eq!(u[0][0], 1);
}

#[test]
fn connecting_skips_bad_lines_and_only_turns_walls_into_tunnel() {
    let mut m = vec![vec![Tile::Wall; 6]; 6];
    m[2][2] = Tile::Room(Status::Designated(0));
    let before = m.clone();
    let mut u: UMap8 = vec![vec![1; 6]; 6];
    let lines = vec![vec![c(0, 0), c(1, 1), c(2, 2)], vec![c(3, 3), c(6, 6)], vec![c(5, 5)]];
    assert_eq!(connect_rooms(&lines, &mut m, &mut u), vec![1]);
    assert_eq!(m[1][1], Tile::Tunnel(0));
    assert_eq!(m[2][2], Tile::Room(Status::Designated(0)));
    assert_eq!(m[3][3], Tile::Wall);
    assert_eq!(m[5][5], Tile::Tunnel(0));
    for x in 0..6 {
        for y in 0..6 {
            if m[x][y] == Tile::Tunnel(0) {
                assert_eq!(before[x][y], Tile::Wall);
            }
        }
    }
}

#[test]
fn triangle_edges() {
    assert_eq!(get_triangle_edge_indeces(&vec![0, 1, 2, 2, 1, 3]), vec![(0, 1), (1, 2), (2, 0), (2, 1), (1, 3), (3, 2)]);
    assert_eq!(get_triangle_edge_indeces(&vec![]), vec![]);
}

#[test]
fn mst_of_three_rooms_drops_the_longest_edge() {
    let rooms = vec![Room::new(block(0, 0, 2, 2), 0), Room::new(block(10, 0, 2, 2), 1), Room::new(block(0, 30, 2, 2), 2)];
    let mst = find_mst_indexes(&vec![0, 1, 2], &rooms);
    assert_eq!(mst.len(), 2);
    assert!(mst.contains(&(0, 1)));
    assert!(mst.contains(&(2, 0)));
    assert!(!mst.contains(&(1, 2)));
    let coords = mst_to_coords(&rooms, &vec![0, 1, 2]);
    assert_eq!(coords.len(), 2);
    assert_eq!(triangulation_to_coords(&vec![0, 1, 2], &rooms).len(), 3);
}

#[test]
fn mst_of_one_room_is_empty() {
    let rooms = vec![Room::new(block(0, 0, 2, 2), 0)];
    assert_eq!(find_mst_indexes(&vec![0, 0, 0], &rooms), vec![]);
}

#[test]
fn room_set_without_triangles_has_no_tree() {
    let mut m = map_with_blocks(20, &[block(1, 1, 4, 4), block(10, 10, 4, 4), block(1, 12, 4, 4)]);
    let mut rs = Roooms::new(&mut m, 4);
    assert_eq!(rs.rooms.len(), 3);
    assert!(rs.mst.is_none());
    assert!(rs.get_mst_as_coord().is_empty());
    assert!(rs.get_triangulation_coords().is_none());
    rs.set_triangulation(vec![]);
    assert!(rs.mst.is_none());
    rs.set_triangulation(vec![0, 1, 2]);
    assert_eq!(rs.mst.as_ref().unwrap().len(), 2);
    assert_eq!(rs.get_mst_as_coord().len(), 2);
    assert_eq!(rs.get_triangulation_coords().unwrap().len(), 3);
    assert_eq!(rs.get_room_centers().len(), 3);
    let t = RoomTriangulation::new(rs.rooms.clone());
    assert_eq!(t.rooms.len(), 3);
}

#[test]
fn two_squares_are_joined_by_one_tunnel() {
    let mut m = map_with_blocks(32, &[block(2, 2, 10, 10), block(18, 18, 10, 10)]);
    let mut u: UMap8 = vec![vec![1; 32]; 32];
    let rooms = generate_rooms(&mut m, 4);
    assert_eq!(rooms.len(), 2);
    let mst = find_mst_indexes(&vec![0, 1, 0], &rooms);
    assert_eq!(mst.len(), 1);
    let (a, b) = mst[0];
    let spine = line_between_rooms(&rooms[a], &rooms[b]);
    let ends = (spine[0], *spine.last().unwrap());
    assert!(ends == (c(11, 11), c(18, 18)) || ends == (c(18, 18), c(11, 11)));
    let widths = vec![1; spine.len()];
    let line = thicken_line(&spine, &widths);
    assert_eq!(connect_rooms(&vec![line], &mut m, &mut u), Vec::<usize>::new());
    let tunnel: Vec<(usize, usize)> = (0..32)
        .flat_map(|x| (0..32).map(move |y| (x, y)))
        .filter(|(x, y)| m[*x][*y] == Tile::Tunnel(0))
        .collect();
    assert_eq!(tunnel, vec![(12, 12), (13, 13), (14, 14), (15, 15), (16, 16), (17, 17)]);
    assert_eq!(u[14][14], 0);
}

#[test]
fn one_large_region_gives_one_room_and_no_tunnel() {
    let mut m = map_with_blocks(24, &[block(3, 3, 6, 6), block(15, 15, 2, 2)]);
    let mut rs = Roooms::new(&mut m, 15);
    assert_eq!(rs.rooms.len(), 1);
    assert_eq!(rs.rooms[0].tiles.len(), 36);
    rs.set_triangulation(vec![]);
    assert!(rs.mst.is_none());
    assert!(rs.get_mst_as_coord().is_empty());
    assert_eq!(m[15][15], Tile::Wall);
}
