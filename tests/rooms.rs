use planet_gen::centers::{average_center, edge_average_center, max_inscribed_circle};
use planet_gen::room::{generate_rooms, get_adjacent_coords, get_edge_indexes, Room};
use planet_gen::tile_map::{Status, Tile, TileMap};
use planet_gen::tunnels::closest_tiles;
use planet_gen::types::Coord;

fn c(x: usize, y: usize) -> Coord {
    Coord { x, y }
}

fn block(x0: usize, y0: usize, w: usize, h: usize) -> Vec<Coord> {
    let mut v = Vec::new();
    for x in x0..x0 + w {
        for y in y0..y0 + h {
            v.push(c(x, y));
        }
    }
    v
}

fn wall_map(n: usize) -> TileMap {
    vec![vec![Tile::Wall; n]; n]
}

fn open_cells(m: &mut TileMap, cells: &[Coord]) {
    for p in cells {
        m[p.x][p.y] = Tile::Room(Status::Undesignated);
    }
}

#[test]
fn adjacent_coords_in_corner_and_middle() {
    assert_eq!(get_adjacent_coords(&c(0, 0), 4), vec![c(0, 1), c(1, 0)]);
    assert_eq!(get_adjacent_coords(&c(2, 2), 4), vec![c(2, 1), c(2, 3), c(1, 2), c(3, 2)]);
    assert_eq!(get_adjacent_coords(&c(3, 3), 4), vec![c(3, 2), c(2, 3)]);
    assert_eq!(get_adjacent_coords(&c(0, 0), 1), vec![]);
}

#[test]
fn edge_indexes_of_a_block() {
    let tiles = block(5, 5, 3, 3);
    assert_eq!(get_edge_indexes(&tiles), vec![0, 1, 2, 3, 5, 6, 7, 8]);
}

#[test]
fn edge_test_counts_the_zero_border() {
    // tiles in column 0 or row 0 miss a neighbour below zero
    let tiles = block(0, 0, 3, 3);
    assert_eq!(get_edge_indexes(&tiles), vec![0, 1, 2, 3, 5, 6, 7, 8]);
    let square = block(0, 0, 2, 2);
    assert_eq!(get_edge_indexes(&square), vec![0, 1, 2, 3]);
}

#[test]
fn inscribed_circle_center_of_blocks() {
    let t3 = block(5, 5, 3, 3);
    let e3 = get_edge_indexes(&t3);
    assert_eq!(max_inscribed_circle(&t3, &e3), c(6, 6));
    let t5 = block(5, 5, 5, 5);
    let e5 = get_edge_indexes(&t5);
    assert_eq!(max_inscribed_circle(&t5, &e5), c(7, 7));
}

#[test]
fn inscribed_circle_falls_back_to_mean() {
    let tiles = vec![c(2, 2), c(3, 2), c(4, 2), c(4, 3)];
    let edges = vec![0, 1, 2, 3];
    assert_eq!(max_inscribed_circle(&tiles, &edges), c(3, 2));
    assert_eq!(max_inscribed_circle(&tiles, &[]), c(2, 2));
}

#[test]
fn average_centers() {
    let tiles = vec![c(1, 2), c(3, 4), c(5, 9)];
    assert_eq!(average_center(&tiles), c(3, 5));
    assert_eq!(edge_average_center(&tiles, &[0, 2]), c(2, 3));
}

#[test]
fn room_new_finds_edges_and_center() {
    let room = Room::new(block(5, 5, 5, 5), 7);
    assert_eq!(room.id, 7);
    assert_eq!(room.tiles.len(), 25);
    assert_eq!(room.edge_tile_indexes.len(), 16);
    assert_eq!(room.center, c(7, 7));
    assert_eq!(room.get_edge_tiles().len(), 16);
    assert_eq!(room.get_min_max_coords(), (c(5, 5), c(9, 9)));
}

#[test]
fn min_max_of_empty_room_are_sentinels() {
    let room = Room { tiles: vec![], center: c(0, 0), edge_tile_indexes: vec![], id: 0 };
    assert_eq!(room.get_min_max_coords(), (Coord::max(), Coord::min()));
}

#[test]
fn generate_room_on_other_tile_is_none() {
    let mut m = wall_map(8);
    let before = m.clone();
    assert!(Room::generate_room((3, 3), &mut m, 0, 1).is_none());
    assert_eq!(m, before);
}

#[test]
fn generate_room_marks_edges_and_center() {
    let mut m = wall_map(12);
    open_cells(&mut m, &block(2, 2, 5, 5));
    let room = Room::generate_room((2, 2), &mut m, 3, 4).unwrap();
    assert_eq!(room.tiles[0], c(2, 2));
    assert_eq!(room.tiles.len(), 25);
    assert_eq!(room.center, c(4, 4));
    assert_eq!(m[4][4], Tile::RoomCenter(3));
    assert_eq!(m[2][2], Tile::RoomEdge(3));
    assert_eq!(m[3][3], Tile::Room(Status::Designated(3)));
    assert_eq!(m[7][7], Tile::Wall);
}

#[test]
fn generate_room_small_region_becomes_wall() {
    let mut m = wall_map(8);
    open_cells(&mut m, &block(1, 1, 1, 3));
    assert!(Room::generate_room((1, 2), &mut m, 0, 4).is_none());
    for y in 1..4 {
        assert_eq!(m[1][y], Tile::Wall);
    }
}

#[test]
fn filtering_drops_small_regions() {
    let mut m = wall_map(16);
    open_cells(&mut m, &block(1, 1, 1, 3));
    open_cells(&mut m, &block(6, 6, 4, 4));
    let rooms = generate_rooms(&mut m, 5);
    assert_eq!(rooms.len(), 1);
    assert_eq!(rooms[0].id, 0);
    assert_eq!(rooms[0].tiles.len(), 16);
    assert!(rooms.iter().all(|r| r.tiles.len() >= 5));
    assert_eq!(m[1][2], Tile::Wall);
    for row in &m {
        assert!(row.iter().all(|t| *t != Tile::Room(Status::Undesignated)));
    }
}

#[test]
fn two_disjoint_squares_give_two_rooms() {
    let mut m = wall_map(32);
    open_cells(&mut m, &block(2, 2, 10, 10));
    open_cells(&mut m, &block(18, 18, 10, 10));
    let rooms = generate_rooms(&mut m, 4);
    assert_eq!(rooms.len(), 2);
    let a = &rooms[0];
    let b = &rooms[1];
    assert_eq!((a.id, b.id), (0, 1));
    assert_eq!(a.tiles.len(), 100);
    assert_eq!(b.tiles.len(), 100);
    assert!((2..12).contains(&a.center.x) && (2..12).contains(&a.center.y));
    assert!((18..28).contains(&b.center.x) && (18..28).contains(&b.center.y));
    assert_eq!(m[a.center.x][a.center.y], Tile::RoomCenter(0));
    assert_eq!(m[b.center.x][b.center.y], Tile::RoomCenter(1));
    assert_eq!(closest_tiles(a, b), (c(11, 11), c(18, 18)));
}

#[test]
fn room_tiles_connect_to_center() {
    let mut m = wall_map(16);
    let cells = vec![c(2, 2), c(2, 3), c(2, 4), c(3, 4), c(4, 4), c(4, 5), c(4, 6), c(5, 6)];
    open_cells(&mut m, &cells);
    open_cells(&mut m, &block(8, 8, 5, 5));
    let rooms = generate_rooms(&mut m, 4);
    assert_eq!(rooms.len(), 2);
    for room in &rooms {
        let center = room.center;
        assert!(center.x < 16 && center.y < 16);
        // every tile reaches the center over tiles of the room
        let mut seen = vec![center];
        let mut i = 0;
        while i < seen.len() {
            let p = seen[i];
            for q in get_adjacent_coords(&p, 16) {
                if room.tiles.contains(&q) && !seen.contains(&q) {
                    seen.push(q);
                }
            }
            i += 1;
        }
        if room.tiles.contains(&center) {
            assert!(room.tiles.iter().all(|t| seen.contains(t)));
        }
    }
}

#[test]
fn room_extraction_is_deterministic() {
    let mut m1 = wall_map(20);
    open_cells(&mut m1, &block(1, 1, 6, 3));
    open_cells(&mut m1, &block(3, 3, 2, 8));
    open_cells(&mut m1, &block(12, 12, 5, 5));
    let mut m2 = m1.clone();
    let a = generate_rooms(&mut m1, 4);
    let b = generate_rooms(&mut m2, 4);
    assert_eq!(m1, m2);
    assert_eq!(a.len(), b.len());
    for (x, y) in a.iter().zip(b.iter()) {
        assert_eq!(x.tiles, y.tiles);
        assert_eq!(x.center, y.center);
        assert_eq!(x.edge_tile_indexes, y.edge_tile_indexes);
    }
    // rooms never share a tile
    for (i, x) in a.iter().enumerate() {
        for y in a.iter().skip(i + 1) {
            assert!(x.tiles.iter().all(|t| !y.tiles.contains(t)));
        }
    }
}

#[test]
fn coordinate_offsets_clamp() {
    assert_eq!(c(3, 4) + (1, -2), c(4, 2));
    assert_eq!(c(0, 1) + (-1, -5), c(0, 0));
    assert_eq!(c(usize::MAX, 0) + (1, 0), c(usize::MAX, 0));
    assert_eq!(c(2, 2).offset(-1, 1), c(1, 3));
    assert_eq!(c(2, 2).shift(3, 4), c(5, 6));
    assert_eq!(Coord::default(), c(0, 0));
}
