use planet_gen::contour::{contour_field, effective_resolution, gray_level, ContourError, CONTOUR_THRESHOLD};
use planet_gen::grid_ops::{
    check_neighbors_horizonatl_or_vertical, displace, doubler, find_brightest_pixel, get_surface, mult, thresh_sub,
};
use planet_gen::tile_map::{FromUMap, Status, Tile, TileMap};
use planet_gen::types::{Blank, Coord, UMap16, UMap8};

#[test]
fn blank_grids_have_r_squared_cells() {
    for r in [8usize, 9, 16, 33] {
        let g = UMap8::blank(r);
        assert_eq!(g.len(), r);
        assert!(g.iter().all(|row| row.len() == r && row.iter().all(|v| *v == 0)));
        let h = UMap16::blank(r);
        assert_eq!(h.iter().map(|row| row.len()).sum::<usize>(), r * r);
    }
}

#[test]
fn resolution_is_at_least_eight() {
    assert_eq!(effective_resolution(0), 8);
    assert_eq!(effective_resolution(7), 8);
    assert_eq!(effective_resolution(8), 8);
    assert_eq!(effective_resolution(300), 300);
}

#[test]
fn tiles_from_landmass() {
    let g: UMap8 = vec![vec![1, 0], vec![2, 1]];
    let t = TileMap::from_u_map(&g);
    assert_eq!(t, vec![vec![Tile::Wall, Tile::Space], vec![Tile::Space, Tile::Wall]]);
}

#[test]
fn tiles_from_landmass_and_caves() {
    let land: UMap8 = vec![vec![0, 1, 1], vec![1, 1, 0], vec![2, 1, 1]];
    let cave: UMap8 = vec![vec![1, 0, 1], vec![2, 1, 1], vec![1, 0, 0]];
    let t = TileMap::rooms_planet_combiner(&land, &cave);
    let u = Tile::Room(Status::Undesignated);
    assert_eq!(t[0], vec![Tile::Space, Tile::Wall, u]);
    assert_eq!(t[1], vec![Tile::Space, u, Tile::Space]);
    assert_eq!(t[2], vec![Tile::Space, Tile::Wall, Tile::Wall]);
}

#[test]
fn threshold_subtraction() {
    let cave: UMap8 = vec![vec![1, 1], vec![0, 1]];
    let land: UMap8 = vec![vec![1, 1], vec![1, 0]];
    let deep = vec![vec![false, true], vec![false, false]];
    assert_eq!(thresh_sub(&cave, &land, &deep), vec![vec![0, 1], vec![1, 0]]);
}

#[test]
fn cell_products() {
    let a: UMap8 = vec![vec![1, 0], vec![1, 1]];
    let b: UMap8 = vec![vec![5, 5], vec![0, 3]];
    assert_eq!(mult(&a, &b), vec![vec![5, 0], vec![0, 3]]);
}

#[test]
fn displacement_clamps_to_grid() {
    let g: UMap8 = vec![vec![1, 2, 3], vec![4, 5, 6], vec![7, 8, 9]];
    let mut offs = vec![vec![(0i32, 0i32); 3]; 3];
    offs[0][0] = (1, 1);
    offs[2][2] = (5, -7);
    offs[1][1] = (-1, 0);
    let d = displace(&g, &offs);
    assert_eq!(d[0][0], 5);
    assert_eq!(d[2][2], 7);
    assert_eq!(d[1][1], 2);
    assert_eq!(d[0][1], 2);
}

#[test]
fn surface_cells_of_a_square() {
    let mut g = UMap8::blank(5);
    for x in 1..4 {
        for y in 1..4 {
            g[x][y] = 1;
        }
    }
    let s = get_surface(&g);
    assert_eq!(s.len(), 8);
    assert!(!s.contains(&Coord { x: 2, y: 2 }));
    assert_eq!(s[0], Coord { x: 1, y: 1 });
    assert!(check_neighbors_horizonatl_or_vertical(1, 2, &g));
    assert!(!check_neighbors_horizonatl_or_vertical(0, 0, &g));
    let full: UMap8 = vec![vec![1; 3]; 3];
    assert!(get_surface(&full).is_empty());
}

#[test]
fn consecutive_pairs() {
    assert_eq!(doubler(vec![1, 2, 3]), Some(vec![(1, 2), (2, 3)]));
    assert_eq!(doubler(vec![1]), None);
    assert_eq!(doubler(Vec::<u8>::new()), None);
}

#[test]
fn contour_input() {
    let g: UMap16 = vec![vec![0, 1], vec![1, 0]];
    assert_eq!(contour_field(&g), Ok(vec![vec![0, 255], vec![255, 0]]));
    assert_eq!(contour_field(&Vec::new()), Err(ContourError::Empty));
    assert_eq!(gray_level(255, 255, 255), 255);
    assert_eq!(gray_level(10, 20, 31), 20);
}

#[test]
fn contour_of_a_solid_block_is_closed() {
    let mut g = UMap16::blank(10);
    for x in 2..8 {
        for y in 2..8 {
            g[x][y] = 1;
        }
    }
    let values = contour_field(&g).unwrap();
    let field = marching_squares::Field {
        dimensions: (10, 10),
        top_left: marching_squares::Point { x: 0.0, y: 0.0 },
        pixel_size: (1.0, 1.0),
        values: &values,
    };
    let lines = field.get_contours(CONTOUR_THRESHOLD);
    assert!(!lines.is_empty());
    let line = &lines[0];
    assert!(line.points.len() >= 4);
    let first = line.points[0];
    let last = line.points[line.points.len() - 1];
    assert!((first.x - last.x).abs() < 1e-3 && (first.y - last.y).abs() < 1e-3);
    for p in &line.points {
        assert!(p.x >= 1.0 && p.x <= 8.0 && p.y >= 1.0 && p.y <= 8.0);
    }
}

#[test]
fn brightest_pixel_is_the_first_maximum() {
    let px = vec![[0, 0, 0, 255], [10, 20, 30, 1], [30, 20, 10, 2], [5, 5, 5, 3]];
    assert_eq!(find_brightest_pixel(&px), [10, 20, 30, 1]);
    assert_eq!(find_brightest_pixel(&vec![[0, 0, 0, 9]]), [0, 0, 0, 0]);
    assert_eq!(find_brightest_pixel(&vec![]), [0, 0, 0, 0]);
}

#[test]
fn consecutive_pairs_of_strings() {
    let v = vec!["a".to_string(), "b".to_string(), "c".to_string()];
    let pairs = doubler(v).unwrap();
    assert_eq!(pairs[1], ("b".to_string(), "c".to_string()));
}
