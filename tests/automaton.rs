use planet_gen::cellular_automata::{
    get_neighboring_wall_tile_count_diagonal, get_neighboring_wall_tile_count_horizontal_and_vertical,
    get_neighboring_wall_tile_count_within_radius_square,
    decision, get_neighboring_wall_tile_count_within_radius_circle, precompute_circle_offsets,
    simulate, CaRules,
};
use planet_gen::types::{Blank, UMap8};

fn rules(iterations: u32, radius: u32, threshold: u32, misc: i32, invert: bool) -> CaRules {
    CaRules { iterations, search_radius: radius, threshold, misc, invert }
}

#[test]
fn circle_offsets_small_radii() {
    assert_eq!(precompute_circle_offsets(0), vec![(0, 0)]);
    assert_eq!(precompute_circle_offsets(1), vec![(0, -1), (-1, 0), (0, 0), (1, 0), (0, 1)]);
    assert_eq!(precompute_circle_offsets(2).len(), 13);
    assert_eq!(precompute_circle_offsets(3).len(), 29);
}

#[test]
fn neighbour_count_is_clipped_to_grid() {
    let g: UMap8 = vec![vec![1; 4]; 4];
    let offs = precompute_circle_offsets(1);
    assert_eq!(get_neighboring_wall_tile_count_within_radius_circle(0, 0, &g, &offs), 3);
    assert_eq!(get_neighboring_wall_tile_count_within_radius_circle(1, 1, &g, &offs), 5);
    assert_eq!(get_neighboring_wall_tile_count_within_radius_circle(0, 2, &g, &offs), 4);
}

#[test]
fn decision_uses_biased_threshold() {
    let g: UMap8 = vec![vec![1; 4]; 4];
    let offs = precompute_circle_offsets(1);
    let zero = vec![vec![0i32; 4]; 4];
    let mut bias = vec![vec![0i32; 4]; 4];
    bias[1][1] = 2;
    assert!(decision(1, 1, &g, &zero, &rules(0, 1, 4, 1, false), &offs));
    assert!(!decision(1, 1, &g, &bias, &rules(0, 1, 4, 1, false), &offs));
    assert!(decision(1, 1, &g, &bias, &rules(0, 1, 4, -1, false), &offs));
}

#[test]
fn zero_weight_zero_iterations_stays_empty() {
    let init = UMap8::blank(16);
    let bias = vec![vec![0i32; 16]; 16];
    let out = simulate(init, &bias, &rules(0, 3, 7, 1, false));
    assert_eq!(out.len(), 16);
    assert!(out.iter().all(|row| row.len() == 16 && row.iter().all(|v| *v == 0)));
}

#[test]
fn one_generation_is_rounded_up_to_two() {
    let mut init = UMap8::blank(6);
    init[2][2] = 1;
    init[3][3] = 1;
    init[2][3] = 1;
    let bias = vec![vec![0i32; 6]; 6];
    let a = simulate(init.clone(), &bias, &rules(1, 1, 2, 0, false));
    let b = simulate(init.clone(), &bias, &rules(2, 1, 2, 0, false));
    assert_eq!(a, b);
}

#[test]
fn single_generation_by_hand() {
    // two generations on an all-solid 3x3 grid with threshold 3, radius 1:
    // counts are 3 at corners, 4 on sides, 5 in the middle
    let init: UMap8 = vec![vec![1; 3]; 3];
    let bias = vec![vec![0i32; 3]; 3];
    let out = simulate(init, &bias, &rules(2, 1, 3, 0, false));
    // after the first step: corners 1, others 0; then each corner sees 1 solid cell
    assert_eq!(out, vec![vec![1, 1, 1], vec![1, 1, 1], vec![1, 1, 1]]);
    let inv = simulate(vec![vec![1; 3]; 3], &bias, &rules(2, 1, 3, 0, true));
    assert_eq!(inv, vec![vec![0; 3]; 3]);
}

#[test]
fn simulation_is_deterministic() {
    let mut init = UMap8::blank(12);
    for x in 0..12 {
        for y in 0..12 {
            init[x][y] = ((x * 7 + y * 3) % 5 == 0) as u8;
        }
    }
    let bias: Vec<Vec<i32>> = (0..12).map(|x| (0..12).map(|y| ((x + y) % 3) as i32).collect()).collect();
    let r = rules(4, 2, 6, 1, false);
    let a = simulate(init.clone(), &bias, &r);
    let b = simulate(init, &bias, &r);
    assert_eq!(a, b);
    assert_eq!(a.len(), 12);
}

#[test]
fn square_and_cross_neighbour_counts() {
    let g: UMap8 = vec![vec![1; 5]; 5];
    assert_eq!(get_neighboring_wall_tile_count_within_radius_square(2, 2, &g, 2), 24);
    assert_eq!(get_neighboring_wall_tile_count_within_radius_square(0, 0, &g, 1), 3);
    assert_eq!(get_neighboring_wall_tile_count_diagonal(2, 2, &g), 8);
    assert_eq!(get_neighboring_wall_tile_count_diagonal(0, 4, &g), 3);
    assert_eq!(get_neighboring_wall_tile_count_horizontal_and_vertical(2, 2, &g), 4);
    assert_eq!(get_neighboring_wall_tile_count_horizontal_and_vertical(4, 0, &g), 2);
}
