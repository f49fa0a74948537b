//! Procedural generation of a planet-sized cavern map over integer grids:
//! tile classification, flood-fill room extraction, room connection through
//! a minimum spanning tree, tunnel carving and a cellular-automaton cave
//! simulator.
//!
//! - `types`: cells, grids and the `Blank` constructor.
//! - `tile_map`: the tile grid built from the landmass and cave grids.
//! - `region`: reachability over unclaimed room cells and the flood fill.
//! - `centers`: distances, means and the inscribed-circle room center.
//! - `room`: rooms, their edges, and room extraction.
//! - `tunnels`: closest edge tiles, Bresenham lines, thick lines, carving.
//! - `triangulation`: triangle edges and the minimum spanning tree.
//! - `roooms`: the rooms of a map with their triangulation and tree.
//! - `cellular_automata`: the cave automaton.
//! - `grid_ops`: mask subtraction, displacement, surface cells and helpers.
//! - `contour`: resolution floor and the input of contour tracing.
pub mod types;
pub mod tile_map;
pub mod centers;
pub mod room;
pub mod region;
pub mod tunnels;
pub mod triangulation;
pub mod roooms;
pub mod cellular_automata;
pub mod grid_ops;
pub mod contour;
