//! Wave Function Collapse map generation.
//!
//! The crate builds two-dimensional tile maps: a catalog of tile variants is
//! derived from sample artifacts (a raster sample cut into rotated tiles, or a
//! textual schematic cut into patterns), adjacency constraints are derived from
//! tile edges or pattern overlap, and a solver collapses one grid cell at a
//! time, always choosing a cell of lowest weighted entropy, restarting on
//! contradiction.  After a successful collapse an A* pass checks that the goal
//! corner is reachable from the start corner and prunes cells that cannot reach
//! the start.
//!
//! The textual chunk model carries the pipeline up to constraint derivation
//! and the rendered pattern gallery; it has no solve loop of its own.

pub mod catalog;
pub mod chunkmap;
pub mod direction;
pub mod pathfind;
pub mod patterns;
pub mod position;
pub mod raster;
pub mod rng;
pub mod tile;
pub mod tilemap;
pub mod tiletype;
