//! A grid-based wave function collapse solver.
//!
//! A finite catalog of tiles, each with four edge signatures, is laid out on a
//! rectangular lattice so that every pair of touching tiles agrees on the
//! signature of the boundary they share.  The solver works one tick at a time:
//! it picks a cell with the fewest remaining candidates, commits it to one of
//! them, and narrows the candidates of its four immediate neighbours.  When a
//! cell runs out of candidates the whole grid starts over.
//!
//! Everything here is proved against its contract except the three items of
//! [`chance`], which state what the `rand` crate documents of its generator.
//! The module [`tiling`] states what the ticks add up to: collapsed cells that
//! touch always hold tiles whose edges fit.

pub mod catalog;
pub mod chance;
pub mod direction;
pub mod grid;
pub mod lattice;
pub mod signature;
pub mod solver;
pub mod tile;
pub mod tiling;

pub use catalog::{CatalogError, TileCatalog};
pub use direction::Direction;
pub use grid::{Cell, Grid};
pub use lattice::{
    get_neighbors_no_wrap, get_neighbors_wrap_x, get_neighbors_wrap_xy, get_neighbors_wrap_y,
    neighbors, CardinalDirections, SnappedCoordinate, WrapPolicy,
};
pub use solver::TickEvent;
pub use tile::Tile;
