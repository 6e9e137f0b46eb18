//! Spatial indexing for a smoothed-particle hydrodynamics solver.
//!
//! Space is cut into cubic cells addressed by integer keys.  The structures
//! here keep track of which particle sits in which cell and enumerate the
//! particles of a block of neighbouring cells, so that per-particle sums over
//! a kernel's support touch only nearby candidates.  Particles are known by
//! their index in the caller's flat particle array; positions, and the
//! arithmetic that turns a position into a cell key, stay with the caller.

pub mod block;
pub mod cell;
pub mod filtering;
pub mod hash_grid;
pub mod lattice;
pub mod moving;
pub mod partition;
pub mod space;
pub mod spatial_hash_grid;
mod table;

pub use cell::CellKey;
pub use hash_grid::{HashGrid, PlaneKey};
pub use lattice::cube_lattice;
pub use space::Space;
pub use spatial_hash_grid::SpatialHashGrid;
