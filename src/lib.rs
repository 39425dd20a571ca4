//! Procedural terrain: a heightfield in fixed-point elevation units, the
//! right-triangulated irregular network (RTIN) hierarchy over it, and the
//! meshes extracted from it.
pub mod generation;
pub mod grid;
pub mod heightmap;
pub mod image;
pub mod meshing;
pub mod tile;
pub mod rtin;
