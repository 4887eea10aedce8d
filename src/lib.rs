//! A dense 3D tile grid and the enumeration of its solid islands: each maximal
//! face-connected group of colliding tiles becomes one triangle mesh.

pub mod grid;
pub mod mesh;
pub mod component;
pub mod colliders;
