//! The bounding-volume hierarchy: boxes and the tree built over them.

pub mod aabb;
pub mod node;
