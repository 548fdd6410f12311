//! Integer geometry shared by every solver: coordinates, face matrices and boxes.
pub mod aabb;
pub mod cell_count;
pub mod faces;
pub mod indexing;

pub use aabb::AABB;
pub use faces::{faces, point, Bounds, Coord, Faces};
