//! Integer core of a CPU ray tracer: the binary STL mesh format, order keys for
//! coordinates, bounding boxes over those keys, the bounding volume hierarchy over
//! triangle indices, and the tile scheduler that lays out and assembles the image.
//!
//! Coordinates are IEEE-754 single-precision values. This library never computes
//! with them: it reads them as raw bit patterns, and orders them through order keys
//! (see `keys`), which is all that the hierarchy's construction needs.

pub mod aabb;
pub mod bvh;
pub mod keys;
pub mod lights;
pub mod mesh;
pub mod stl;
pub mod tiles;
