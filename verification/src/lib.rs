//! A wave function collapse terrain generator: a weighted, rotation-aware
//! tile adjacency model, a constraint-propagating solver over a grid of
//! superposed tiles, and projectors that turn a collapsed grid into a flat
//! category bitmap and a per-column height map.

pub mod bitmap;
pub mod declarative;
pub mod rng;
pub mod tileset;
pub mod types;
pub mod wfc;
pub mod world;
