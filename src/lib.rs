//! Turns tagged map footprints into voxel placements for building-like structures.
pub mod tags;
pub mod params;
pub mod blocks;
pub mod geometry;
pub mod palette;
pub mod plan;
pub mod synth;
pub mod laws;
