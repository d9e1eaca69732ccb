//! Orchestration core for a procedurally generated terrain world.
//!
//! The crate covers the coordinate algebra between world space, chunk space
//! and heightmap-section space, the chunk cache that absorbs bulk-generated
//! elevation sections and serves individual chunks, the flat 3D buffer
//! addressing used by the cave sampler, and the cave sampler's iteration
//! geometry. Noise evaluation, GPU work and the HTTP front end live outside
//! the library and only exchange plain values with it.

pub mod chunk;
pub mod flat_vec_3d;
pub mod height;
pub mod cave;
