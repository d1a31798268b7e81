//! Core of a voxel world server: chunk storage and run-length compression,
//! a priority queue for background chunk generation, an incremental lighting
//! queue, per-player streaming and eviction, and the tick orchestration that
//! composes them.

pub mod chunk;
pub mod light;
pub mod player;
pub mod posset;
pub mod registry;
pub mod server;
pub mod worker;
pub mod world;
