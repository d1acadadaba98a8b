//! Server-side core of a voxel world: terrain chunks, their run-length wire
//! encoding, the framed client protocol, the client registry with its
//! demand aggregation, the world store and the generation scheduler.
pub mod chunk;
pub mod client;
pub mod metrics;
pub mod protocol;
pub mod registry;
pub mod rle;
pub mod scheduler;
pub mod wire;
pub mod world;
