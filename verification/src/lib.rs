//! Streaming core of a voxel-world client: which blocks of the world to
//! request, refine and release as the observer moves, and at what level of
//! detail.

pub mod position;
pub mod lod;
pub mod shell;
pub mod resident;
pub mod surroundings_loader;
pub mod block_cache;
pub mod streaming;
pub mod steady;
pub mod handshake;
