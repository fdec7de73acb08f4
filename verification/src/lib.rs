//! Chunked file storage: upload buffers, content-addressed assets, path index
//! and the request checks that guard them.

pub mod assets;
pub mod digest;
pub mod example;
pub mod explore;
pub mod keyed;
pub mod laws;
pub mod permission;
pub mod state;
pub mod topics;
pub mod upload;

