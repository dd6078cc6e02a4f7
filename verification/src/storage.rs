//! The content store: files are split into chunks (content-defined, fixed
//! size or by lines), each identified by its BLAKE3 hash.

pub mod error;
pub mod store;
