//! Block-storage substrate for a full-text search index living inside a
//! relational database: segment files, metadata slots and locks are mapped
//! onto fixed-size pages of one relation.

pub mod atomic;
pub mod channel;
pub mod codec;
pub mod ctid;
pub mod directory;
pub mod error;
pub mod page;
pub mod resources;
pub mod segment;
pub mod segment_handle;
pub mod writer_dir;
