//! A read-only view of a snapshot repository as a tree of Lucene index files.

pub mod attr;
pub mod content;
pub mod error;
pub mod fs;
pub mod grammar;
pub mod metadata;
pub mod order;
pub mod plan;
pub mod repo;
pub mod smile;
pub mod table;
pub mod text;
