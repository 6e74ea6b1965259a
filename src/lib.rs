//! A read-only filesystem view of a forum platform: containers (sub-communities)
//! are directories, their top items are files, and directory listings are
//! fetched on demand and cached for a fixed time.
pub mod entry;
pub mod fs;
pub mod item;
pub mod json;
pub mod laws;
pub mod text;
