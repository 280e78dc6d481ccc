//! Disk usage of a directory tree: an aggregated tree of sizes, and the
//! report that lists each entry with its share of its parent.

pub mod node;
pub mod options;
pub mod render;
pub mod scan;
pub mod text;
