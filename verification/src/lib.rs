//! Verified core of a disk-usage treemap visualizer.
//!
//! The library models a directory tree with aggregated sizes, scans a
//! filesystem snapshot into that tree, prunes statistically insignificant
//! nodes, lays the tree out as a squarified treemap of nested rectangles,
//! and resolves pointer positions to rectangles.

pub mod folder;
pub mod hittest;
pub mod layout;
pub mod scan;

pub use folder::FolderNode;
