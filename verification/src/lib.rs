//! An extent-based block file system: on-disk formats, allocation bitmaps,
//! the per-inode extent tree and the directory layer, with their contracts.

pub mod bitmaps;
pub mod block;
pub mod constants;
pub mod directories;
pub mod extent_tree;
pub mod file_errors;
pub mod files;
pub mod filesystem;
pub mod inode;
