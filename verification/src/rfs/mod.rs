//! RFS: a block-based file system with extents, directories and symlinks.

pub mod dir;
pub mod dirlaws;
pub mod disk;
pub mod file;
pub mod inode;
pub mod laws;
pub mod oplaws;
pub mod ops;
pub mod path;
pub mod pathlaws;
