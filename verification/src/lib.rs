//! A read-only file system packed into a single archive file.
pub mod error;
pub mod meta;
pub mod path;
pub mod tree;
pub mod file;
pub mod format;
pub mod fs;
pub mod scan;
pub mod pack;
pub mod builder;
pub mod unpack;
