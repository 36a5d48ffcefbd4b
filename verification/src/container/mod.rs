//! The package container: entry names, size caps, and the archive itself.
pub mod archive;
pub mod data;
pub mod sanitize;
