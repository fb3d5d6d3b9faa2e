//! Change detection for a file tree: scan a tree of files into a manifest of
//! `path[=]digest` lines, report recently created files, and compare a tree
//! against a previously written manifest.

pub mod bytes;
pub mod digest;
pub mod fstree;
pub mod manifest;
pub mod compare;
pub mod days;
pub mod scan;
