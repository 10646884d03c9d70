//! Sorting the files of a directory tree into folders named after their type.
//!
//! The library holds the rules: how a file's type is read from its name, which
//! entries of a listing become part of the tree, and which directories are made
//! and which files are moved where. Reading and changing the filesystem is left
//! to the caller, who hands listings in and carries the planned steps out.

pub mod names;
pub mod time;
pub mod tree;
pub mod scan;
pub mod organize;
pub mod prompt;
pub mod scanner;
