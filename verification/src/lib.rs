//! Builds a model of a directory: the directories and files that survive
//! layered ignore rules, arranged as a tree, with the text of every file.
//!
//! The library decides; it reads no file and enumerates no directory. A
//! caller hands it the entries of a depth-first enumeration one by one, reads
//! the ignore files it asks for, loads the files it adds, and hands back what
//! was read. The walk over the entries is in [`codebase::walker`], the tree in
//! [`tree`], the rules of an ignore file in [`gitignore`].

pub mod codebase;
pub mod error;
pub mod exclusion;
pub mod file;
pub mod gitignore;
pub mod glob;
pub mod outline;
pub mod path;
pub mod text;
pub mod tree;
pub mod utils;
pub mod walk;
