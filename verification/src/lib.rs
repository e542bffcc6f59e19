//! Reversible anonymization of the names of files and directories in a tree.
//!
//! Every entry's name is replaced with a randomly generated identifier, and
//! the mapping from original relative path to identifier is persisted so the
//! transformation can be undone.  The heart of the library is the ordering
//! scheduler: the sequence of individual renames is chosen so that no rename
//! ever invalidates the source path of a later one.

pub mod config;
pub mod entry;
pub mod ident;
pub mod passes;
pub mod paths;
pub mod schedule;
pub mod table;
