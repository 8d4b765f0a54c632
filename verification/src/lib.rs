//! A hierarchical workspace of nested folders and notes, kept as an
//! in-memory tree that mirrors a directory on disk.
//!
//! The library holds the rules and never touches the disk itself. Its caller
//! looks at the disk and hands in what was found as plain values: whether a
//! path exists, whether a regular file is there, what a directory lists, how
//! a move ended. The library decides what follows and keeps the tree and the
//! vault's record in step; writing to disk is again the caller's part.
//!
//! - [`path`]: absolute paths and the lexical rules for walking a path text.
//! - [`layout`]: the reserved directory of a vault and the file of its record.
//! - [`disk`]: what was found on disk, as plain values.
//! - [`note`], [`folder`], [`vault`]: the tree, how it is loaded, moved and
//!   renamed, and how the active folder is changed without leaving the vault.
//! - [`store`]: the record that a vault keeps beside its tree.
//! - [`error`]: the ways in which an operation can fail.

pub mod disk;
pub mod error;
pub mod folder;
pub mod layout;
pub mod note;
pub mod path;
pub mod store;
pub mod vault;
