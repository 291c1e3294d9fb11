//! A batch text-substitution library: it decides which files of a
//! directory tree are in scope (by extension, with named paths pruned at
//! any depth) and applies a compiled regular-expression search-and-replace
//! to each selected file's content, rewriting only what changed. The
//! traversal and the substitution engine are driven from outside: the
//! caller performs the filesystem reads and writes and this crate makes
//! every decision, under contract.

pub mod engine;
pub mod filter;
pub mod form;
pub mod model;
pub mod params;
pub mod template;
pub mod walker;
