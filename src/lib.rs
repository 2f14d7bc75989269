//! Relocation of staged asset files into resource and behavior pack trees.
//!
//! `classify` decides from a file's path alone where the file belongs;
//! `copier` holds the per-file copy policy and the directory worklist that a
//! caller drives against a real filesystem.
use vstd::prelude::*;

pub mod classify;
pub mod copier;
