//! Aligning a project's `Cargo.lock` with the versions of an older lock file.

pub mod text;
pub mod version;
pub mod source;
pub mod package;
pub mod graph;
pub mod tables;
pub mod candidate;
pub mod collect;
pub mod order;
pub mod lockfile;
pub mod align;
pub mod laws;
