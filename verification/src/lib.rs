//! Batch file renaming as verified logic: derive rename rules from two
//! line-aligned text buffers, validate them for internal consistency, and plan
//! a conflict-safe, two-phase application over a model of the filesystem.

pub mod executor;
pub mod fs_model;
pub mod laws;
pub mod rules;
pub mod validate;
