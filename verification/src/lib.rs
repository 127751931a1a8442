//! A file-selection and safe-deletion pipeline: scan target folders for
//! files old by every selected measure, plan their removal to the trash,
//! and plan the bottom-up removal of directories left empty.
//!
//! The crate works on plain data: paths as sequences of byte components,
//! timestamps in nanoseconds, and snapshots of directory trees. Reading
//! the filesystem, moving entries to the trash and reporting progress
//! are the caller's side of the bargain; every decision in between is
//! made, and proved, here.

pub mod config;
pub mod executor;
pub mod paths;
pub mod prune;
pub mod select;
