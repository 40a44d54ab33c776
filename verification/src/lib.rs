//! Statistics over one walk of a directory tree: the total size of its files,
//! their count and size by extension, and the largest files.
//!
//! The library works on what a walk reports, entry by entry; walking the
//! file system itself is left to the caller.

pub mod entry;
pub mod format;
pub mod largest;
pub mod pathname;
pub mod ranking;
pub mod scan;
pub mod summary;
