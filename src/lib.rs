//! Tracks the chapters of web serials that were read, and reports the series
//! whose latest published chapter is newer than the last one read.

mod text;
pub mod chapter;
pub mod history;
pub mod diff;
pub mod page;
