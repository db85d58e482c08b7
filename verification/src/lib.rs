//! Verified core of a line-oriented operator log.
//!
//! The log is a text file of newline-terminated lines. This crate holds the
//! pure, verified part of its two operations: appending one entry as a line,
//! and reading the last `n` lines, newest first. The file system itself is
//! outside the crate; callers hand in the file contents (or the failed read)
//! and get back the new contents or the selected lines.

pub mod lines;
pub mod log;
