//! Left-trims every line of a log file and rewrites it with CR+LF line endings.
//!
//! The crate holds the rules of the batch trimmer as verified functions on
//! plain values: which configurations are accepted, which directory entries
//! are log files, how a file's bytes split into lines, and what is written
//! for each line. Reading directories and files is left to the caller.

pub mod batch;
pub mod config;
pub mod encoding;
pub mod entry;
pub mod line;
pub mod transform;
pub mod whitespace;
