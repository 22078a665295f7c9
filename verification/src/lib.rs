//! Snapshots of page-cache residency.
//!
//! A snapshot lists, file by file, which pages of the files below a directory
//! are resident in the page cache.  Each file with at least one resident page
//! contributes a block of text: its path on a line of its own, then one line
//! per resident page holding the decimal gap to the previous resident page.
//!
//! This crate holds the rules of that pipeline as functions on plain values:
//! how a directory tree is walked, how a mapping is cut into chunks for the
//! residency query, and how residency bitmaps become text.  The system calls
//! themselves and the compressed output file belong to the program that
//! drives these functions.

pub mod decimal;
pub mod delta;
pub mod preorder;
pub mod residency;
pub mod scan;
pub mod walk;
