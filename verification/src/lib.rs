//! Whitespace- and order-insensitive comparison of textual configuration
//! files.
//!
//! A configuration file is read as a sequence of *blocks*: maximal runs of
//! non-empty lines separated by one or more empty lines.  Each block is a set
//! of *normalized* lines (every space and tab removed), so neither whitespace
//! inside a line, nor the order of lines inside a block, nor duplicate lines
//! inside a block are significant.  Two files are considered equivalent when
//! their block sequences are equal as multisets: every distinct block occurs
//! the same number of times in both files, irrespective of order.

pub mod block;
pub mod config;
pub mod laws;
pub mod matcher;
