//! Verified building blocks for a small family of line-oriented text tools.
//!
//! The centrepiece is the three-way sorted-merge classifier behind the
//! `comm`-style tool: it walks two pre-sorted line sequences in lock step and
//! classifies every line as present only in the first input, only in the
//! second, or in both, then renders each record according to the configured
//! column visibility and delimiter. The other modules hold the verified
//! pieces of the peer utilities: line/word/byte/char counting, fixed-width
//! field formatting, positive-integer argument parsing, and the entry filters
//! of the file finder.

pub mod comm;
pub mod digits;
pub mod find;
pub mod order;
pub mod parse;
pub mod text;
pub mod wc;
