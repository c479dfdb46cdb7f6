//! A line-break-preserving beautifier for Python-family source embedded in an
//! outline document format. Marker ("sentinel") lines pass through
//! byte-for-byte; code lines are re-spaced and re-indented without adding or
//! removing any line break.

pub mod beautify;
pub mod engine;
pub mod laws;
pub mod lex;
pub mod lines;
pub mod segment;
pub mod tokens;
