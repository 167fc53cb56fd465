//! Incremental, language-aware delimiter matching for text buffers.
//!
//! A buffer of lines is scanned into per-line lists of matches (delimiters,
//! comment markers and span markers), nesting depths are resolved over the
//! whole buffer, and cursor-relative queries answer which delimiter pairs with
//! which.

pub mod balance;
pub mod buffer;
pub mod cursor;
pub mod laws;
pub mod nesting;
pub mod pairs;
pub mod parser;
pub mod stream;

