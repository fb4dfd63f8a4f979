//! A minimal configuration library.
//!
//! A configuration source is plain text with one `key<delimiter>value` entry
//! per line.  The [`parser`] module turns such text into a flat string-to-string
//! mapping and wraps it in a read-only store; the [`store`] module holds the
//! mapping itself; the [`text`] module provides the character-level
//! building blocks (whitespace trimming and first-occurrence search).

pub mod parser;
pub mod store;
pub mod text;
