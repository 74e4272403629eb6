//! A character map (CMap) engine for PDF composite fonts.
//!
//! A CMap turns the byte codes of a text-showing operator into character
//! identifiers or Unicode values.  The crate holds the value table and its
//! code reader, a reader for the PostScript-like textual form, and a reader
//! for the compact binary form.

pub mod binary;
pub mod bytes;
pub mod cmap;
pub mod hex;
pub mod laws;
pub mod lexer;
pub mod stream;
pub mod text;

pub use binary::{parse_binary_cmap, BinaryCMapReader};
pub use cmap::CMap;
pub use stream::BinaryCMapStream;
pub use text::parse_cmap;
