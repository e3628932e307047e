//! Lexical front end for a small hardware-description language.
//!
//! The library turns source text into a position-tagged token stream.
//! `cursor` expands the text into characters with line/column metadata,
//! `scan` classifies them into tokens, and `tokenize` drives the scan
//! over a whole source buffer, stopping at the first lexical error.

pub mod cursor;
pub mod laws;
pub mod scan;
pub mod token;
