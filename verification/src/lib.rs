//! Parser for the textual metadata block of DMI icon files.
//!
//! The block is a small line-oriented document: a header (format version,
//! canvas size) followed by any number of animation states. Every parser in
//! this crate is verified against a grammar written as spec functions over
//! `Seq<char>`; the character-level recognizers are nom's.

pub mod error;
pub mod parser;
