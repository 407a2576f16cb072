//! A small boolean query language over free text.
//!
//! A query is compiled once into a [`Matcher`] and then evaluated against
//! arbitrarily many text samples.  The language offers quoted keyword
//! literals, `&` (and), `|` (or), `!` (not) and parenthesized grouping;
//! keyword matching is case-insensitive exact substring search.
//!
//! ```text
//! ("this" | "that") & "these" & "those"
//! ```
//!
//! matches any text that contains the words `these`, `those`, and either
//! `this` or `that`.

pub mod matcher;
pub mod parser;

pub use matcher::Matcher;
