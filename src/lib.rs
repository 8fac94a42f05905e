//! Bulk string renaming driven by a small template language.
//!
//! A template ("replacer string") is parsed into literal and specifier
//! elements; the specifiers give an ordered list of token matchers that is
//! matched against each input, and the matched spans are rendered back into
//! an output string together with the provenance of every output segment.

pub mod command;
pub mod elem;
pub mod formatter;
pub mod indices;
pub mod items;
pub mod matcher;
pub mod parser;
pub mod replacement;
pub mod replacer;
pub mod spec;
pub mod text;
pub mod tokens;
