//! Parse nested token trees with combinator-style matchers.
//!
//! A nested token tree (tokens plus grouping delimiters) is flattened into a
//! single positionally ordered stream that a parser front end can consume one
//! token at a time, with checkpoint/rewind and per-token source locations.
//! On top of the stream sit five atomic token matchers (identifier, keyword,
//! literal, punctuation, delimiter) and a diagnostic helper that renders
//! unconsumed trailing input as a bounded, human-readable report.

pub mod diagnostic;
pub mod input;
pub mod parser;
pub mod text;
