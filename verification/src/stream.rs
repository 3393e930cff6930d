//! Streams of decoded characters over raw byte sources.

pub mod utf8;
