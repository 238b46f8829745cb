//! Tokenizers that split text into substrings, with the byte spans of the
//! pieces: splitting on a literal separator, on the matches of a pattern, and
//! on balanced delimiter groups.

pub mod tokenize;
