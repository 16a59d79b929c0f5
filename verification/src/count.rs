//! Counting lines, words, bytes and characters.

pub mod laws;
pub mod render;
pub mod report;
pub mod stream;
pub mod tally;
pub mod words;
