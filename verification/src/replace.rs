//! Replacing: literal patterns, and lines addressed by name.

pub mod laws;
pub mod named;
pub mod run;
pub mod substring;
