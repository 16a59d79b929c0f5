//! Structural outlines of source files: Markdown headings and blocks, C includes and functions.

pub mod alignment;
pub mod c_source;
pub mod element;
pub mod laws;
pub mod markdown;
pub mod paths;
pub mod readings;
pub mod render;
pub mod spans;
