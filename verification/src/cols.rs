//! Extracting columns from delimited text.

pub mod columns;
pub mod extract;
pub mod laws;
pub mod run;
pub mod stream;
