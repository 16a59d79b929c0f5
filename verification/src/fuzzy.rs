//! Fuzzy substring search: what a query expands to, and what a match of it says.

pub mod edits;
pub mod effort;
pub mod folds;
pub mod keyboards;
pub mod laws;
pub mod misspellings;
pub mod options;
pub mod report;
pub mod rewrites;
pub mod script;
pub mod tables;
pub mod vocabulary;
