//! Searching files for a literal pattern.

pub mod characters;
pub mod closing;
pub mod emit;
pub mod files;
pub mod laws;
pub mod matcher;
pub mod multiline;
pub mod options;
pub mod records;
pub mod regions;
pub mod search;
pub mod session;
pub mod surroundings;
pub mod trimming;
pub mod window;
