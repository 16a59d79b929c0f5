//! The verified logic behind a family of text tools: counting, finding, replacing, deduplicating,
//! cutting columns, outlining and fuzzy matching, over bytes that may or may not be UTF-8.

pub mod args;
pub mod base64;
pub mod bytes;
pub mod cols;
pub mod count;
pub mod cuts;
pub mod dedup;
pub mod destination;
pub mod find;
pub mod fuzzy;
pub mod hashing;
pub mod inputs;
pub mod json;
pub mod landing;
pub mod lines;
pub mod matching;
pub mod numbers;
pub mod outline;
pub mod padding;
pub mod replace;
pub mod sorting;
pub mod status;
pub mod sz;
pub mod text;
pub mod walks;
pub mod windows;
