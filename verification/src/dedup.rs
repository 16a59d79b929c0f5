//! Dropping the lines that came before.

pub mod laws;
pub mod lines;
pub mod run;
pub mod set;
