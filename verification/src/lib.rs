//! Slices what a coding agent has seen into chunks, so that nothing with content is lost.

pub mod chunk;
pub mod chunking;
pub mod command;
pub mod dumps;
pub mod float;
pub mod grep;
pub mod json;
pub mod laws;
pub mod messages;
pub mod number;
pub mod pattern;
pub mod pystr;
pub mod text;
