//! Parsing and marshalling of flowd v2 frames.

pub mod buffer;
pub mod chars;
pub mod decimal;
pub mod frame;
pub mod laws;
pub mod parser;
pub mod read;
pub mod wire;
