//! Single-pass substitution of `%{name}` placeholders in a text buffer.

pub mod assembler;
pub mod baseline;
pub mod encoding;
pub mod laws;
pub mod model;
pub mod offsets;
pub mod replace;
pub mod scanner;

pub use baseline::StdReplacePatterns;
pub use replace::FastReplacePatterns;
