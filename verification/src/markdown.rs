//! Markdown tokens, text spans and the document tree built from them.

pub mod builder;
pub mod heading;
pub mod nesting;
pub mod node;
pub mod parser;
pub mod render;
pub mod stream;
pub mod text;
pub mod token;
