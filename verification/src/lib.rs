//! A JSON parser that records, for each node of the parse tree, the byte
//! offsets of its first and last bytes in the input.
pub mod cursor;
pub mod grammar;
pub mod laws;
pub mod node;
pub mod parser;
pub mod render;
pub mod text;

pub use node::{JsonNode, JsonValue, TokenKind};
pub use parser::JsonParser;
