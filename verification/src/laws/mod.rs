//! Facts about what the parser accepts and builds, proved from the grammar.
pub mod bounds;
pub mod json_text;
pub mod leading;
pub mod number;
pub mod shape;
pub mod source;
pub mod spans;
pub mod string;
pub mod text_form;
pub mod trailing;
