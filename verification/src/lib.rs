//! KVON is a human readable, indentation-sensitive serialization format.
//! This crate holds a line-oriented parser that decodes KVON text into a
//! tree of values, and an encoder that lays such a tree out as text again.
//! Both are stated over mathematical models of text (`Seq<char>`) and of
//! values ([`value::Tree`]), and proved against those statements.

pub mod encoder;
pub mod error;
pub mod grammar;
pub mod indention;
pub mod laws;
pub mod line_parser;
pub mod machine;
pub mod number;
pub mod parser;
pub mod roundtrip;
pub mod text;
pub mod value;

pub use encoder::encode_string_expanded;
pub use line_parser::ParserResult;
pub use parser::{parse_string, Parser};
