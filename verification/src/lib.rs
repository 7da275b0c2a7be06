//! Decoding of JSON-encoded dependency graphs.
//!
//! A graph is written as one JSON object that maps the identifier of each
//! node to an object with a string under `Data` and an array of unsigned
//! 32-bit integers under `Dependencies`. [`decode`] turns the bytes of such
//! a document into a [`ParsedGraph`], or says why it cannot.

pub mod decode;
pub mod error;
pub mod graph;
pub mod laws;
pub mod parser;
pub mod reader;
pub mod schema;
pub mod token;

pub use decode::decode;
pub use error::{DecodeError, Field};
pub use graph::{NodeEntry, NodeRecord, ParsedGraph};
pub use parser::tokenize;
pub use reader::decode_tokens;
pub use token::Token;
