//! Decoding a graph from the bytes of a JSON document.

use vstd::prelude::*;
use crate::error::{DecodeError, ErrorSpec};
use crate::graph::{GraphSpec, ParsedGraph};
use crate::parser::{parsed_tape, tokenize};
use crate::reader::{decode_tokens, result_view};
use crate::schema::graph_of_tape;

verus! {

/// What decoding makes of `bytes`: the graph of the document that the parser
/// reads from them, and a malformed document where it reads none.
pub open spec fn graph_of_bytes(bytes: Seq<u8>) -> Result<GraphSpec, ErrorSpec> {
    match parsed_tape(bytes) {
        Some(tape) => graph_of_tape(tape),
        None => Err(ErrorSpec::Malformed),
    }
}

/// Decodes the graph that `bytes` hold as a JSON document.
///
/// The bytes are parsed as a whole, then read as a graph. Where either
/// fails no part of a graph is returned.
pub fn decode(bytes: Vec<u8>) -> (r: Result<ParsedGraph, DecodeError>)
    ensures
        result_view(r) == graph_of_bytes(bytes@),
        result_view(r) != Err::<GraphSpec, ErrorSpec>(ErrorSpec::Io),
{
    match tokenize(bytes) {
        Ok(tokens) => decode_tokens(&tokens),
        Err(error) => Err(error),
    }
}

} // verus!
