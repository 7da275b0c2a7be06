//! The JSON parser. Parsing itself is done by `simd_json`; this module turns
//! what it returns into [`Token`]s.
//!
//! Nothing is proved of `simd_json`. What is taken on trust of it is said
//! above each item that has `external` in its attributes, and by the two
//! functions without a body that give its results a name.

use vstd::prelude::*;
use crate::error::{DecodeError, ErrorSpec};
use crate::token::{Token, TokenView, tape_view};

verus! {

/// `simd_json::Tape`, the nodes of a parsed document. Nothing is known of a
/// tape but what [`tape_nodes`] names.
#[verifier::external_type_specification]
#[verifier::external_body]
pub struct ExTape<'a>(simd_json::Tape<'a>);

/// `simd_json::Error`. Nothing is known of what an error holds.
#[verifier::external_type_specification]
#[verifier::external_body]
pub struct ExParseError(simd_json::Error);

/// The nodes of the tape that `simd_json::to_tape` produces for `bytes`, or
/// `None` where it rejects them.
pub uninterp spec fn parsed_tape(bytes: Seq<u8>) -> Option<Seq<TokenView>>;

/// The nodes that a `simd_json::Tape` holds, first to last, each as the
/// token that [`tape_token`] writes for it.
pub uninterp spec fn tape_nodes(tape: simd_json::Tape<'_>) -> Seq<TokenView>;

/// Calls `simd_json::to_tape` on the buffer, which the parser overwrites
/// while it works. Taken on trust: whether the bytes are accepted, and the
/// nodes of the tape if they are, depend on the bytes alone. Nothing is said
/// of what the buffer holds afterwards.
#[verifier::external_body]
fn parse_tape<'a>(buffer: &'a mut Vec<u8>) -> (r: Result<simd_json::Tape<'a>, simd_json::Error>)
    ensures
        match r {
            Ok(tape) => parsed_tape(old(buffer)@) == Some(tape_nodes(tape)),
            Err(_) => parsed_tape(old(buffer)@) is None,
        },
{
    simd_json::to_tape(buffer.as_mut_slice())
}

/// The number of nodes of a tape: the length of the `Vec` that is the one
/// field of a `simd_json::Tape`.
#[verifier::external_body]
fn tape_len(tape: &simd_json::Tape<'_>) -> (n: usize)
    ensures
        n == tape_nodes(*tape).len(),
{
    tape.0.len()
}

/// Reads node `i` of a tape and writes it as a [`Token`]: one variant of
/// [`Token`] for each variant of `simd_json::Node` and of
/// `simd_json::StaticNode`, with the same fields. The value of a
/// floating-point node is dropped.
#[verifier::external_body]
fn tape_token(tape: &simd_json::Tape<'_>, i: usize) -> (token: Token)
    requires
        i < tape_nodes(*tape).len(),
    ensures
        token@ == tape_nodes(*tape)[i as int],
{
    match tape.0[i] {
        simd_json::Node::String(s) => Token::Str(s.to_string()),
        simd_json::Node::Array { len, count } => Token::Array { len, count },
        simd_json::Node::Object { len, count } => Token::Object { len, count },
        simd_json::Node::Static(simd_json::StaticNode::I64(v)) => Token::Signed(v),
        simd_json::Node::Static(simd_json::StaticNode::U64(v)) => Token::Unsigned(v),
        simd_json::Node::Static(simd_json::StaticNode::F64(_)) => Token::Float,
        simd_json::Node::Static(simd_json::StaticNode::Bool(b)) => Token::Bool(b),
        simd_json::Node::Static(simd_json::StaticNode::Null) => Token::Null,
    }
}

/// The text that a `simd_json::Error` prints for itself, which names the
/// kind of the error and the place in the bytes. Nothing is claimed of it.
#[verifier::external_body]
fn diagnostic(error: &simd_json::Error) -> (text: String) {
    error.to_string()
}

/// Parses `bytes` as one JSON document and returns its tokens, or says why
/// the bytes are no document.
pub fn tokenize(bytes: Vec<u8>) -> (r: Result<Vec<Token>, DecodeError>)
    ensures
        match r {
            Ok(tokens) => parsed_tape(bytes@) == Some(tape_view(tokens@)),
            Err(error) => parsed_tape(bytes@) is None && error@ == ErrorSpec::Malformed,
        },
{
    let mut buffer = bytes;
    match parse_tape(&mut buffer) {
        Ok(tape) => {
            let n: usize = tape_len(&tape);
            let mut tokens: Vec<Token> = Vec::new();
            let mut i: usize = 0;
            while i < n
                invariant
                    n == tape_nodes(tape).len(),
                    i <= n,
                    tokens@.len() == i,
                    forall|j: int| 0 <= j < i ==> (#[trigger] tokens@[j])@ == tape_nodes(tape)[j],
                decreases n - i,
            {
                let token = tape_token(&tape, i);
                tokens.push(token);
                i = i + 1;
            }
            assert(tape_view(tokens@) =~= tape_nodes(tape));
            Ok(tokens)
        },
        Err(e) => Err(DecodeError::Malformed { diagnostic: diagnostic(&e) }),
    }
}

} // verus!
