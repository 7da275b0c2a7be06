//! The flat form of a JSON document: one token per value, in document order.
//!
//! A document is laid out depth first. A container is announced by a header
//! token that says how many items it holds and how many tokens follow it
//! before the container is over; the key of an object entry is a string token
//! that stands directly before the entry's value.

use vstd::prelude::*;

verus! {

/// One token of a flattened JSON document.
#[derive(Clone, Debug, PartialEq, Eq)]
pub enum Token {
    /// The literal `null`.
    Null,
    /// The literals `true` and `false`.
    Bool(bool),
    /// An integer that was read as a signed number.
    Signed(i64),
    /// An integer that was read as an unsigned number.
    Unsigned(u64),
    /// A number that is not held as an integer. Its value is not kept.
    Float,
    /// A string value, or the key of an object entry.
    Str(String),
    /// The header of an array of `len` elements, which take up the `count`
    /// tokens after the header.
    Array { len: usize, count: usize },
    /// The header of an object of `len` entries, which take up the `count`
    /// tokens after the header.
    Object { len: usize, count: usize },
}

/// What a [`Token`] stands for. The two integer tokens are not told apart:
/// an integer is its value.
pub enum TokenView {
    Null,
    Bool(bool),
    Int(int),
    Float,
    Str(Seq<char>),
    Array { len: nat, count: nat },
    Object { len: nat, count: nat },
}

impl View for Token {
    type V = TokenView;

    open spec fn view(&self) -> TokenView {
        match *self {
            Token::Null => TokenView::Null,
            Token::Bool(b) => TokenView::Bool(b),
            Token::Signed(v) => TokenView::Int(v as int),
            Token::Unsigned(v) => TokenView::Int(v as int),
            Token::Float => TokenView::Float,
            Token::Str(s) => TokenView::Str(s@),
            Token::Array { len, count } => TokenView::Array { len: len as nat, count: count as nat },
            Token::Object { len, count } => TokenView::Object {
                len: len as nat,
                count: count as nat,
            },
        }
    }
}

/// The dependency that a token stands for: an integer from 0 to 2^32 - 1.
pub open spec fn dependency_of(token: TokenView) -> Option<u32> {
    match token {
        TokenView::Int(v) => if 0 <= v <= u32::MAX {
            Some(v as u32)
        } else {
            None
        },
        _ => None,
    }
}

impl Token {
    /// The dependency that the token stands for, if it stands for one.
    pub fn as_dependency(&self) -> (value: Option<u32>)
        ensures
            value == dependency_of(self@),
    {
        match self {
            Token::Signed(v) => if 0 <= *v && *v <= 0xFFFF_FFFF {
                Some(*v as u32)
            } else {
                None
            },
            Token::Unsigned(v) => if *v <= 0xFFFF_FFFF {
                Some(*v as u32)
            } else {
                None
            },
            _ => None,
        }
    }
}

/// The document that a sequence of tokens stands for, token by token.
pub open spec fn tape_view(tokens: Seq<Token>) -> Seq<TokenView> {
    tokens.map_values(|t: Token| t@)
}

/// The number of tokens that a value takes up, by its first token: a
/// container takes its header and the tokens that the header counts, any
/// other value takes one token.
pub open spec fn value_span(head: TokenView) -> nat {
    match head {
        TokenView::Array { count, .. } => 1 + count,
        TokenView::Object { count, .. } => 1 + count,
        _ => 1,
    }
}

} // verus!
