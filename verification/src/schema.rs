//! What it means for a document to be a graph.
//!
//! A graph document is one object. Each of its entries names a node and
//! carries an object in which a string stands under `Data` and an array of
//! integers that fit 32 unsigned bits under `Dependencies`, each field once.
//! Other fields of a node are of no account. Every entry of the document
//! must be such a node. Where an identifier stands more than once, the
//! record of its last entry is the one that the graph holds.

use vstd::prelude::*;
use crate::error::{ErrorSpec, Fault, Field};
use crate::graph::{GraphSpec, NodeSpec};
use crate::token::{TokenView, dependency_of, value_span};

verus! {

/// One entry of an object: its key, and the tokens of its value.
pub struct Entry {
    pub key: Seq<char>,
    pub value: Seq<TokenView>,
}

/// Reads `n` entries that take up all of `s`, after the entries in `read`.
///
/// An entry is a string token, the key, and behind it a value, which takes
/// as many tokens as its first token says. There are no such entries where a
/// key is not a string, where a value runs past the end of `s`, or where
/// tokens are left over.
pub open spec fn entries_from(s: Seq<TokenView>, n: nat, read: Seq<Entry>) -> Option<Seq<Entry>>
    decreases n,
{
    if n == 0 {
        if s.len() == 0 {
            Some(read)
        } else {
            None
        }
    } else if s.len() < 2 {
        None
    } else {
        match s[0] {
            TokenView::Str(key) => {
                let end = 1 + value_span(s[1]);
                if end > s.len() {
                    None
                } else {
                    entries_from(
                        s.skip(end as int),
                        (n - 1) as nat,
                        read.push(Entry { key, value: s.subrange(1, end as int) }),
                    )
                }
            },
            _ => None,
        }
    }
}

/// The `n` entries of an object whose contents are the tokens `s`.
pub open spec fn entries_of(s: Seq<TokenView>, n: nat) -> Option<Seq<Entry>> {
    entries_from(s, n, Seq::empty())
}

/// The position of the last entry that carries `key`.
pub open spec fn last_index(entries: Seq<Entry>, key: Seq<char>) -> Option<int>
    decreases entries.len(),
{
    if entries.len() == 0 {
        None
    } else if entries.last().key == key {
        Some(entries.len() - 1)
    } else {
        last_index(entries.drop_last(), key)
    }
}

/// The value that stands under `key`: that of the last entry that carries
/// the key.
pub open spec fn value_under(entries: Seq<Entry>, key: Seq<char>) -> Option<Seq<TokenView>> {
    match last_index(entries, key) {
        Some(i) => Some(entries[i].value),
        None => None,
    }
}

/// The position of the one entry that carries `key`. There is none where
/// no entry carries the key, and none where more than one does.
pub open spec fn only_index(entries: Seq<Entry>, key: Seq<char>) -> Option<int> {
    match last_index(entries, key) {
        Some(i) if last_index(entries.take(i), key) is None => Some(i),
        _ => None,
    }
}

/// The value of the one entry that carries `key`.
pub open spec fn only_value(entries: Seq<Entry>, key: Seq<char>) -> Option<Seq<TokenView>> {
    match only_index(entries, key) {
        Some(i) => Some(entries[i].value),
        None => None,
    }
}

/// The payload that a value stands for: the value is a string.
pub open spec fn data_in(value: Seq<TokenView>) -> Option<Seq<char>> {
    match value[0] {
        TokenView::Str(text) => Some(text),
        _ => None,
    }
}

/// The dependencies that a run of tokens stands for, one each, in order.
/// There are none where one of the tokens stands for no dependency.
pub open spec fn dependency_values(s: Seq<TokenView>) -> Option<Seq<u32>> {
    if forall|i: int| 0 <= i < s.len() ==> dependency_of(#[trigger] s[i]) is Some {
        Some(Seq::new(s.len(), |i: int| dependency_of(s[i]).unwrap()))
    } else {
        None
    }
}

/// The dependencies that a value stands for: the value is an array, and
/// every token behind its header stands for a dependency. An array that
/// holds another array or an object has the header of that one among its
/// tokens, and so stands for nothing.
pub open spec fn dependencies_in(value: Seq<TokenView>) -> Option<Seq<u32>> {
    match value[0] {
        TokenView::Array { .. } => dependency_values(value.skip(1)),
        _ => None,
    }
}

/// The record that the fields of a node stand for. Each of the two fields
/// must stand exactly once, with a value of its kind; a field that is
/// missing, that stands twice, or whose value is of another kind is at
/// fault. `Data` is looked at first.
pub open spec fn node_of_fields(fields: Seq<Entry>) -> Result<NodeSpec, Fault> {
    match only_value(fields, Field::Data.spec_name()) {
        Some(value) if data_in(value) is Some => {
            match only_value(fields, Field::Dependencies.spec_name()) {
                Some(list) if dependencies_in(list) is Some => Ok(
                    NodeSpec {
                        data: data_in(value).unwrap(),
                        dependencies: dependencies_in(list).unwrap(),
                    },
                ),
                _ => Err(Fault::Shape(Some(Field::Dependencies))),
            }
        },
        _ => Err(Fault::Shape(Some(Field::Data))),
    }
}

/// The record that the value of a node stands for: the value is an object
/// in which both fields stand, each once.
#[verifier::opaque]
pub open spec fn node_of(value: Seq<TokenView>) -> Result<NodeSpec, Fault> {
    match value[0] {
        TokenView::Object { len, .. } => match entries_of(value.skip(1), len) {
            Some(fields) => node_of_fields(fields),
            None => Err(Fault::Structure),
        },
        _ => Err(Fault::Shape(None)),
    }
}

/// Whether entry `i` is at fault: its value stands for no record.
pub open spec fn at_fault(entries: Seq<Entry>, i: int) -> bool {
    &&& 0 <= i < entries.len()
    &&& node_of(entries[i].value) is Err
}

/// The first entry at or behind position `from` that is at fault, if one
/// is.
pub open spec fn first_fault_from(entries: Seq<Entry>, from: int) -> Option<int>
    decreases entries.len() - from,
{
    if from < 0 || from >= entries.len() {
        None
    } else if at_fault(entries, from) {
        Some(from)
    } else {
        first_fault_from(entries, from + 1)
    }
}

/// The first entry that is at fault, if one is.
pub open spec fn first_fault(entries: Seq<Entry>) -> Option<int> {
    first_fault_from(entries, 0)
}

/// The graph that the entries of a document stand for: under each key that
/// an entry carries, the record of the last entry that carries it. It is no
/// graph where any entry is at fault, be it one that a later entry replaces,
/// and the first entry at fault says why.
pub open spec fn graph_of_entries(entries: Seq<Entry>) -> Result<GraphSpec, ErrorSpec> {
    match first_fault(entries) {
        Some(i) => Err(node_of(entries[i].value)->Err_0.spec_at_node(entries[i].key)),
        None => Ok(
            Map::new(
                |key: Seq<char>| last_index(entries, key) is Some,
                |key: Seq<char>| node_of(value_under(entries, key).unwrap())->Ok_0,
            ),
        ),
    }
}

/// The graph that a document stands for, or the reason why it stands for
/// none. The document is all of `tape`.
pub open spec fn graph_of_tape(tape: Seq<TokenView>) -> Result<GraphSpec, ErrorSpec> {
    if tape.len() == 0 {
        Err(ErrorSpec::Malformed)
    } else {
        match tape[0] {
            TokenView::Object { len, .. } => match entries_of(tape.skip(1), len) {
                Some(entries) => graph_of_entries(entries),
                None => Err(ErrorSpec::Malformed),
            },
            _ => Err(ErrorSpec::SchemaViolation { node: None, field: None }),
        }
    }
}

} // verus!
