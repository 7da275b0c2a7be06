//! Reading a graph from the tokens of a document.

use vstd::prelude::*;
use crate::error::{DecodeError, ErrorSpec, Fault, Field};
use crate::graph::{GraphSpec, NodeRecord, ParsedGraph};
use crate::schema::{
    Entry, at_fault, dependency_values, entries_from, entries_of, first_fault, first_fault_from,
    graph_of_entries, graph_of_tape, last_index, node_of, node_of_fields, only_index,
    value_under,
};
use crate::token::{Token, TokenView, dependency_of, tape_view, value_span};

verus! {

/// Whether `entry` is the entry whose key is the token at position `at`.
spec fn entry_at(tape: Seq<TokenView>, at: int, entry: Entry) -> bool {
    &&& 0 <= at
    &&& at + 1 < tape.len()
    &&& tape[at] == TokenView::Str(entry.key)
    &&& at + 1 + value_span(tape[at + 1]) <= tape.len()
    &&& entry.value == tape.subrange(at + 1, at + 1 + value_span(tape[at + 1]))
}

/// Whether `keys` holds the positions of the keys of `entries`, one by one.
spec fn entries_at(tape: Seq<TokenView>, keys: Seq<usize>, entries: Seq<Entry>) -> bool {
    &&& keys.len() == entries.len()
    &&& forall|j: int| 0 <= j < keys.len() ==> entry_at(tape, #[trigger] keys[j] as int, entries[j])
}

/// The last entry that carries a key is one of the entries, and carries it.
proof fn lemma_last_index(entries: Seq<Entry>, key: Seq<char>)
    ensures
        last_index(entries, key) matches Some(i) ==> 0 <= i < entries.len() && entries[i].key
            == key,
    decreases entries.len(),
{
    if entries.len() > 0 && entries.last().key != key {
        lemma_last_index(entries.drop_last(), key);
    }
}

/// The number of tokens behind the header that the value at `at` takes up.
fn counted(tokens: &Vec<Token>, at: usize) -> (count: usize)
    requires
        at < tokens.len(),
    ensures
        1 + count == value_span(tokens@[at as int]@),
{
    match &tokens[at] {
        Token::Array { count, .. } => *count,
        Token::Object { count, .. } => *count,
        _ => 0,
    }
}

/// Finds the `n` entries that take up the tokens from `start` to `end`, and
/// returns the positions of their keys.
fn scan_entries(tokens: &Vec<Token>, start: usize, end: usize, n: usize) -> (r: Option<Vec<usize>>)
    requires
        start <= end <= tokens.len(),
    ensures
        match entries_of(tape_view(tokens@).subrange(start as int, end as int), n as nat) {
            Some(entries) => r matches Some(keys) && entries_at(tape_view(tokens@), keys@, entries),
            None => r is None,
        },
{
    let ghost tape = tape_view(tokens@);
    let ghost goal = entries_of(tape.subrange(start as int, end as int), n as nat);
    let ghost mut read: Seq<Entry> = Seq::empty();
    let mut keys: Vec<usize> = Vec::new();
    let mut at: usize = start;
    let mut left: usize = n;
    while left > 0
        invariant
            tape == tape_view(tokens@),
            start <= at <= end <= tokens.len(),
            goal == entries_of(tape.subrange(start as int, end as int), n as nat),
            goal == entries_from(tape.subrange(at as int, end as int), left as nat, read),
            entries_at(tape, keys@, read),
        decreases left,
    {
        let ghost s = tape.subrange(at as int, end as int);
        if end - at < 2 {
            return None;
        }
        assert(s[0] == tape[at as int] && s[1] == tape[at + 1]);
        match &tokens[at] {
            Token::Str(_) => {},
            _ => {
                return None;
            },
        }
        let count: usize = counted(tokens, at + 1);
        if count > end - at - 2 {
            return None;
        }
        let next: usize = at + 2 + count;
        proof {
            let entry = Entry { key: tape[at as int]->Str_0, value: s.subrange(1, 2 + count) };
            assert(s.skip(2 + count) =~= tape.subrange(next as int, end as int));
            assert(entry.value =~= tape.subrange(at + 1, next as int));
            read = read.push(entry);
        }
        keys.push(at);
        at = next;
        left = left - 1;
    }
    if at != end {
        return None;
    }
    Some(keys)
}

/// Finds the last of the first `upto` entries that carries the key `name`.
fn last_entry_before(
    tokens: &Vec<Token>,
    keys: &Vec<usize>,
    name: &String,
    upto: usize,
    Ghost(entries): Ghost<Seq<Entry>>,
) -> (r: Option<usize>)
    requires
        entries_at(tape_view(tokens@), keys@, entries),
        upto <= keys@.len(),
    ensures
        match last_index(entries.take(upto as int), name@) {
            Some(i) => r == Some(i as usize) && i < upto,
            None => r is None,
        },
{
    let mut left: usize = upto;
    while left > 0
        invariant
            left <= upto <= keys@.len(),
            entries_at(tape_view(tokens@), keys@, entries),
            last_index(entries.take(upto as int), name@) == last_index(
                entries.take(left as int),
                name@,
            ),
        decreases left,
    {
        let ghost front = entries.take(left as int);
        assert(front.last() == entries[left - 1]);
        assert(front.drop_last() =~= entries.take(left - 1));
        assert(entry_at(tape_view(tokens@), keys@[left - 1] as int, entries[left - 1]));
        match &tokens[keys[left - 1]] {
            Token::Str(key) => {
                if *key == *name {
                    return Some(left - 1);
                }
            },
            _ => {},
        }
        left = left - 1;
    }
    None
}

/// Finds the one entry that carries the key `name`.
fn only_entry(
    tokens: &Vec<Token>,
    keys: &Vec<usize>,
    name: &String,
    Ghost(entries): Ghost<Seq<Entry>>,
) -> (r: Option<usize>)
    requires
        entries_at(tape_view(tokens@), keys@, entries),
    ensures
        match only_index(entries, name@) {
            Some(i) => r == Some(i as usize) && i < keys@.len(),
            None => r is None,
        },
{
    proof {
        assert(entries.take(keys@.len() as int) =~= entries);
        lemma_last_index(entries, name@);
    }
    match last_entry_before(tokens, keys, name, keys.len(), Ghost(entries)) {
        Some(last) => match last_entry_before(tokens, keys, name, last, Ghost(entries)) {
            Some(_) => None,
            None => Some(last),
        },
        None => None,
    }
}

/// Reads the tokens from `start` to `end` as dependencies.
fn dependencies_between(tokens: &Vec<Token>, start: usize, end: usize) -> (r: Option<Vec<u32>>)
    requires
        start <= end <= tokens.len(),
    ensures
        match dependency_values(tape_view(tokens@).subrange(start as int, end as int)) {
            Some(values) => r matches Some(found) && found@ == values,
            None => r is None,
        },
{
    let ghost s = tape_view(tokens@).subrange(start as int, end as int);
    let mut values: Vec<u32> = Vec::new();
    let mut at: usize = start;
    while at < end
        invariant
            s == tape_view(tokens@).subrange(start as int, end as int),
            start <= at <= end <= tokens.len(),
            values@.len() == at - start,
            forall|i: int|
                0 <= i < at - start ==> dependency_of(#[trigger] s[i]) == Some(values@[i]),
        decreases end - at,
    {
        assert(s[at - start] == tokens@[at as int]@);
        match tokens[at].as_dependency() {
            Some(value) => {
                values.push(value);
            },
            None => {
                return None;
            },
        }
        at = at + 1;
    }
    assert(values@ =~= Seq::new(s.len(), |i: int| dependency_of(s[i]).unwrap()));
    Some(values)
}

/// Reads the value of a node, which takes up the tokens from `at` to `end`.
/// `data_key` and `dependencies_key` hold the names of the two fields.
fn node_at(
    tokens: &Vec<Token>,
    at: usize,
    end: usize,
    data_key: &String,
    dependencies_key: &String,
) -> (r: Result<NodeRecord, Fault>)
    requires
        at < tokens.len(),
        end == at + value_span(tokens@[at as int]@),
        end <= tokens.len(),
        data_key@ == Field::Data.spec_name(),
        dependencies_key@ == Field::Dependencies.spec_name(),
    ensures
        match node_of(tape_view(tokens@).subrange(at as int, end as int)) {
            Ok(node) => r matches Ok(record) && record@ == node,
            Err(fault) => r matches Err(e) && e == fault,
        },
{
    reveal(node_of);
    let ghost tape = tape_view(tokens@);
    let ghost value = tape.subrange(at as int, end as int);
    assert(value[0] == tape[at as int]);
    assert(value.skip(1) =~= tape.subrange(at + 1, end as int));
    let n: usize = match &tokens[at] {
        Token::Object { len, .. } => *len,
        _ => {
            return Err(Fault::Shape(None));
        },
    };
    let keys: Vec<usize> = match scan_entries(tokens, at + 1, end, n) {
        Some(keys) => keys,
        None => {
            return Err(Fault::Structure);
        },
    };
    let ghost fields = entries_of(value.skip(1), n as nat).unwrap();
    assert(node_of(value) == node_of_fields(fields));
    proof {
        lemma_last_index(fields, data_key@);
        lemma_last_index(fields, dependencies_key@);
    }
    let data: String = match only_entry(tokens, &keys, data_key, Ghost(fields)) {
        Some(i) => {
            assert(entry_at(tape, keys@[i as int] as int, fields[i as int]));
            match &tokens[keys[i] + 1] {
                Token::Str(text) => text.clone(),
                _ => {
                    return Err(Fault::Shape(Some(Field::Data)));
                },
            }
        },
        None => {
            return Err(Fault::Shape(Some(Field::Data)));
        },
    };
    let dependencies: Vec<u32> = match only_entry(
        tokens,
        &keys,
        dependencies_key,
        Ghost(fields),
    ) {
        Some(i) => {
            assert(entry_at(tape, keys@[i as int] as int, fields[i as int]));
            let head: usize = keys[i] + 1;
            match &tokens[head] {
                Token::Array { count, .. } => {
                    assert(fields[i as int].value.skip(1) =~= tape.subrange(
                        head + 1,
                        head + 1 + *count,
                    ));
                    match dependencies_between(tokens, head + 1, head + 1 + *count) {
                        Some(values) => values,
                        None => {
                            return Err(Fault::Shape(Some(Field::Dependencies)));
                        },
                    }
                },
                _ => {
                    return Err(Fault::Shape(Some(Field::Dependencies)));
                },
            }
        },
        None => {
            return Err(Fault::Shape(Some(Field::Dependencies)));
        },
    };
    Ok(NodeRecord { data, dependencies })
}

/// The graph of the first `upto` entries: under each key that one of them
/// carries, the record of the last of them that carries it.
spec fn graph_upto(entries: Seq<Entry>, upto: int) -> GraphSpec {
    Map::new(
        |key: Seq<char>| last_index(entries.take(upto), key) is Some,
        |key: Seq<char>| node_of(value_under(entries.take(upto), key).unwrap())->Ok_0,
    )
}

/// The graph of no entries is empty.
proof fn lemma_graph_upto_none(entries: Seq<Entry>)
    ensures
        graph_upto(entries, 0) == GraphSpec::empty(),
{
    assert(graph_upto(entries, 0) =~= GraphSpec::empty());
}

/// One more entry stores its record under its key.
proof fn lemma_graph_upto_next(entries: Seq<Entry>, i: int)
    requires
        0 <= i < entries.len(),
    ensures
        graph_upto(entries, i + 1) == graph_upto(entries, i).insert(
            entries[i].key,
            node_of(entries[i].value)->Ok_0,
        ),
{
    let front = entries.take(i + 1);
    let next = graph_upto(entries, i).insert(entries[i].key, node_of(entries[i].value)->Ok_0);
    assert(front.last() == entries[i]);
    assert(front.drop_last() =~= entries.take(i));
    assert forall|key: Seq<char>| graph_upto(entries, i + 1).contains_key(key) implies next[key]
        == graph_upto(entries, i + 1)[key] by {
        if key == entries[i].key {
            assert(value_under(front, key) == Some(entries[i].value));
        } else {
            lemma_last_index(entries.take(i), key);
            assert(last_index(front, key) == last_index(entries.take(i), key));
        }
    }
    assert(graph_upto(entries, i + 1) =~= graph_upto(entries, i).insert(
        entries[i].key,
        node_of(entries[i].value)->Ok_0,
    ));
}

/// Where no entry is at fault, the entries stand for the graph of all of
/// them.
proof fn lemma_no_fault(entries: Seq<Entry>)
    requires
        first_fault(entries) is None,
    ensures
        graph_of_entries(entries) == Ok::<GraphSpec, ErrorSpec>(
            graph_upto(entries, entries.len() as int),
        ),
{
    assert(entries.take(entries.len() as int) =~= entries);
}

/// The error that a fault in the value of node `key` amounts to.
fn fault_at_node(fault: Fault, key: &String) -> (error: DecodeError)
    ensures
        error@ == fault.spec_at_node(key@),
{
    match fault {
        Fault::Structure => broken_tape(),
        Fault::Shape(field) => DecodeError::SchemaViolation { node: Some(key.clone()), field },
    }
}

/// The error for tokens that do not hold together as a document: a
/// malformed document, with a diagnostic that says so.
fn broken_tape() -> (error: DecodeError)
    ensures
        error@ == ErrorSpec::Malformed,
        error matches DecodeError::Malformed { diagnostic } && diagnostic@
            == "the tokens do not hold together as a document"@,
{
    DecodeError::Malformed { diagnostic: "the tokens do not hold together as a document".to_owned() }
}

/// Reads the value of entry `i` and stores its record in the graph of the
/// entries before it.
fn place_entry(
    tokens: &Vec<Token>,
    keys: &Vec<usize>,
    i: usize,
    graph: ParsedGraph,
    data_key: &String,
    dependencies_key: &String,
    Ghost(entries): Ghost<Seq<Entry>>,
) -> (r: Result<ParsedGraph, DecodeError>)
    requires
        i < keys@.len(),
        entries_at(tape_view(tokens@), keys@, entries),
        data_key@ == Field::Data.spec_name(),
        dependencies_key@ == Field::Dependencies.spec_name(),
        graph@ == graph_upto(entries, i as int),
    ensures
        match r {
            Ok(next) => !at_fault(entries, i as int) && next@ == graph_upto(entries, i + 1),
            Err(error) => at_fault(entries, i as int) && error@ == node_of(
                entries[i as int].value,
            )->Err_0.spec_at_node(entries[i as int].key),
        },
{
    let ghost tape = tape_view(tokens@);
    let ghost entry = entries[i as int];
    let at: usize = keys[i];
    proof {
        assert(entry_at(tape, at as int, entry));
        assert(tape.len() == tokens@.len());
        assert(at + 1 < tokens.len());
        assert(at + 1 + value_span(tape[at + 1]) <= tokens.len());
        lemma_graph_upto_next(entries, i as int);
    }
    match &tokens[at] {
        Token::Str(key) => {
            let count: usize = counted(tokens, at + 1);
            let end: usize = at + 2 + count;
            match node_at(tokens, at + 1, end, data_key, dependencies_key) {
                Ok(record) => Ok(graph.with_node(key.clone(), record)),
                Err(fault) => Err(fault_at_node(fault, key)),
            }
        },
        _ => Ok(graph),
    }
}

/// What a result of decoding stands for: the graph, or the kind and place of
/// the error.
pub open spec fn result_view(r: Result<ParsedGraph, DecodeError>) -> Result<GraphSpec, ErrorSpec> {
    match r {
        Ok(graph) => Ok(graph@),
        Err(error) => Err(error@),
    }
}

/// Decodes the graph that the tokens of a document stand for.
///
/// The document must be one object, and every entry of it a node. Where
/// entries are at fault, the error is that of the first of them. Of the
/// entries that carry one identifier the graph holds the record of the last.
pub fn decode_tokens(tokens: &Vec<Token>) -> (r: Result<ParsedGraph, DecodeError>)
    ensures
        result_view(r) == graph_of_tape(tape_view(tokens@)),
        result_view(r) != Err::<GraphSpec, ErrorSpec>(ErrorSpec::Io),
{
    if tokens.len() == 0 {
        return Err(broken_tape());
    }
    let n: usize = match &tokens[0] {
        Token::Object { len, .. } => *len,
        _ => {
            return Err(DecodeError::SchemaViolation { node: None, field: None });
        },
    };
    let ghost tape = tape_view(tokens@);
    assert(tape.skip(1) =~= tape.subrange(1, tokens@.len() as int));
    let keys: Vec<usize> = match scan_entries(tokens, 1, tokens.len(), n) {
        Some(keys) => keys,
        None => {
            return Err(broken_tape());
        },
    };
    let ghost entries = entries_of(tape.skip(1), n as nat).unwrap();
    let data_key: String = Field::Data.name().to_owned();
    let dependencies_key: String = Field::Dependencies.name().to_owned();
    let mut graph = ParsedGraph::new();
    let mut i: usize = 0;
    proof {
        lemma_graph_upto_none(entries);
    }
    while i < keys.len()
        invariant
            graph_of_tape(tape_view(tokens@)) == graph_of_entries(entries),
            i <= keys@.len(),
            keys@.len() == entries.len(),
            entries_at(tape_view(tokens@), keys@, entries),
            data_key@ == Field::Data.spec_name(),
            dependencies_key@ == Field::Dependencies.spec_name(),
            first_fault(entries) == first_fault_from(entries, i as int),
            graph@ == graph_upto(entries, i as int),
        decreases keys@.len() - i,
    {
        match place_entry(
            tokens,
            &keys,
            i,
            graph,
            &data_key,
            &dependencies_key,
            Ghost(entries),
        ) {
            Ok(next) => {
                graph = next;
            },
            Err(error) => {
                return Err(error);
            },
        }
        i = i + 1;
    }
    proof {
        lemma_no_fault(entries);
    }
    Ok(graph)
}

} // verus!
