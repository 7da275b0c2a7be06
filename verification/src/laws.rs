//! What holds of decoding as a whole: a document is a graph exactly if
//! every entry of it is a node, of the entries that carry one identifier the
//! record of the last one stays, and a graph that is written out as a
//! document is read back as it was.

use vstd::prelude::*;
use crate::decode::graph_of_bytes;
use crate::error::{ErrorSpec, Fault, Field};
use crate::graph::{GraphSpec, NodeSpec};
use crate::parser::parsed_tape;
use crate::schema::{
    Entry, at_fault, data_in, dependencies_in, dependency_values, entries_from, entries_of,
    first_fault, first_fault_from, graph_of_entries, graph_of_tape, last_index, node_of,
    only_index,
};
use crate::token::{TokenView, dependency_of, value_span};

verus! {

/// Whether an entry of `entries` carries `key`.
pub open spec fn names(entries: Seq<Entry>, key: Seq<char>) -> bool {
    exists|i: int| 0 <= i < entries.len() && (#[trigger] entries[i]).key == key
}

/// Whether entry `i` is the last of `entries` that carries its key.
pub open spec fn is_last_of_key(entries: Seq<Entry>, i: int) -> bool {
    &&& 0 <= i < entries.len()
    &&& forall|j: int| i < j < entries.len() ==> (#[trigger] entries[j]).key != entries[i].key
}

/// The last entry under a key is the one behind which no entry carries the
/// key; there is none exactly where no entry carries the key.
pub proof fn lemma_last_index_is_last(entries: Seq<Entry>, key: Seq<char>)
    ensures
        match last_index(entries, key) {
            Some(i) => is_last_of_key(entries, i) && entries[i].key == key,
            None => !names(entries, key),
        },
    decreases entries.len(),
{
    if entries.len() > 0 && entries.last().key != key {
        let front = entries.drop_last();
        lemma_last_index_is_last(front, key);
        match last_index(front, key) {
            Some(i) => {
                assert(front[i] == entries[i]);
                assert forall|j: int| i < j < entries.len() implies (#[trigger] entries[j]).key
                    != entries[i].key by {
                    if j < front.len() {
                        assert(front[j] == entries[j]);
                    }
                }
            },
            None => {
                if names(entries, key) {
                    let i = choose|i: int| 0 <= i < entries.len() && (#[trigger] entries[i]).key
                        == key;
                    assert(front[i] == entries[i]);
                }
            },
        }
    }
}

/// An entry behind which no entry carries its key is the last under that
/// key.
pub proof fn lemma_last_of_key_is_last_index(entries: Seq<Entry>, i: int)
    requires
        is_last_of_key(entries, i),
    ensures
        last_index(entries, entries[i].key) == Some(i),
{
    lemma_last_index_is_last(entries, entries[i].key);
    match last_index(entries, entries[i].key) {
        Some(found) => {
            if found < i {
                assert(entries[i].key != entries[found].key);
            }
        },
        None => {},
    }
}

/// The first entry at fault is at fault, and none before it is; there is
/// none exactly where no entry is at fault.
pub proof fn lemma_first_fault_from(entries: Seq<Entry>, from: int)
    requires
        0 <= from,
    ensures
        match first_fault_from(entries, from) {
            Some(i) => from <= i && at_fault(entries, i) && forall|j: int|
                from <= j < i ==> !at_fault(entries, j),
            None => forall|j: int| from <= j ==> !at_fault(entries, j),
        },
    decreases entries.len() - from,
{
    if from < entries.len() && !at_fault(entries, from) {
        lemma_first_fault_from(entries, from + 1);
    }
}

/// The one entry under a key is the entry that carries the key while no
/// other does; there is none where no entry carries the key or two do.
pub proof fn lemma_only_index(entries: Seq<Entry>, key: Seq<char>)
    ensures
        match only_index(entries, key) {
            Some(i) => 0 <= i < entries.len() && entries[i].key == key && forall|j: int|
                0 <= j < entries.len() && j != i ==> (#[trigger] entries[j]).key != key,
            None => !names(entries, key) || exists|i: int, j: int|
                0 <= i < j < entries.len() && (#[trigger] entries[i]).key == key
                    && (#[trigger] entries[j]).key == key,
        },
{
    lemma_last_index_is_last(entries, key);
    if let Some(i) = last_index(entries, key) {
        let front = entries.take(i);
        lemma_last_index_is_last(front, key);
        match last_index(front, key) {
            Some(earlier) => {
                assert(front[earlier] == entries[earlier]);
                assert(entries[earlier].key == key && entries[i].key == key);
            },
            None => {
                assert forall|j: int| 0 <= j < entries.len() && j != i implies (
                #[trigger] entries[j]).key != key by {
                    if j < i {
                        assert(front[j] == entries[j]);
                    }
                }
            },
        }
    }
}

/// The entries of a document stand for a graph exactly if the value of
/// every entry stands for a record, also that of an entry that a later one
/// replaces.
pub proof fn lemma_decodes_iff_every_entry_does(entries: Seq<Entry>)
    ensures
        graph_of_entries(entries) is Ok <==> forall|i: int|
            0 <= i < entries.len() ==> node_of((#[trigger] entries[i]).value) is Ok,
{
    lemma_first_fault_from(entries, 0);
    if graph_of_entries(entries) is Ok {
        assert forall|i: int| 0 <= i < entries.len() implies node_of(
            (#[trigger] entries[i]).value,
        ) is Ok by {
            assert(!at_fault(entries, i));
        }
    }
}

/// The keys of a decoded graph are those that the entries of the document
/// carry.
pub proof fn lemma_graph_keys(entries: Seq<Entry>, key: Seq<char>)
    ensures
        graph_of_entries(entries) matches Ok(graph) ==> (graph.contains_key(key) <==> names(
            entries,
            key,
        )),
{
    lemma_last_index_is_last(entries, key);
}

/// Of the entries that carry one key the last one stays: a decoded graph
/// holds under that key the record of the last entry's value.
pub proof fn lemma_last_entry_stays(entries: Seq<Entry>, i: int)
    requires
        is_last_of_key(entries, i),
    ensures
        graph_of_entries(entries) matches Ok(graph) ==> graph.contains_key(entries[i].key)
            && node_of(entries[i].value) == Ok::<NodeSpec, Fault>(graph[entries[i].key]),
{
    lemma_last_of_key_is_last_index(entries, i);
    lemma_first_fault_from(entries, 0);
    if graph_of_entries(entries) is Ok {
        assert(!at_fault(entries, i));
    }
}

/// Where a document is no graph, the error is that of entry `i`: the first
/// entry whose value stands for no record.
pub proof fn lemma_error_is_of_first_fault(entries: Seq<Entry>, i: int)
    requires
        0 <= i < entries.len(),
        node_of(entries[i].value) is Err,
        forall|j: int| 0 <= j < i ==> node_of((#[trigger] entries[j]).value) is Ok,
    ensures
        graph_of_entries(entries) == Err::<GraphSpec, ErrorSpec>(
            node_of(entries[i].value)->Err_0.spec_at_node(entries[i].key),
        ),
{
    lemma_first_fault_from(entries, 0);
    assert(at_fault(entries, i));
    let first = first_fault(entries).unwrap();
    if first < i {
        assert(node_of(entries[first].value) is Ok);
    }
}

/// Decoding never reports that the source could not be read: it reads no
/// source.
pub proof fn lemma_decoding_reads_nothing(tape: Seq<TokenView>, bytes: Seq<u8>)
    ensures
        graph_of_tape(tape) != Err::<GraphSpec, ErrorSpec>(ErrorSpec::Io),
        graph_of_bytes(bytes) != Err::<GraphSpec, ErrorSpec>(ErrorSpec::Io),
{
}

/// The nodes of a graph as a document lists them: identifier and record, in
/// order. An identifier may stand more than once.
pub type Nodes = Seq<(Seq<char>, NodeSpec)>;

/// The tokens of the elements of a dependency array.
pub open spec fn dependency_tape(dependencies: Seq<u32>) -> Seq<TokenView> {
    dependencies.map_values(|d: u32| TokenView::Int(d as int))
}

/// The tokens of the value of a node: an object of the two fields, `Data`
/// first.
pub open spec fn node_tape(node: NodeSpec) -> Seq<TokenView> {
    seq![
        TokenView::Object { len: 2, count: 4 + node.dependencies.len() },
        TokenView::Str(Field::Data.spec_name()),
        TokenView::Str(node.data),
        TokenView::Str(Field::Dependencies.spec_name()),
        TokenView::Array { len: node.dependencies.len(), count: node.dependencies.len() },
    ] + dependency_tape(node.dependencies)
}

/// The tokens of the entries of a document that lists `nodes`: for each
/// node its identifier and its value.
pub open spec fn entries_tape(nodes: Nodes) -> Seq<TokenView>
    decreases nodes.len(),
{
    if nodes.len() == 0 {
        Seq::empty()
    } else {
        seq![TokenView::Str(nodes[0].0)] + node_tape(nodes[0].1) + entries_tape(nodes.skip(1))
    }
}

/// The tokens of the document that lists `nodes`.
pub open spec fn graph_tape(nodes: Nodes) -> Seq<TokenView> {
    seq![TokenView::Object { len: nodes.len(), count: entries_tape(nodes).len() }] + entries_tape(
        nodes,
    )
}

/// `graph` after the nodes have been stored in it, first to last.
pub open spec fn with_nodes(graph: GraphSpec, nodes: Nodes) -> GraphSpec
    decreases nodes.len(),
{
    if nodes.len() == 0 {
        graph
    } else {
        with_nodes(graph.insert(nodes[0].0, nodes[0].1), nodes.skip(1))
    }
}

/// The graph that a list of nodes describes: the nodes stored in order, so
/// that a later node replaces an earlier one of the same identifier.
pub open spec fn graph_of_nodes(nodes: Nodes) -> GraphSpec {
    with_nodes(Map::empty(), nodes)
}

/// The entries of the document that lists `nodes`.
pub open spec fn written_entries(nodes: Nodes) -> Seq<Entry> {
    nodes.map_values(|node: (Seq<char>, NodeSpec)| Entry { key: node.0, value: node_tape(node.1) })
}

/// The names of the two fields differ.
pub proof fn lemma_field_names_differ()
    ensures
        Field::Data.spec_name() != Field::Dependencies.spec_name(),
{
    reveal_strlit("Data");
    reveal_strlit("Dependencies");
    assert("Data"@.len() != "Dependencies"@.len());
}

/// The value of a node is read back as it was written.
pub proof fn lemma_written_node_is_read(node: NodeSpec)
    ensures
        node_of(node_tape(node)) == Ok::<NodeSpec, Fault>(node),
{
    reveal(node_of);
    reveal_with_fuel(entries_from, 3);
    reveal_with_fuel(last_index, 3);
    lemma_field_names_differ();
    let value = node_tape(node);
    let s = value.skip(1);
    let d = node.dependencies.len() as int;
    let data = Entry { key: Field::Data.spec_name(), value: seq![TokenView::Str(node.data)] };
    let list = Entry {
        key: Field::Dependencies.spec_name(),
        value: seq![TokenView::Array { len: d as nat, count: d as nat }] + dependency_tape(
            node.dependencies,
        ),
    };
    let fields = seq![data, list];
    assert(s[0] == TokenView::Str(Field::Data.spec_name()));
    assert(s[1] == TokenView::Str(node.data));
    assert(s.subrange(1, 2) =~= data.value);
    let t = s.skip(2);
    assert(t[0] == TokenView::Str(Field::Dependencies.spec_name()));
    assert(t[1] == TokenView::Array { len: d as nat, count: d as nat });
    assert(t.len() == 2 + d);
    assert(t.subrange(1, 2 + d) =~= list.value);
    assert(t.skip(2 + d).len() == 0);
    assert(Seq::<Entry>::empty().push(data).push(list) =~= fields);
    assert(entries_of(s, 2) == Some(fields));
    assert(fields.last() == list);
    assert(fields.drop_last() =~= seq![data]);
    assert(seq![data].last() == data);
    assert(last_index(fields, Field::Dependencies.spec_name()) == Some(1int));
    assert(last_index(fields, Field::Data.spec_name()) == Some(0int));
    assert(fields.take(1) =~= seq![data]);
    assert(fields.take(0) =~= Seq::<Entry>::empty());
    assert(seq![data].drop_last() =~= Seq::<Entry>::empty());
    assert(only_index(fields, Field::Dependencies.spec_name()) == Some(1int));
    assert(only_index(fields, Field::Data.spec_name()) == Some(0int));
    let elements = list.value.skip(1);
    assert(elements =~= dependency_tape(node.dependencies));
    assert(Seq::new(elements.len(), |i: int| dependency_of(elements[i]).unwrap())
        =~= node.dependencies);
    assert(dependency_values(elements) == Some(node.dependencies));
    assert(dependencies_in(list.value) == Some(node.dependencies));
    assert(data_in(data.value) == Some(node.data));
    assert(value[0] == TokenView::Object { len: 2, count: (4 + d) as nat });
}

/// The entries of a document are read back as they were written.
pub proof fn lemma_written_entries_are_read(nodes: Nodes, read: Seq<Entry>)
    ensures
        entries_from(entries_tape(nodes), nodes.len(), read) == Some(read + written_entries(nodes)),
    decreases nodes.len(),
{
    let s = entries_tape(nodes);
    if nodes.len() == 0 {
        assert(read + written_entries(nodes) =~= read);
    } else {
        let value = node_tape(nodes[0].1);
        let entry = Entry { key: nodes[0].0, value };
        let later = nodes.skip(1);
        assert(s[0] == TokenView::Str(nodes[0].0));
        assert(s[1] == value[0]);
        assert(value_span(s[1]) == value.len());
        assert(s.subrange(1, 1 + value.len() as int) =~= value);
        assert(s.skip(1 + value.len() as int) =~= entries_tape(later));
        lemma_written_entries_are_read(later, read.push(entry));
        assert(read.push(entry) + written_entries(later) =~= read + written_entries(nodes));
    }
}

/// Storing nodes adds their identifiers to those of the graph and no
/// others, and leaves alone what stands under any other identifier.
proof fn lemma_with_nodes_keeps(graph: GraphSpec, nodes: Nodes, key: Seq<char>)
    ensures
        with_nodes(graph, nodes).contains_key(key) <==> graph.contains_key(key) || names(
            written_entries(nodes),
            key,
        ),
        !names(written_entries(nodes), key) ==> with_nodes(graph, nodes)[key] == graph[key],
    decreases nodes.len(),
{
    let entries = written_entries(nodes);
    if nodes.len() > 0 {
        let later = nodes.skip(1);
        let rest = written_entries(later);
        lemma_with_nodes_keeps(graph.insert(nodes[0].0, nodes[0].1), later, key);
        if names(rest, key) {
            let i = choose|i: int| 0 <= i < rest.len() && (#[trigger] rest[i]).key == key;
            assert(entries[i + 1].key == key);
        }
        if names(entries, key) {
            let i = choose|i: int| 0 <= i < entries.len() && (#[trigger] entries[i]).key == key;
            if i > 0 {
                assert(rest[i - 1].key == key);
            }
        } else {
            assert(entries[0].key != key);
        }
    }
}

/// Storing nodes leaves under an identifier the record of the last node
/// that carries it.
proof fn lemma_with_nodes_last(graph: GraphSpec, nodes: Nodes, i: int)
    requires
        is_last_of_key(written_entries(nodes), i),
    ensures
        with_nodes(graph, nodes).contains_key(nodes[i].0),
        with_nodes(graph, nodes)[nodes[i].0] == nodes[i].1,
    decreases nodes.len(),
{
    let entries = written_entries(nodes);
    let later = nodes.skip(1);
    let rest = written_entries(later);
    let first = graph.insert(nodes[0].0, nodes[0].1);
    if i == 0 {
        assert(!names(rest, nodes[0].0)) by {
            if names(rest, nodes[0].0) {
                let j = choose|j: int| 0 <= j < rest.len() && (#[trigger] rest[j]).key == nodes[0].0;
                assert(entries[j + 1].key == entries[0].key);
            }
        }
        lemma_with_nodes_keeps(first, later, nodes[0].0);
    } else {
        assert(is_last_of_key(rest, i - 1)) by {
            assert forall|j: int| i - 1 < j < rest.len() implies (#[trigger] rest[j]).key != rest[i
                - 1].key by {
                assert(entries[j + 1].key != entries[i].key);
            }
        }
        lemma_with_nodes_last(first, later, i - 1);
    }
}

/// Round trip: the document that lists `nodes` decodes to the graph that
/// the nodes describe, and so do bytes from which the parser reads that
/// document.
pub proof fn lemma_round_trip(nodes: Nodes, bytes: Seq<u8>)
    ensures
        graph_of_tape(graph_tape(nodes)) == Ok::<GraphSpec, ErrorSpec>(graph_of_nodes(nodes)),
        parsed_tape(bytes) == Some(graph_tape(nodes)) ==> graph_of_bytes(bytes) == Ok::<
            GraphSpec,
            ErrorSpec,
        >(graph_of_nodes(nodes)),
{
    let tape = graph_tape(nodes);
    let entries = written_entries(nodes);
    assert(tape.skip(1) =~= entries_tape(nodes));
    lemma_written_entries_are_read(nodes, Seq::empty());
    assert(Seq::<Entry>::empty() + entries =~= entries);
    assert(graph_of_tape(tape) == graph_of_entries(entries));
    assert forall|i: int| 0 <= i < entries.len() implies node_of((#[trigger] entries[i]).value)
        == Ok::<NodeSpec, Fault>(nodes[i].1) by {
        lemma_written_node_is_read(nodes[i].1);
    }
    lemma_decodes_iff_every_entry_does(entries);
    let graph = graph_of_entries(entries)->Ok_0;
    assert forall|key: Seq<char>| graph.contains_key(key) <==> graph_of_nodes(nodes).contains_key(
        key,
    ) by {
        lemma_graph_keys(entries, key);
        lemma_with_nodes_keeps(Map::empty(), nodes, key);
    }
    assert forall|key: Seq<char>| graph.contains_key(key) implies graph[key] == graph_of_nodes(
        nodes,
    )[key] by {
        lemma_last_index_is_last(entries, key);
        let i = last_index(entries, key).unwrap();
        lemma_last_entry_stays(entries, i);
        lemma_with_nodes_last(Map::empty(), nodes, i);
    }
    assert(graph =~= graph_of_nodes(nodes));
}

/// The identifiers of the graph that a list of nodes describes are those
/// of the nodes, and under each stands the record of the last node that
/// carries it.
pub proof fn lemma_graph_of_nodes(nodes: Nodes)
    ensures
        forall|key: Seq<char>|
            graph_of_nodes(nodes).contains_key(key) <==> exists|i: int|
                0 <= i < nodes.len() && (#[trigger] nodes[i]).0 == key,
        forall|i: int|
            0 <= i < nodes.len() && (forall|j: int|
                i < j < nodes.len() ==> (#[trigger] nodes[j]).0 != nodes[i].0)
                ==> graph_of_nodes(nodes).contains_key((#[trigger] nodes[i]).0) && graph_of_nodes(
                nodes,
            )[nodes[i].0] == nodes[i].1,
{
    let entries = written_entries(nodes);
    assert forall|key: Seq<char>|
        graph_of_nodes(nodes).contains_key(key) <==> exists|i: int|
            0 <= i < nodes.len() && (#[trigger] nodes[i]).0 == key by {
        lemma_with_nodes_keeps(Map::empty(), nodes, key);
        if names(entries, key) {
            let i = choose|i: int| 0 <= i < entries.len() && (#[trigger] entries[i]).key == key;
            assert(nodes[i].0 == key);
        }
        if exists|i: int| 0 <= i < nodes.len() && (#[trigger] nodes[i]).0 == key {
            let i = choose|i: int| 0 <= i < nodes.len() && (#[trigger] nodes[i]).0 == key;
            assert(entries[i].key == key);
        }
    }
    assert forall|i: int|
        0 <= i < nodes.len() && (forall|j: int|
            i < j < nodes.len() ==> (#[trigger] nodes[j]).0 != nodes[i].0) implies graph_of_nodes(
            nodes,
        ).contains_key((#[trigger] nodes[i]).0) && graph_of_nodes(nodes)[nodes[i].0]
            == nodes[i].1 by {
        assert(is_last_of_key(entries, i)) by {
            assert forall|j: int| i < j < entries.len() implies (#[trigger] entries[j]).key
                != entries[i].key by {
                assert(nodes[j].0 != nodes[i].0);
            }
        }
        lemma_with_nodes_last(Map::empty(), nodes, i);
    }
}

} // verus!
