//! The decoded graph: a mapping from node identifiers to node records.

use vstd::prelude::*;
use vstd::hash_map::StringHashMap;

verus! {

/// What is stored for one node.
#[derive(Clone, Debug, PartialEq, Eq)]
pub struct NodeRecord {
    /// The payload of the node. It is not interpreted.
    pub data: String,
    /// The dependencies of the node, in the order in which the document
    /// lists them. They are not checked against the identifiers of the graph.
    pub dependencies: Vec<u32>,
}

/// The mathematical value of a [`NodeRecord`].
pub struct NodeSpec {
    pub data: Seq<char>,
    pub dependencies: Seq<u32>,
}

impl View for NodeRecord {
    type V = NodeSpec;

    open spec fn view(&self) -> NodeSpec {
        NodeSpec { data: self.data@, dependencies: self.dependencies@ }
    }
}

/// A node identifier together with the record of that node.
#[derive(Clone, Debug, PartialEq, Eq)]
pub struct NodeEntry {
    pub key: String,
    pub record: NodeRecord,
}

/// The mathematical value of a graph: each node identifier with its record.
pub type GraphSpec = Map<Seq<char>, NodeSpec>;

/// A decoded graph.
///
/// The entries are kept in the order in which their identifiers were first
/// seen, with an index from identifier to position beside them.
pub struct ParsedGraph {
    entries: Vec<NodeEntry>,
    index: StringHashMap<usize>,
}

impl View for ParsedGraph {
    type V = GraphSpec;

    closed spec fn view(&self) -> GraphSpec {
        Map::new(
            |k: Seq<char>| self.index@.contains_key(k),
            |k: Seq<char>| self.entries@[self.index@[k] as int].record@,
        )
    }
}

impl ParsedGraph {
    /// The index and the entries describe each other: an identifier is
    /// indexed exactly if an entry carries it, and then the index gives the
    /// position of that entry.
    #[verifier::type_invariant]
    spec fn consistent(self) -> bool {
        &&& self.index@.dom().finite()
        &&& self.index@.dom().len() == self.entries@.len()
        &&& forall|k: Seq<char>| #[trigger]
            self.index@.contains_key(k) ==> self.index@[k] < self.entries@.len()
                && self.entries@[self.index@[k] as int].key@ == k
        &&& forall|i: int|
            0 <= i < self.entries@.len() ==> self.index@.contains_key(
                (#[trigger] self.entries@[i]).key@,
            ) && self.index@[self.entries@[i].key@] == i
    }

    /// The graph without nodes.
    pub fn new() -> (graph: Self)
        ensures
            graph@ == GraphSpec::empty(),
    {
        let graph = ParsedGraph { entries: Vec::new(), index: StringHashMap::new() };
        assert(graph@ =~= GraphSpec::empty());
        graph
    }

    /// The graph with `record` stored under `key`. A record that was stored
    /// under `key` before is replaced.
    pub fn with_node(self, key: String, record: NodeRecord) -> (graph: Self)
        ensures
            graph@ == self@.insert(key@, record@),
    {
        proof {
            use_type_invariant(&self);
        }
        let ghost before = self;
        let ParsedGraph { mut entries, mut index } = self;
        let found: Option<usize> = match index.get(key.as_str()) {
            Some(position) => Some(*position),
            None => None,
        };
        match found {
            Some(position) => {
                entries.set(position, NodeEntry { key, record });
            },
            None => {
                let position: usize = entries.len();
                index.insert(key.clone(), position);
                entries.push(NodeEntry { key, record });
            },
        }
        let graph = ParsedGraph { entries, index };
        assert(graph@ =~= before@.insert(key@, record@));
        graph
    }

    /// The number of nodes.
    pub fn len(&self) -> (n: usize)
        ensures
            n == self@.len(),
            self@.dom().finite(),
    {
        proof {
            use_type_invariant(self);
            assert(self@.dom() =~= self.index@.dom());
        }
        self.entries.len()
    }

    /// The nodes of the graph, each identifier once with its record.
    pub fn into_entries(self) -> (entries: Vec<NodeEntry>)
        ensures
            self@.dom().finite(),
            entries@.len() == self@.len(),
            forall|i: int|
                0 <= i < entries@.len() ==> self@.contains_key((#[trigger] entries@[i]).key@)
                    && self@[entries@[i].key@] == entries@[i].record@,
            forall|i: int, j: int|
                0 <= i < j < entries@.len() ==> (#[trigger] entries@[i]).key@
                    != (#[trigger] entries@[j]).key@,
            forall|key: Seq<char>|
                self@.contains_key(key) ==> exists|i: int|
                    0 <= i < entries@.len() && (#[trigger] entries@[i]).key@ == key,
    {
        proof {
            use_type_invariant(&self);
            assert(self@.dom() =~= self.index@.dom());
            assert forall|key: Seq<char>| self@.contains_key(key) implies exists|i: int|
                0 <= i < self.entries@.len() && (#[trigger] self.entries@[i]).key@ == key by {
                let i = self.index@[key] as int;
                assert(self.entries@[i].key@ == key);
            }
        }
        self.entries
    }

    /// The record that is stored under `key`, if there is one.
    pub fn get(&self, key: &str) -> (found: Option<&NodeRecord>)
        ensures
            match found {
                Some(record) => self@.contains_key(key@) && record@ == self@[key@],
                None => !self@.contains_key(key@),
            },
    {
        proof {
            use_type_invariant(self);
        }
        match self.index.get(key) {
            Some(position) => Some(&self.entries[*position].record),
            None => None,
        }
    }
}

} // verus!
