//! The ways in which decoding fails.

use vstd::prelude::*;

verus! {

/// The two fields that every node of a graph document carries.
#[derive(Clone, Copy, Debug, PartialEq, Eq, Structural)]
pub enum Field {
    /// The string payload of a node.
    Data,
    /// The ordered list of dependencies of a node.
    Dependencies,
}

impl Field {
    /// The key under which the field stands in a document.
    pub open spec fn spec_name(self) -> Seq<char> {
        match self {
            Field::Data => "Data"@,
            Field::Dependencies => "Dependencies"@,
        }
    }

    /// The key under which the field stands in a document.
    pub fn name(self) -> (name: &'static str)
        ensures
            name@ == self.spec_name(),
    {
        match self {
            Field::Data => "Data",
            Field::Dependencies => "Dependencies",
        }
    }
}

/// What is wrong with the value of one node.
#[derive(Clone, Copy, Debug, PartialEq, Eq, Structural)]
pub enum Fault {
    /// The tokens of the value do not hold together as the entries of an
    /// object: a key is not a string, a value runs past the end, or tokens
    /// are missing or left over.
    Structure,
    /// The value does not have the shape of a node. The field is the one at
    /// fault; there is none where the value is not an object at all.
    Shape(Option<Field>),
}

/// Why a document could not be decoded.
#[derive(Clone, Debug, PartialEq, Eq)]
pub enum DecodeError {
    /// The source could not be read to its end. Decoding itself reads no
    /// source and never gives this error; it is for those who fetch the bytes.
    Io { message: String },
    /// The bytes are not a JSON document.
    Malformed { diagnostic: String },
    /// The document is not a graph. `node` is the identifier of the node at
    /// fault, `field` the field of it that is missing, that stands twice or
    /// that is of the wrong type. There is no node where the document as a
    /// whole is not an object, and no field where the value of a node is not
    /// an object.
    SchemaViolation { node: Option<String>, field: Option<Field> },
}

/// The mathematical value of a [`DecodeError`]: its kind and, for a schema
/// violation, the place. The texts of the other two kinds are not part of it.
pub enum ErrorSpec {
    Io,
    Malformed,
    SchemaViolation { node: Option<Seq<char>>, field: Option<Field> },
}

impl View for DecodeError {
    type V = ErrorSpec;

    open spec fn view(&self) -> ErrorSpec {
        match *self {
            DecodeError::Io { .. } => ErrorSpec::Io,
            DecodeError::Malformed { .. } => ErrorSpec::Malformed,
            DecodeError::SchemaViolation { node, field } => ErrorSpec::SchemaViolation {
                node: match node {
                    Some(key) => Some(key@),
                    None => None,
                },
                field,
            },
        }
    }
}

impl Fault {
    /// The error that a fault in the value of node `key` amounts to.
    pub open spec fn spec_at_node(self, key: Seq<char>) -> ErrorSpec {
        match self {
            Fault::Structure => ErrorSpec::Malformed,
            Fault::Shape(field) => ErrorSpec::SchemaViolation { node: Some(key), field },
        }
    }
}

} // verus!
