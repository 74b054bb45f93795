//! The schema tree and its parser.
//!
//! A schema is an ordered, comma-separated list of declarations, each of the
//! form `kind [name] : type_ref [ { body } ]` where `kind` is one of
//! `service`, `characteristic`, `descriptor` or `attribute`; the optional
//! `name` overrides the accessor name; `type_ref` is an identifier path; and
//! the brace body is a non-negative integer size literal for an attribute, or
//! a nested declaration list for the other kinds.

use vstd::prelude::*;
use crate::GattError;

verus! {

broadcast use vstd::std_specs::vec::axiom_vec_index_decreases;

/// The four declaration kinds, one per hierarchy level.
#[derive(Clone, Copy, PartialEq, Eq, Structural, Debug)]
pub enum Kind {
    Service,
    Characteristic,
    Descriptor,
    Attribute,
}

/// One parsed declaration: a node of the schema tree.
///
/// The parser only builds nodes where an attribute has no children and only
/// an attribute carries a non-zero size. The nesting rules — which kinds may
/// appear under which — are checked later, by the layout compiler.
#[derive(PartialEq, Eq, Debug)]
pub struct SchemaNode {
    pub kind: Kind,
    /// The optional declared accessor name.
    pub name: Option<Vec<u8>>,
    /// The identifier path naming the concrete entity type.
    pub type_ref: Vec<u8>,
    /// Nested declarations, in declaration order.
    pub children: Vec<SchemaNode>,
    /// The declared byte size; meaningful only for attribute nodes.
    pub size: u64,
}

/// The mathematical image of a `SchemaNode`.
#[verifier::ext_equal]
pub ghost struct SchemaNodeV {
    pub kind: Kind,
    pub name: Option<Seq<u8>>,
    pub type_ref: Seq<u8>,
    pub children: Seq<SchemaNodeV>,
    pub size: u64,
}

impl SchemaNode {
    /// The node as a mathematical tree.
    pub open spec fn deep(self) -> SchemaNodeV
        decreases self,
    {
        SchemaNodeV {
            kind: self.kind,
            name: match self.name {
                Some(n) => Some(n@),
                None => None,
            },
            type_ref: self.type_ref@,
            children: Seq::new(
                self.children@.len(),
                |i: int|
                    if 0 <= i < self.children.len() {
                        self.children[i].deep()
                    } else {
                        arbitrary()
                    },
            ),
            size: self.size,
        }
    }
}

/// The mathematical image of a list of schema nodes.
pub open spec fn deep_seq(s: Seq<SchemaNode>) -> Seq<SchemaNodeV> {
    Seq::new(s.len(), |i: int| s[i].deep())
}

} // verus!
