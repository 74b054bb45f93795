//! A verified GATT server layout compiler.
//!
//! A declarative, hierarchical description of a BLE GATT server — services
//! containing characteristics containing descriptors containing attributes —
//! is compiled into four flattened, parent-indexed tables plus one contiguous
//! byte store, together with a typed navigation API of handles that walk from
//! server to service to characteristic to descriptor to attribute and read or
//! write attribute byte values safely.

use vstd::prelude::*;

pub mod layout;
pub mod names;
pub mod parse;
pub mod schema;
pub mod server;

verus! {

/// The error taxonomy of the whole pipeline.
///
/// `SyntaxError`, `InvalidNesting` and `InvalidSize` are build-time errors that
/// abort compilation with no partial result; `SizeMismatch` is a recoverable
/// runtime error of an attribute `set` call.
#[derive(Clone, Copy, PartialEq, Eq, Structural, Debug)]
pub enum GattError {
    /// Malformed schema text: missing or unrecognized kind keyword, missing
    /// `:` separator, invalid identifier path, or a brace body whose shape
    /// does not match the declaration kind.
    SyntaxError,
    /// A declaration nested under a kind that disallows it, or a non-service
    /// declaration at the top level, or an attribute with child declarations.
    InvalidNesting,
    /// An attribute size that does not fit the byte store's offset width, or
    /// a total store size that does not.
    InvalidSize,
    /// A `set` call whose payload length disagrees with the attribute's
    /// declared size.
    SizeMismatch,
}

/// A half-open index range `[start, end)` into one of the flat tables.
#[derive(Clone, Copy, PartialEq, Eq, Structural, Debug)]
pub struct IndexRange {
    pub start: usize,
    pub end: usize,
}

impl IndexRange {
    /// A well-formed range within a table of `len` entries.
    pub open spec fn wf(self, len: int) -> bool {
        self.start <= self.end <= len
    }

    /// How many entries the range spans.
    pub fn len(&self) -> (r: usize)
        requires
            self.start <= self.end,
        ensures
            r == self.end - self.start,
    {
        self.end - self.start
    }
}

/// The mathematical pipeline: parse the schema text, then compile the tree.
pub open spec fn sp_gatt(s: Seq<u8>) -> Result<layout::LayoutV, GattError> {
    match parse::sp_parse(s) {
        Ok(ns) => layout::sp_compile(ns),
        Err(e) => Err(e),
    }
}

/// Compiles schema text into a checked-out-once server.
///
/// The parsed tree is flattened into the four tables, the byte store is
/// allocated zeroed at exactly the computed size, and the result is wrapped
/// so that the live server can be taken exactly once. Build-time errors
/// (`SyntaxError`, `InvalidNesting`, `InvalidSize`) abort the build whole.
pub fn gatt_server(input: &[u8]) -> (r: Result<server::GattServer, GattError>)
    ensures
        (match r {
            Ok(g) => (match sp_gatt(input@) {
                Ok(lv) => lv.wf() && g@ == Some(
                    server::ServerV {
                        layout: lv,
                        store: Seq::new(lv.store_size as nat, |i: int| 0u8),
                    },
                ),
                Err(_) => false,
            }),
            Err(e) => sp_gatt(input@) == Err::<layout::LayoutV, GattError>(e),
        }),
{
    let nodes = match parse::parse_schema(input) {
        Ok(ns) => ns,
        Err(e) => {
            return Err(e);
        },
    };
    let l = match layout::compile(&nodes) {
        Ok(l) => l,
        Err(e) => {
            return Err(e);
        },
    };
    let ghost lv = l@;
    let s = server::Server::new(l);
    proof {
        assert(s@.store =~= Seq::new(lv.store_size as nat, |i: int| 0u8));
    }
    Ok(server::GattServer::new(s))
}

/// Layout determinism: one schema text, compiled twice, yields identical
/// offset/size/index tables.
pub proof fn lemma_layout_deterministic(s: Seq<u8>, l1: layout::LayoutV, l2: layout::LayoutV)
    requires
        sp_gatt(s) == Ok::<layout::LayoutV, GattError>(l1),
        sp_gatt(s) == Ok::<layout::LayoutV, GattError>(l2),
    ensures
        l1 == l2,
{
}

} // verus!
