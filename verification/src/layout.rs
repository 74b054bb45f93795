//! The layout compiler.
//!
//! The schema tree is flattened bottom-up into four flat ordered tables, where
//! each non-leaf entry stores a contiguous half-open index range into the next
//! table down, and each attribute entry stores an offset/size pair into one
//! global byte store. All attributes owned by a subtree are assigned
//! contiguous indices before the subtree's own table entry is appended, so
//! sibling ranges are adjacent and in declaration order. Byte offsets are the
//! running total of the declared sizes, in attribute table order.
//!
//! The compiler is pinned to the mathematical compiler `sp_compile`: the
//! tables are a deterministic, pure function of the schema tree.

use vstd::prelude::*;
use crate::{GattError, IndexRange};
use crate::names::{accessor_of, copy_bytes, spec_accessor};
use crate::schema::{deep_seq, Kind, SchemaNode, SchemaNodeV};

verus! {

/// The mathematical image of an `IndexRange`.
#[verifier::ext_equal]
pub ghost struct RangeV {
    pub start: int,
    pub end: int,
}

impl View for IndexRange {
    type V = RangeV;

    open spec fn view(&self) -> RangeV {
        RangeV { start: self.start as int, end: self.end as int }
    }
}

/// One attribute: a fixed-size region `[offset, offset + size)` of the global
/// byte store.
#[derive(Clone, PartialEq, Eq, Debug)]
pub struct AttributeEntry {
    pub offset: u32,
    pub size: u32,
    pub accessor: Vec<u8>,
    pub type_ref: Vec<u8>,
}

/// One descriptor: its directly-owned attributes.
#[derive(Clone, PartialEq, Eq, Debug)]
pub struct DescriptorEntry {
    pub attributes: IndexRange,
    pub accessor: Vec<u8>,
    pub type_ref: Vec<u8>,
}

/// One characteristic: its directly-owned attributes and its descriptors.
#[derive(Clone, PartialEq, Eq, Debug)]
pub struct CharacteristicEntry {
    pub attributes: IndexRange,
    pub descriptors: IndexRange,
    pub accessor: Vec<u8>,
    pub type_ref: Vec<u8>,
}

/// One service: its directly-owned attributes and its characteristics.
#[derive(Clone, PartialEq, Eq, Debug)]
pub struct ServiceEntry {
    pub attributes: IndexRange,
    pub characteristics: IndexRange,
    pub accessor: Vec<u8>,
    pub type_ref: Vec<u8>,
}

/// The compiler output: four flat tables plus the byte store size.
#[derive(PartialEq, Eq, Debug)]
pub struct Layout {
    pub services: Vec<ServiceEntry>,
    pub characteristics: Vec<CharacteristicEntry>,
    pub descriptors: Vec<DescriptorEntry>,
    pub attributes: Vec<AttributeEntry>,
    pub store_size: u32,
}

#[verifier::ext_equal]
pub ghost struct AttributeEntryV {
    pub offset: int,
    pub size: int,
    pub accessor: Seq<u8>,
    pub type_ref: Seq<u8>,
}

#[verifier::ext_equal]
pub ghost struct DescriptorEntryV {
    pub attributes: RangeV,
    pub accessor: Seq<u8>,
    pub type_ref: Seq<u8>,
}

#[verifier::ext_equal]
pub ghost struct CharacteristicEntryV {
    pub attributes: RangeV,
    pub descriptors: RangeV,
    pub accessor: Seq<u8>,
    pub type_ref: Seq<u8>,
}

#[verifier::ext_equal]
pub ghost struct ServiceEntryV {
    pub attributes: RangeV,
    pub characteristics: RangeV,
    pub accessor: Seq<u8>,
    pub type_ref: Seq<u8>,
}

/// The mathematical image of a `Layout`.
#[verifier::ext_equal]
pub ghost struct LayoutV {
    pub services: Seq<ServiceEntryV>,
    pub characteristics: Seq<CharacteristicEntryV>,
    pub descriptors: Seq<DescriptorEntryV>,
    pub attributes: Seq<AttributeEntryV>,
    pub store_size: int,
}

impl View for AttributeEntry {
    type V = AttributeEntryV;

    open spec fn view(&self) -> AttributeEntryV {
        AttributeEntryV {
            offset: self.offset as int,
            size: self.size as int,
            accessor: self.accessor@,
            type_ref: self.type_ref@,
        }
    }
}

impl View for DescriptorEntry {
    type V = DescriptorEntryV;

    open spec fn view(&self) -> DescriptorEntryV {
        DescriptorEntryV {
            attributes: self.attributes@,
            accessor: self.accessor@,
            type_ref: self.type_ref@,
        }
    }
}

impl View for CharacteristicEntry {
    type V = CharacteristicEntryV;

    open spec fn view(&self) -> CharacteristicEntryV {
        CharacteristicEntryV {
            attributes: self.attributes@,
            descriptors: self.descriptors@,
            accessor: self.accessor@,
            type_ref: self.type_ref@,
        }
    }
}

impl View for ServiceEntry {
    type V = ServiceEntryV;

    open spec fn view(&self) -> ServiceEntryV {
        ServiceEntryV {
            attributes: self.attributes@,
            characteristics: self.characteristics@,
            accessor: self.accessor@,
            type_ref: self.type_ref@,
        }
    }
}

impl View for Layout {
    type V = LayoutV;

    open spec fn view(&self) -> LayoutV {
        LayoutV {
            services: Seq::new(self.services@.len(), |i: int| self.services@[i]@),
            characteristics: Seq::new(
                self.characteristics@.len(),
                |i: int| self.characteristics@[i]@,
            ),
            descriptors: Seq::new(self.descriptors@.len(), |i: int| self.descriptors@[i]@),
            attributes: Seq::new(self.attributes@.len(), |i: int| self.attributes@[i]@),
            store_size: self.store_size as int,
        }
    }
}

/// The layout with no entries and an empty byte store.
pub open spec fn empty_layout() -> LayoutV {
    LayoutV {
        services: Seq::empty(),
        characteristics: Seq::empty(),
        descriptors: Seq::empty(),
        attributes: Seq::empty(),
        store_size: 0,
    }
}

/// Whether every child of the list has one of the two permitted kinds.
pub open spec fn kinds_ok(children: Seq<SchemaNodeV>, a: Kind, b: Kind) -> bool {
    forall|i: int| 0 <= i < children.len() ==> (children[i].kind == a || children[i].kind == b)
}

/// The children of one kind, relative order preserved.
pub open spec fn keep(children: Seq<SchemaNodeV>, k: Kind) -> Seq<SchemaNodeV>
    decreases children.len(),
{
    if children.len() == 0 {
        Seq::empty()
    } else if children.last().kind == k {
        keep(children.drop_last(), k).push(children.last())
    } else {
        keep(children.drop_last(), k)
    }
}

/// The attribute entry a node compiles to when the store holds `offset` bytes.
pub open spec fn attr_entry_of(offset: int, n: SchemaNodeV) -> AttributeEntryV {
    AttributeEntryV {
        offset: offset,
        size: n.size as int,
        accessor: spec_accessor(n.name, n.type_ref),
        type_ref: n.type_ref,
    }
}

/// Compiles one attribute node: one attribute table entry at the next free
/// byte offset. An attribute with children is rejected; a size that would push
/// the store past the offset width is rejected.
pub open spec fn sp_attribute(t: LayoutV, n: SchemaNodeV) -> Result<LayoutV, GattError> {
    if n.children.len() > 0 {
        Err(GattError::InvalidNesting)
    } else if t.store_size + n.size > u32::MAX {
        Err(GattError::InvalidSize)
    } else {
        Ok(
            LayoutV {
                attributes: t.attributes.push(attr_entry_of(t.store_size, n)),
                store_size: t.store_size + n.size,
                ..t
            },
        )
    }
}

/// Compiles a list of attribute nodes left to right.
pub open spec fn sp_attribute_list(t: LayoutV, cs: Seq<SchemaNodeV>) -> Result<
    LayoutV,
    GattError,
>
    decreases cs.len(),
{
    if cs.len() == 0 {
        Ok(t)
    } else {
        match sp_attribute_list(t, cs.drop_last()) {
            Ok(t1) => sp_attribute(t1, cs.last()),
            Err(e) => Err(e),
        }
    }
}

/// Compiles one descriptor node: its attribute children first, then one
/// descriptor table entry whose range covers exactly the entries they added.
pub open spec fn sp_descriptor(t: LayoutV, n: SchemaNodeV) -> Result<LayoutV, GattError> {
    if !kinds_ok(n.children, Kind::Attribute, Kind::Attribute) {
        Err(GattError::InvalidNesting)
    } else {
        match sp_attribute_list(t, n.children) {
            Ok(t1) => Ok(
                LayoutV {
                    descriptors: t1.descriptors.push(
                        DescriptorEntryV {
                            attributes: RangeV {
                                start: t.attributes.len() as int,
                                end: t1.attributes.len() as int,
                            },
                            accessor: spec_accessor(n.name, n.type_ref),
                            type_ref: n.type_ref,
                        },
                    ),
                    ..t1
                },
            ),
            Err(e) => Err(e),
        }
    }
}

/// Compiles a list of descriptor nodes left to right.
pub open spec fn sp_descriptor_list(t: LayoutV, cs: Seq<SchemaNodeV>) -> Result<
    LayoutV,
    GattError,
>
    decreases cs.len(),
{
    if cs.len() == 0 {
        Ok(t)
    } else {
        match sp_descriptor_list(t, cs.drop_last()) {
            Ok(t1) => sp_descriptor(t1, cs.last()),
            Err(e) => Err(e),
        }
    }
}

/// Compiles one characteristic node: its descriptor children first, then its
/// directly-owned attribute children, then one characteristic table entry
/// with both ranges.
pub open spec fn sp_characteristic(t: LayoutV, n: SchemaNodeV) -> Result<LayoutV, GattError> {
    if !kinds_ok(n.children, Kind::Descriptor, Kind::Attribute) {
        Err(GattError::InvalidNesting)
    } else {
        match sp_descriptor_list(t, keep(n.children, Kind::Descriptor)) {
            Ok(t1) => match sp_attribute_list(t1, keep(n.children, Kind::Attribute)) {
                Ok(t2) => Ok(
                    LayoutV {
                        characteristics: t2.characteristics.push(
                            CharacteristicEntryV {
                                attributes: RangeV {
                                    start: t1.attributes.len() as int,
                                    end: t2.attributes.len() as int,
                                },
                                descriptors: RangeV {
                                    start: t.descriptors.len() as int,
                                    end: t2.descriptors.len() as int,
                                },
                                accessor: spec_accessor(n.name, n.type_ref),
                                type_ref: n.type_ref,
                            },
                        ),
                        ..t2
                    },
                ),
                Err(e) => Err(e),
            },
            Err(e) => Err(e),
        }
    }
}

/// Compiles a list of characteristic nodes left to right.
pub open spec fn sp_characteristic_list(t: LayoutV, cs: Seq<SchemaNodeV>) -> Result<
    LayoutV,
    GattError,
>
    decreases cs.len(),
{
    if cs.len() == 0 {
        Ok(t)
    } else {
        match sp_characteristic_list(t, cs.drop_last()) {
            Ok(t1) => sp_characteristic(t1, cs.last()),
            Err(e) => Err(e),
        }
    }
}

/// Compiles one service node: its characteristic children first, then its
/// directly-owned attribute children, then one service table entry with both
/// ranges.
pub open spec fn sp_service(t: LayoutV, n: SchemaNodeV) -> Result<LayoutV, GattError> {
    if !kinds_ok(n.children, Kind::Characteristic, Kind::Attribute) {
        Err(GattError::InvalidNesting)
    } else {
        match sp_characteristic_list(t, keep(n.children, Kind::Characteristic)) {
            Ok(t1) => match sp_attribute_list(t1, keep(n.children, Kind::Attribute)) {
                Ok(t2) => Ok(
                    LayoutV {
                        services: t2.services.push(
                            ServiceEntryV {
                                attributes: RangeV {
                                    start: t1.attributes.len() as int,
                                    end: t2.attributes.len() as int,
                                },
                                characteristics: RangeV {
                                    start: t.characteristics.len() as int,
                                    end: t2.characteristics.len() as int,
                                },
                                accessor: spec_accessor(n.name, n.type_ref),
                                type_ref: n.type_ref,
                            },
                        ),
                        ..t2
                    },
                ),
                Err(e) => Err(e),
            },
            Err(e) => Err(e),
        }
    }
}

/// Compiles a list of service nodes left to right.
pub open spec fn sp_service_list(t: LayoutV, cs: Seq<SchemaNodeV>) -> Result<LayoutV, GattError>
    decreases cs.len(),
{
    if cs.len() == 0 {
        Ok(t)
    } else {
        match sp_service_list(t, cs.drop_last()) {
            Ok(t1) => sp_service(t1, cs.last()),
            Err(e) => Err(e),
        }
    }
}

/// Whether every top-level node is a service.
pub open spec fn all_services(ns: Seq<SchemaNodeV>) -> bool {
    forall|i: int| 0 <= i < ns.len() ==> ns[i].kind == Kind::Service
}

/// The mathematical layout compiler: the tables and the byte store size are a
/// pure function of the schema tree, so identical schemas always yield
/// identical layouts.
pub open spec fn sp_compile(ns: Seq<SchemaNodeV>) -> Result<LayoutV, GattError> {
    if !all_services(ns) {
        Err(GattError::InvalidNesting)
    } else {
        sp_service_list(empty_layout(), ns)
    }
}

/// The sum of the sizes of the first `i` attribute entries.
pub open spec fn sum_sizes(attrs: Seq<AttributeEntryV>, i: int) -> int
    decreases i,
{
    if i <= 0 {
        0
    } else {
        sum_sizes(attrs, i - 1) + attrs[i - 1].size
    }
}

impl LayoutV {
    /// Every index range points into the table below it.
    pub open spec fn ranges_wf(self) -> bool {
        &&& forall|i: int|
            0 <= i < self.services.len() ==> {
                &&& 0 <= (#[trigger] self.services[i]).attributes.start
                    <= self.services[i].attributes.end <= self.attributes.len()
                &&& 0 <= self.services[i].characteristics.start
                    <= self.services[i].characteristics.end <= self.characteristics.len()
            }
        &&& forall|i: int|
            0 <= i < self.characteristics.len() ==> {
                &&& 0 <= (#[trigger] self.characteristics[i]).attributes.start
                    <= self.characteristics[i].attributes.end <= self.attributes.len()
                &&& 0 <= self.characteristics[i].descriptors.start
                    <= self.characteristics[i].descriptors.end <= self.descriptors.len()
            }
        &&& forall|i: int|
            0 <= i < self.descriptors.len() ==> {
                &&& 0 <= (#[trigger] self.descriptors[i]).attributes.start
                    <= self.descriptors[i].attributes.end <= self.attributes.len()
            }
    }

    /// Every attribute's offset is the running total of the sizes before it,
    /// and the store size is the total of all of them: the offset/size
    /// intervals tile `[0, store_size)` in table order.
    pub open spec fn store_tiled(self) -> bool {
        &&& forall|i: int|
            0 <= i < self.attributes.len() ==> {
                &&& (#[trigger] self.attributes[i]).offset == sum_sizes(self.attributes, i)
                &&& 0 <= self.attributes[i].size
            }
        &&& self.store_size == sum_sizes(self.attributes, self.attributes.len() as int)
        &&& 0 <= self.store_size <= u32::MAX
    }

    /// A compiled layout: ranges point into their tables and the byte store
    /// is tiled by the attribute intervals.
    pub open spec fn wf(self) -> bool {
        self.ranges_wf() && self.store_tiled()
    }
}

/// Prefix sums of non-negative sizes are monotone.
pub proof fn lemma_sum_monotone(attrs: Seq<AttributeEntryV>, i: int, j: int)
    requires
        0 <= i <= j <= attrs.len(),
        forall|k: int| 0 <= k < attrs.len() ==> 0 <= (#[trigger] attrs[k]).size,
    ensures
        sum_sizes(attrs, i) <= sum_sizes(attrs, j),
    decreases j,
{
    if i < j {
        lemma_sum_monotone(attrs, i, j - 1);
    }
}

/// Every attribute's offset/size interval lies within the byte store.
pub proof fn lemma_attr_in_store(l: LayoutV, i: int)
    requires
        l.store_tiled(),
        0 <= i < l.attributes.len(),
    ensures
        0 <= l.attributes[i].offset,
        l.attributes[i].offset + l.attributes[i].size <= l.store_size,
{
    lemma_sum_monotone(l.attributes, 0, i);
    lemma_sum_monotone(l.attributes, i + 1, l.attributes.len() as int);
    assert(sum_sizes(l.attributes, i + 1) == sum_sizes(l.attributes, i) + l.attributes[i].size);
}

/// No two attributes' offset/size intervals overlap.
pub proof fn lemma_attr_disjoint(l: LayoutV, i: int, j: int)
    requires
        l.store_tiled(),
        0 <= i < l.attributes.len(),
        0 <= j < l.attributes.len(),
        i != j,
    ensures
        l.attributes[i].offset + l.attributes[i].size <= l.attributes[j].offset || l.attributes[
            j
        ].offset + l.attributes[j].size <= l.attributes[i].offset,
{
    if i < j {
        lemma_sum_monotone(l.attributes, i + 1, j);
        assert(sum_sizes(l.attributes, i + 1) == sum_sizes(l.attributes, i) + l.attributes[
            i
        ].size);
    } else {
        lemma_sum_monotone(l.attributes, j + 1, i);
        assert(sum_sizes(l.attributes, j + 1) == sum_sizes(l.attributes, j) + l.attributes[
            j
        ].size);
    }
}

/// Sums agree on a common prefix.
proof fn lemma_sum_agree(a1: Seq<AttributeEntryV>, a2: Seq<AttributeEntryV>, i: int)
    requires
        0 <= i <= a1.len(),
        i <= a2.len(),
        forall|j: int| 0 <= j < i ==> a1[j] == a2[j],
    ensures
        sum_sizes(a1, i) == sum_sizes(a2, i),
    decreases i,
{
    if i > 0 {
        lemma_sum_agree(a1, a2, i - 1);
    }
}

/// What one attribute step preserves: the other tables are untouched, the
/// attribute table grows by one, and well-formedness is kept.
proof fn lemma_attribute_ok(t: LayoutV, n: SchemaNodeV, t2: LayoutV)
    requires
        sp_attribute(t, n) == Ok::<LayoutV, GattError>(t2),
    ensures
        t2.services == t.services,
        t2.characteristics == t.characteristics,
        t2.descriptors == t.descriptors,
        t2.attributes == t.attributes.push(attr_entry_of(t.store_size, n)),
        t2.store_size == t.store_size + n.size,
        t.store_tiled() ==> t2.store_tiled(),
        t.ranges_wf() ==> t2.ranges_wf(),
{
    if t.store_tiled() {
        assert forall|i: int| 0 <= i < t2.attributes.len() implies {
            &&& (#[trigger] t2.attributes[i]).offset == sum_sizes(t2.attributes, i)
            &&& 0 <= t2.attributes[i].size
        } by {
            lemma_sum_agree(t.attributes, t2.attributes, i);
            if i < t.attributes.len() {
            } else {
                assert(t2.attributes[i] == attr_entry_of(t.store_size, n));
                assert(sum_sizes(t2.attributes, i) == sum_sizes(t.attributes, i));
            }
        }
        lemma_sum_agree(t.attributes, t2.attributes, t.attributes.len() as int);
        assert(sum_sizes(t2.attributes, t2.attributes.len() as int) == sum_sizes(
            t2.attributes,
            t.attributes.len() as int,
        ) + t2.attributes[t.attributes.len() as int].size);
    }
}

/// What an attribute list fold preserves.
proof fn lemma_attribute_list_ok(t: LayoutV, cs: Seq<SchemaNodeV>, t2: LayoutV)
    requires
        sp_attribute_list(t, cs) == Ok::<LayoutV, GattError>(t2),
    ensures
        t2.services == t.services,
        t2.characteristics == t.characteristics,
        t2.descriptors == t.descriptors,
        t.attributes.is_prefix_of(t2.attributes),
        t.store_size <= t2.store_size,
        t.store_tiled() ==> t2.store_tiled(),
        t.ranges_wf() ==> t2.ranges_wf(),
    decreases cs.len(),
{
    if cs.len() == 0 {
        assert(t.attributes.is_prefix_of(t2.attributes));
    } else {
        let t1 = match sp_attribute_list(t, cs.drop_last()) {
            Ok(t1) => t1,
            Err(_) => arbitrary(),
        };
        lemma_attribute_list_ok(t, cs.drop_last(), t1);
        lemma_attribute_ok(t1, cs.last(), t2);
        assert(t.attributes.is_prefix_of(t2.attributes));
    }
}

/// What one descriptor step preserves.
proof fn lemma_descriptor_ok(t: LayoutV, n: SchemaNodeV, t2: LayoutV)
    requires
        sp_descriptor(t, n) == Ok::<LayoutV, GattError>(t2),
    ensures
        t2.services == t.services,
        t2.characteristics == t.characteristics,
        t.descriptors.is_prefix_of(t2.descriptors),
        t2.descriptors.len() == t.descriptors.len() + 1,
        t.attributes.is_prefix_of(t2.attributes),
        t.store_size <= t2.store_size,
        t.store_tiled() ==> t2.store_tiled(),
        t.ranges_wf() ==> t2.ranges_wf(),
        t2.descriptors[t.descriptors.len() as int].attributes == (RangeV {
            start: t.attributes.len() as int,
            end: t2.attributes.len() as int,
        }),
{
    let t1 = match sp_attribute_list(t, n.children) {
        Ok(t1) => t1,
        Err(_) => arbitrary(),
    };
    lemma_attribute_list_ok(t, n.children, t1);
    assert(t.descriptors.is_prefix_of(t2.descriptors));
}

/// What a descriptor list fold preserves.
proof fn lemma_descriptor_list_ok(t: LayoutV, cs: Seq<SchemaNodeV>, t2: LayoutV)
    requires
        sp_descriptor_list(t, cs) == Ok::<LayoutV, GattError>(t2),
    ensures
        t2.services == t.services,
        t2.characteristics == t.characteristics,
        t.descriptors.is_prefix_of(t2.descriptors),
        t2.descriptors.len() == t.descriptors.len() + cs.len(),
        t.attributes.is_prefix_of(t2.attributes),
        t.store_size <= t2.store_size,
        t.store_tiled() ==> t2.store_tiled(),
        t.ranges_wf() ==> t2.ranges_wf(),
    decreases cs.len(),
{
    if cs.len() == 0 {
        assert(t.descriptors.is_prefix_of(t2.descriptors));
        assert(t.attributes.is_prefix_of(t2.attributes));
    } else {
        let t1 = match sp_descriptor_list(t, cs.drop_last()) {
            Ok(t1) => t1,
            Err(_) => arbitrary(),
        };
        lemma_descriptor_list_ok(t, cs.drop_last(), t1);
        lemma_descriptor_ok(t1, cs.last(), t2);
        assert(t.descriptors.is_prefix_of(t2.descriptors));
        assert(t.attributes.is_prefix_of(t2.attributes));
    }
}

/// What one characteristic step preserves.
proof fn lemma_characteristic_ok(t: LayoutV, n: SchemaNodeV, t2: LayoutV)
    requires
        sp_characteristic(t, n) == Ok::<LayoutV, GattError>(t2),
    ensures
        t2.services == t.services,
        t.characteristics.is_prefix_of(t2.characteristics),
        t2.characteristics.len() == t.characteristics.len() + 1,
        t.descriptors.is_prefix_of(t2.descriptors),
        t.attributes.is_prefix_of(t2.attributes),
        t.store_size <= t2.store_size,
        t.store_tiled() ==> t2.store_tiled(),
        t.ranges_wf() ==> t2.ranges_wf(),
        t2.characteristics[t.characteristics.len() as int].descriptors == (RangeV {
            start: t.descriptors.len() as int,
            end: t2.descriptors.len() as int,
        }),
        t.attributes.len() <= t2.characteristics[t.characteristics.len() as int].attributes.start,
        t2.characteristics[t.characteristics.len() as int].attributes.end
            == t2.attributes.len(),
{
    let ta = match sp_descriptor_list(t, keep(n.children, Kind::Descriptor)) {
        Ok(ta) => ta,
        Err(_) => arbitrary(),
    };
    lemma_descriptor_list_ok(t, keep(n.children, Kind::Descriptor), ta);
    let tb = match sp_attribute_list(ta, keep(n.children, Kind::Attribute)) {
        Ok(tb) => tb,
        Err(_) => arbitrary(),
    };
    lemma_attribute_list_ok(ta, keep(n.children, Kind::Attribute), tb);
    assert(t.characteristics.is_prefix_of(t2.characteristics));
    assert(t.descriptors.is_prefix_of(t2.descriptors));
    assert(t.attributes.is_prefix_of(t2.attributes));
}

/// What a characteristic list fold preserves.
proof fn lemma_characteristic_list_ok(t: LayoutV, cs: Seq<SchemaNodeV>, t2: LayoutV)
    requires
        sp_characteristic_list(t, cs) == Ok::<LayoutV, GattError>(t2),
    ensures
        t2.services == t.services,
        t.characteristics.is_prefix_of(t2.characteristics),
        t2.characteristics.len() == t.characteristics.len() + cs.len(),
        t.descriptors.is_prefix_of(t2.descriptors),
        t.attributes.is_prefix_of(t2.attributes),
        t.store_size <= t2.store_size,
        t.store_tiled() ==> t2.store_tiled(),
        t.ranges_wf() ==> t2.ranges_wf(),
    decreases cs.len(),
{
    if cs.len() == 0 {
        assert(t.characteristics.is_prefix_of(t2.characteristics));
        assert(t.descriptors.is_prefix_of(t2.descriptors));
        assert(t.attributes.is_prefix_of(t2.attributes));
    } else {
        let t1 = match sp_characteristic_list(t, cs.drop_last()) {
            Ok(t1) => t1,
            Err(_) => arbitrary(),
        };
        lemma_characteristic_list_ok(t, cs.drop_last(), t1);
        lemma_characteristic_ok(t1, cs.last(), t2);
        assert(t.characteristics.is_prefix_of(t2.characteristics));
        assert(t.descriptors.is_prefix_of(t2.descriptors));
        assert(t.attributes.is_prefix_of(t2.attributes));
    }
}

/// What one service step preserves.
proof fn lemma_service_ok(t: LayoutV, n: SchemaNodeV, t2: LayoutV)
    requires
        sp_service(t, n) == Ok::<LayoutV, GattError>(t2),
    ensures
        t.services.is_prefix_of(t2.services),
        t2.services.len() == t.services.len() + 1,
        t.characteristics.is_prefix_of(t2.characteristics),
        t.descriptors.is_prefix_of(t2.descriptors),
        t.attributes.is_prefix_of(t2.attributes),
        t.store_size <= t2.store_size,
        t.store_tiled() ==> t2.store_tiled(),
        t.ranges_wf() ==> t2.ranges_wf(),
        t2.services[t.services.len() as int].characteristics == (RangeV {
            start: t.characteristics.len() as int,
            end: t2.characteristics.len() as int,
        }),
        t.attributes.len() <= t2.services[t.services.len() as int].attributes.start,
        t2.services[t.services.len() as int].attributes.end == t2.attributes.len(),
{
    let ta = match sp_characteristic_list(t, keep(n.children, Kind::Characteristic)) {
        Ok(ta) => ta,
        Err(_) => arbitrary(),
    };
    lemma_characteristic_list_ok(t, keep(n.children, Kind::Characteristic), ta);
    let tb = match sp_attribute_list(ta, keep(n.children, Kind::Attribute)) {
        Ok(tb) => tb,
        Err(_) => arbitrary(),
    };
    lemma_attribute_list_ok(ta, keep(n.children, Kind::Attribute), tb);
    assert(t.services.is_prefix_of(t2.services));
    assert(t.characteristics.is_prefix_of(t2.characteristics));
    assert(t.descriptors.is_prefix_of(t2.descriptors));
    assert(t.attributes.is_prefix_of(t2.attributes));
}

/// What a service list fold preserves.
proof fn lemma_service_list_ok(t: LayoutV, cs: Seq<SchemaNodeV>, t2: LayoutV)
    requires
        sp_service_list(t, cs) == Ok::<LayoutV, GattError>(t2),
    ensures
        t.services.is_prefix_of(t2.services),
        t.characteristics.is_prefix_of(t2.characteristics),
        t.descriptors.is_prefix_of(t2.descriptors),
        t.attributes.is_prefix_of(t2.attributes),
        t.store_size <= t2.store_size,
        t.store_tiled() ==> t2.store_tiled(),
        t.ranges_wf() ==> t2.ranges_wf(),
    decreases cs.len(),
{
    if cs.len() == 0 {
        assert(t.services.is_prefix_of(t2.services));
        assert(t.characteristics.is_prefix_of(t2.characteristics));
        assert(t.descriptors.is_prefix_of(t2.descriptors));
        assert(t.attributes.is_prefix_of(t2.attributes));
    } else {
        let t1 = match sp_service_list(t, cs.drop_last()) {
            Ok(t1) => t1,
            Err(_) => arbitrary(),
        };
        lemma_service_list_ok(t, cs.drop_last(), t1);
        lemma_service_ok(t1, cs.last(), t2);
        assert(t.services.is_prefix_of(t2.services));
        assert(t.characteristics.is_prefix_of(t2.characteristics));
        assert(t.descriptors.is_prefix_of(t2.descriptors));
        assert(t.attributes.is_prefix_of(t2.attributes));
    }
}

/// A compiled attribute list appends exactly one entry per node, in
/// declaration order, each carrying that node's declared size, accessor name
/// and type reference.
pub proof fn lemma_attribute_list_content(t: LayoutV, cs: Seq<SchemaNodeV>, t2: LayoutV)
    requires
        sp_attribute_list(t, cs) == Ok::<LayoutV, GattError>(t2),
    ensures
        t2.attributes.len() == t.attributes.len() + cs.len(),
        forall|k: int|
            0 <= k < cs.len() ==> {
                &&& (#[trigger] t2.attributes[t.attributes.len() + k]).size == cs[k].size as int
                &&& t2.attributes[t.attributes.len() + k].accessor == spec_accessor(
                    cs[k].name,
                    cs[k].type_ref,
                )
                &&& t2.attributes[t.attributes.len() + k].type_ref == cs[k].type_ref
            },
    decreases cs.len(),
{
    if cs.len() > 0 {
        let t1 = match sp_attribute_list(t, cs.drop_last()) {
            Ok(t1) => t1,
            Err(_) => arbitrary(),
        };
        lemma_attribute_list_content(t, cs.drop_last(), t1);
        lemma_attribute_ok(t1, cs.last(), t2);
        assert forall|k: int| 0 <= k < cs.len() implies {
            &&& (#[trigger] t2.attributes[t.attributes.len() + k]).size == cs[k].size as int
            &&& t2.attributes[t.attributes.len() + k].accessor == spec_accessor(
                cs[k].name,
                cs[k].type_ref,
            )
            &&& t2.attributes[t.attributes.len() + k].type_ref == cs[k].type_ref
        } by {
            if k < cs.len() - 1 {
                assert(t2.attributes[t.attributes.len() + k] == t1.attributes[t.attributes.len()
                    + k]);
                assert(cs.drop_last()[k] == cs[k]);
            } else {
                assert(t2.attributes[t.attributes.len() + k] == attr_entry_of(
                    t1.store_size,
                    cs.last(),
                ));
            }
        }
    }
}

/// A compiled descriptor's attribute range holds exactly its declared
/// children, in declaration order.
pub proof fn lemma_descriptor_children(t: LayoutV, n: SchemaNodeV, t2: LayoutV)
    requires
        sp_descriptor(t, n) == Ok::<LayoutV, GattError>(t2),
    ensures
        t2.descriptors.len() == t.descriptors.len() + 1,
        ({
            let d = t2.descriptors[t.descriptors.len() as int];
            &&& d.attributes.start == t.attributes.len()
            &&& d.attributes.end - d.attributes.start == n.children.len()
            &&& forall|k: int|
                0 <= k < n.children.len() ==> {
                    &&& (#[trigger] t2.attributes[d.attributes.start + k]).size == n.children[
                        k
                    ].size as int
                    &&& t2.attributes[d.attributes.start + k].accessor == spec_accessor(
                        n.children[k].name,
                        n.children[k].type_ref,
                    )
                    &&& t2.attributes[d.attributes.start + k].type_ref == n.children[k].type_ref
                }
        }),
{
    lemma_descriptor_ok(t, n, t2);
    let t1 = match sp_attribute_list(t, n.children) {
        Ok(t1) => t1,
        Err(_) => arbitrary(),
    };
    lemma_attribute_list_content(t, n.children, t1);
}

/// A compiled characteristic's own attribute range holds exactly its directly
/// declared attribute children, in declaration order, and its descriptor
/// range holds one entry per descriptor child.
pub proof fn lemma_characteristic_children(t: LayoutV, n: SchemaNodeV, t2: LayoutV)
    requires
        sp_characteristic(t, n) == Ok::<LayoutV, GattError>(t2),
    ensures
        t2.characteristics.len() == t.characteristics.len() + 1,
        ({
            let c = t2.characteristics[t.characteristics.len() as int];
            &&& c.descriptors.end - c.descriptors.start == keep(n.children, Kind::Descriptor).len()
            &&& c.attributes.end - c.attributes.start == keep(n.children, Kind::Attribute).len()
            &&& forall|k: int|
                0 <= k < keep(n.children, Kind::Attribute).len() ==> {
                    &&& (#[trigger] t2.attributes[c.attributes.start + k]).size == keep(
                        n.children,
                        Kind::Attribute,
                    )[k].size as int
                    &&& t2.attributes[c.attributes.start + k].accessor == spec_accessor(
                        keep(n.children, Kind::Attribute)[k].name,
                        keep(n.children, Kind::Attribute)[k].type_ref,
                    )
                }
        }),
{
    lemma_characteristic_ok(t, n, t2);
    let ta = match sp_descriptor_list(t, keep(n.children, Kind::Descriptor)) {
        Ok(ta) => ta,
        Err(_) => arbitrary(),
    };
    lemma_descriptor_list_ok(t, keep(n.children, Kind::Descriptor), ta);
    let tb = match sp_attribute_list(ta, keep(n.children, Kind::Attribute)) {
        Ok(tb) => tb,
        Err(_) => arbitrary(),
    };
    lemma_attribute_list_content(ta, keep(n.children, Kind::Attribute), tb);
    lemma_attribute_list_ok(ta, keep(n.children, Kind::Attribute), tb);
    assert(t2.attributes == tb.attributes);
    assert(t2.descriptors == ta.descriptors);
    assert(t2.characteristics[t.characteristics.len() as int].attributes == (RangeV {
        start: ta.attributes.len() as int,
        end: tb.attributes.len() as int,
    }));
}

/// A compiled service's own attribute range holds exactly its directly
/// declared attribute children, in declaration order, and its characteristic
/// range holds one entry per characteristic child.
pub proof fn lemma_service_children(t: LayoutV, n: SchemaNodeV, t2: LayoutV)
    requires
        sp_service(t, n) == Ok::<LayoutV, GattError>(t2),
    ensures
        t2.services.len() == t.services.len() + 1,
        ({
            let sv = t2.services[t.services.len() as int];
            &&& sv.characteristics.end - sv.characteristics.start == keep(
                n.children,
                Kind::Characteristic,
            ).len()
            &&& sv.attributes.end - sv.attributes.start == keep(n.children, Kind::Attribute).len()
            &&& forall|k: int|
                0 <= k < keep(n.children, Kind::Attribute).len() ==> {
                    &&& (#[trigger] t2.attributes[sv.attributes.start + k]).size == keep(
                        n.children,
                        Kind::Attribute,
                    )[k].size as int
                    &&& t2.attributes[sv.attributes.start + k].accessor == spec_accessor(
                        keep(n.children, Kind::Attribute)[k].name,
                        keep(n.children, Kind::Attribute)[k].type_ref,
                    )
                }
        }),
{
    lemma_service_ok(t, n, t2);
    let ta = match sp_characteristic_list(t, keep(n.children, Kind::Characteristic)) {
        Ok(ta) => ta,
        Err(_) => arbitrary(),
    };
    lemma_characteristic_list_ok(t, keep(n.children, Kind::Characteristic), ta);
    let tb = match sp_attribute_list(ta, keep(n.children, Kind::Attribute)) {
        Ok(tb) => tb,
        Err(_) => arbitrary(),
    };
    lemma_attribute_list_content(ta, keep(n.children, Kind::Attribute), tb);
    lemma_attribute_list_ok(ta, keep(n.children, Kind::Attribute), tb);
    assert(t2.attributes == tb.attributes);
    assert(t2.characteristics == ta.characteristics);
    assert(t2.services[t.services.len() as int].attributes == (RangeV {
        start: ta.attributes.len() as int,
        end: tb.attributes.len() as int,
    }));
}

/// The services' characteristic ranges are adjacent, in declaration order,
/// and exactly cover the characteristic table.
pub open spec fn services_tile(l: LayoutV) -> bool {
    &&& forall|i: int|
        0 <= i < l.services.len() ==> (#[trigger] l.services[i]).characteristics.start == (if i
            == 0 {
            0int
        } else {
            l.services[i - 1].characteristics.end
        })
    &&& (if l.services.len() == 0 {
        l.characteristics.len() == 0
    } else {
        l.services.last().characteristics.end == l.characteristics.len()
    })
}

/// The characteristics' descriptor ranges are adjacent, in declaration order,
/// and exactly cover the descriptor table.
pub open spec fn characteristics_tile(l: LayoutV) -> bool {
    &&& forall|i: int|
        0 <= i < l.characteristics.len() ==> (#[trigger] l.characteristics[i]).descriptors.start
            == (if i == 0 {
            0int
        } else {
            l.characteristics[i - 1].descriptors.end
        })
    &&& (if l.characteristics.len() == 0 {
        l.descriptors.len() == 0
    } else {
        l.characteristics.last().descriptors.end == l.descriptors.len()
    })
}

proof fn lemma_characteristic_tile_step(t: LayoutV, n: SchemaNodeV, t2: LayoutV)
    requires
        sp_characteristic(t, n) == Ok::<LayoutV, GattError>(t2),
        characteristics_tile(t),
    ensures
        characteristics_tile(t2),
{
    lemma_characteristic_ok(t, n, t2);
    assert forall|i: int| 0 <= i < t.characteristics.len() implies t2.characteristics[i]
        == t.characteristics[i] by {
        assert(t.characteristics[i] == t2.characteristics.subrange(
            0,
            t.characteristics.len() as int,
        )[i]);
    }
    assert forall|i: int| 0 <= i < t2.characteristics.len() implies (
    #[trigger] t2.characteristics[i]).descriptors.start == (if i == 0 {
        0int
    } else {
        t2.characteristics[i - 1].descriptors.end
    }) by {
        if i < t.characteristics.len() {
        } else {
            assert(t2.characteristics[i].descriptors == (RangeV {
                start: t.descriptors.len() as int,
                end: t2.descriptors.len() as int,
            }));
        }
    }
}

proof fn lemma_characteristic_list_tile(t: LayoutV, cs: Seq<SchemaNodeV>, t2: LayoutV)
    requires
        sp_characteristic_list(t, cs) == Ok::<LayoutV, GattError>(t2),
        characteristics_tile(t),
    ensures
        characteristics_tile(t2),
    decreases cs.len(),
{
    if cs.len() > 0 {
        let t1 = match sp_characteristic_list(t, cs.drop_last()) {
            Ok(t1) => t1,
            Err(_) => arbitrary(),
        };
        lemma_characteristic_list_tile(t, cs.drop_last(), t1);
        lemma_characteristic_tile_step(t1, cs.last(), t2);
    }
}

proof fn lemma_service_tile_step(t: LayoutV, n: SchemaNodeV, t2: LayoutV)
    requires
        sp_service(t, n) == Ok::<LayoutV, GattError>(t2),
        services_tile(t),
        characteristics_tile(t),
    ensures
        services_tile(t2),
        characteristics_tile(t2),
{
    lemma_service_ok(t, n, t2);
    assert forall|i: int| 0 <= i < t.services.len() implies t2.services[i] == t.services[i] by {
        assert(t.services[i] == t2.services.subrange(0, t.services.len() as int)[i]);
    }
    assert forall|i: int| 0 <= i < t2.services.len() implies (
    #[trigger] t2.services[i]).characteristics.start == (if i == 0 {
        0int
    } else {
        t2.services[i - 1].characteristics.end
    }) by {
        if i < t.services.len() {
        } else {
            assert(t2.services[i].characteristics == (RangeV {
                start: t.characteristics.len() as int,
                end: t2.characteristics.len() as int,
            }));
        }
    }
    let ta = match sp_characteristic_list(t, keep(n.children, Kind::Characteristic)) {
        Ok(ta) => ta,
        Err(_) => arbitrary(),
    };
    lemma_characteristic_list_tile(t, keep(n.children, Kind::Characteristic), ta);
    lemma_characteristic_list_ok(t, keep(n.children, Kind::Characteristic), ta);
    let tb = match sp_attribute_list(ta, keep(n.children, Kind::Attribute)) {
        Ok(tb) => tb,
        Err(_) => arbitrary(),
    };
    lemma_attribute_list_ok(ta, keep(n.children, Kind::Attribute), tb);
}

proof fn lemma_service_list_tile(t: LayoutV, cs: Seq<SchemaNodeV>, t2: LayoutV)
    requires
        sp_service_list(t, cs) == Ok::<LayoutV, GattError>(t2),
        services_tile(t),
        characteristics_tile(t),
    ensures
        services_tile(t2),
        characteristics_tile(t2),
    decreases cs.len(),
{
    if cs.len() > 0 {
        let t1 = match sp_service_list(t, cs.drop_last()) {
            Ok(t1) => t1,
            Err(_) => arbitrary(),
        };
        lemma_service_list_tile(t, cs.drop_last(), t1);
        lemma_service_tile_step(t1, cs.last(), t2);
    }
}

/// Range partition, one level at a time: in a compiled layout, the services'
/// characteristic ranges tile the characteristic table and the
/// characteristics' descriptor ranges tile the descriptor table — adjacent,
/// disjoint, in declaration order, covering the whole table below.
pub proof fn lemma_range_partition(ns: Seq<SchemaNodeV>, l: LayoutV)
    requires
        sp_compile(ns) == Ok::<LayoutV, GattError>(l),
    ensures
        services_tile(l),
        characteristics_tile(l),
{
    lemma_service_list_tile(empty_layout(), ns, l);
}

/// Within each owner table, a later entry's attribute range starts no
/// earlier than an earlier entry's ends: sibling attribute ranges are
/// disjoint and in declaration order.
pub open spec fn owners_monotone(l: LayoutV) -> bool {
    &&& forall|i: int, j: int|
        0 <= i < j < l.descriptors.len() ==> (#[trigger] l.descriptors[i]).attributes.end <= (
        #[trigger] l.descriptors[j]).attributes.start
    &&& forall|i: int, j: int|
        0 <= i < j < l.characteristics.len() ==> (
        #[trigger] l.characteristics[i]).attributes.end <= (
        #[trigger] l.characteristics[j]).attributes.start
    &&& forall|i: int, j: int|
        0 <= i < j < l.services.len() ==> (#[trigger] l.services[i]).attributes.end <= (
        #[trigger] l.services[j]).attributes.start
}

/// Attribute table index `k` lies in the attribute range of some descriptor,
/// characteristic or service entry.
pub open spec fn owner_covers(l: LayoutV, k: int) -> bool {
    ||| exists|i: int|
        0 <= i < l.descriptors.len() && (#[trigger] l.descriptors[i]).attributes.start <= k
            < l.descriptors[i].attributes.end
    ||| exists|i: int|
        0 <= i < l.characteristics.len() && (#[trigger] l.characteristics[i]).attributes.start
            <= k < l.characteristics[i].attributes.end
    ||| exists|i: int|
        0 <= i < l.services.len() && (#[trigger] l.services[i]).attributes.start <= k
            < l.services[i].attributes.end
}

proof fn lemma_covers_persists(t1: LayoutV, t2: LayoutV, k: int)
    requires
        owner_covers(t1, k),
        t1.descriptors.is_prefix_of(t2.descriptors),
        t1.characteristics.is_prefix_of(t2.characteristics),
        t1.services.is_prefix_of(t2.services),
    ensures
        owner_covers(t2, k),
{
    if exists|i: int|
        0 <= i < t1.descriptors.len() && (#[trigger] t1.descriptors[i]).attributes.start <= k
            < t1.descriptors[i].attributes.end {
        let i = choose|i: int|
            0 <= i < t1.descriptors.len() && (#[trigger] t1.descriptors[i]).attributes.start <= k
                < t1.descriptors[i].attributes.end;
        assert(t1.descriptors[i] == t2.descriptors.subrange(0, t1.descriptors.len() as int)[i]);
        assert((#[trigger] t2.descriptors[i]).attributes.start <= k
            < t2.descriptors[i].attributes.end);
    } else if exists|i: int|
        0 <= i < t1.characteristics.len() && (#[trigger] t1.characteristics[i]).attributes.start
            <= k < t1.characteristics[i].attributes.end {
        let i = choose|i: int|
            0 <= i < t1.characteristics.len() && (
            #[trigger] t1.characteristics[i]).attributes.start <= k
                < t1.characteristics[i].attributes.end;
        assert(t1.characteristics[i] == t2.characteristics.subrange(
            0,
            t1.characteristics.len() as int,
        )[i]);
        assert((#[trigger] t2.characteristics[i]).attributes.start <= k
            < t2.characteristics[i].attributes.end);
    } else {
        let i = choose|i: int|
            0 <= i < t1.services.len() && (#[trigger] t1.services[i]).attributes.start <= k
                < t1.services[i].attributes.end;
        assert(t1.services[i] == t2.services.subrange(0, t1.services.len() as int)[i]);
        assert((#[trigger] t2.services[i]).attributes.start <= k
            < t2.services[i].attributes.end);
    }
}

proof fn lemma_descriptor_cover(t: LayoutV, n: SchemaNodeV, t2: LayoutV)
    requires
        sp_descriptor(t, n) == Ok::<LayoutV, GattError>(t2),
    ensures
        forall|k: int|
            t.attributes.len() <= k < t2.attributes.len() ==> #[trigger] owner_covers(t2, k),
{
    lemma_descriptor_ok(t, n, t2);
    assert forall|k: int|
        t.attributes.len() <= k < t2.attributes.len() implies #[trigger] owner_covers(t2, k) by {
        let i = t.descriptors.len() as int;
        assert((#[trigger] t2.descriptors[i]).attributes.start <= k
            < t2.descriptors[i].attributes.end);
    }
}

proof fn lemma_descriptor_list_cover(t: LayoutV, cs: Seq<SchemaNodeV>, t2: LayoutV)
    requires
        sp_descriptor_list(t, cs) == Ok::<LayoutV, GattError>(t2),
    ensures
        forall|k: int|
            t.attributes.len() <= k < t2.attributes.len() ==> #[trigger] owner_covers(t2, k),
    decreases cs.len(),
{
    if cs.len() > 0 {
        let t1 = match sp_descriptor_list(t, cs.drop_last()) {
            Ok(t1) => t1,
            Err(_) => arbitrary(),
        };
        lemma_descriptor_list_cover(t, cs.drop_last(), t1);
        lemma_descriptor_list_ok(t, cs.drop_last(), t1);
        lemma_descriptor_cover(t1, cs.last(), t2);
        lemma_descriptor_ok(t1, cs.last(), t2);
        assert forall|k: int|
            t.attributes.len() <= k < t2.attributes.len() implies #[trigger] owner_covers(
            t2,
            k,
        ) by {
            if k < t1.attributes.len() {
                lemma_covers_persists(t1, t2, k);
            }
        }
    }
}

proof fn lemma_characteristic_cover(t: LayoutV, n: SchemaNodeV, t2: LayoutV)
    requires
        sp_characteristic(t, n) == Ok::<LayoutV, GattError>(t2),
    ensures
        forall|k: int|
            t.attributes.len() <= k < t2.attributes.len() ==> #[trigger] owner_covers(t2, k),
{
    lemma_characteristic_ok(t, n, t2);
    let ta = match sp_descriptor_list(t, keep(n.children, Kind::Descriptor)) {
        Ok(ta) => ta,
        Err(_) => arbitrary(),
    };
    lemma_descriptor_list_cover(t, keep(n.children, Kind::Descriptor), ta);
    lemma_descriptor_list_ok(t, keep(n.children, Kind::Descriptor), ta);
    let tb = match sp_attribute_list(ta, keep(n.children, Kind::Attribute)) {
        Ok(tb) => tb,
        Err(_) => arbitrary(),
    };
    lemma_attribute_list_ok(ta, keep(n.children, Kind::Attribute), tb);
    assert(t2.characteristics[t.characteristics.len() as int].attributes == (RangeV {
        start: ta.attributes.len() as int,
        end: tb.attributes.len() as int,
    }));
    assert forall|k: int|
        t.attributes.len() <= k < t2.attributes.len() implies #[trigger] owner_covers(t2, k) by {
        if k < ta.attributes.len() {
            lemma_covers_persists(ta, t2, k);
        } else {
            let i = t.characteristics.len() as int;
            assert((#[trigger] t2.characteristics[i]).attributes.start <= k
                < t2.characteristics[i].attributes.end);
        }
    }
}

proof fn lemma_characteristic_list_cover(t: LayoutV, cs: Seq<SchemaNodeV>, t2: LayoutV)
    requires
        sp_characteristic_list(t, cs) == Ok::<LayoutV, GattError>(t2),
    ensures
        forall|k: int|
            t.attributes.len() <= k < t2.attributes.len() ==> #[trigger] owner_covers(t2, k),
    decreases cs.len(),
{
    if cs.len() > 0 {
        let t1 = match sp_characteristic_list(t, cs.drop_last()) {
            Ok(t1) => t1,
            Err(_) => arbitrary(),
        };
        lemma_characteristic_list_cover(t, cs.drop_last(), t1);
        lemma_characteristic_list_ok(t, cs.drop_last(), t1);
        lemma_characteristic_cover(t1, cs.last(), t2);
        lemma_characteristic_ok(t1, cs.last(), t2);
        assert forall|k: int|
            t.attributes.len() <= k < t2.attributes.len() implies #[trigger] owner_covers(
            t2,
            k,
        ) by {
            if k < t1.attributes.len() {
                lemma_covers_persists(t1, t2, k);
            }
        }
    }
}

proof fn lemma_service_cover(t: LayoutV, n: SchemaNodeV, t2: LayoutV)
    requires
        sp_service(t, n) == Ok::<LayoutV, GattError>(t2),
    ensures
        forall|k: int|
            t.attributes.len() <= k < t2.attributes.len() ==> #[trigger] owner_covers(t2, k),
{
    lemma_service_ok(t, n, t2);
    let ta = match sp_characteristic_list(t, keep(n.children, Kind::Characteristic)) {
        Ok(ta) => ta,
        Err(_) => arbitrary(),
    };
    lemma_characteristic_list_cover(t, keep(n.children, Kind::Characteristic), ta);
    lemma_characteristic_list_ok(t, keep(n.children, Kind::Characteristic), ta);
    let tb = match sp_attribute_list(ta, keep(n.children, Kind::Attribute)) {
        Ok(tb) => tb,
        Err(_) => arbitrary(),
    };
    lemma_attribute_list_ok(ta, keep(n.children, Kind::Attribute), tb);
    assert(t2.services[t.services.len() as int].attributes == (RangeV {
        start: ta.attributes.len() as int,
        end: tb.attributes.len() as int,
    }));
    assert forall|k: int|
        t.attributes.len() <= k < t2.attributes.len() implies #[trigger] owner_covers(t2, k) by {
        if k < ta.attributes.len() {
            lemma_covers_persists(ta, t2, k);
        } else {
            let i = t.services.len() as int;
            assert((#[trigger] t2.services[i]).attributes.start <= k
                < t2.services[i].attributes.end);
        }
    }
}

proof fn lemma_service_list_cover(t: LayoutV, cs: Seq<SchemaNodeV>, t2: LayoutV)
    requires
        sp_service_list(t, cs) == Ok::<LayoutV, GattError>(t2),
    ensures
        forall|k: int|
            t.attributes.len() <= k < t2.attributes.len() ==> #[trigger] owner_covers(t2, k),
    decreases cs.len(),
{
    if cs.len() > 0 {
        let t1 = match sp_service_list(t, cs.drop_last()) {
            Ok(t1) => t1,
            Err(_) => arbitrary(),
        };
        lemma_service_list_cover(t, cs.drop_last(), t1);
        lemma_service_list_ok(t, cs.drop_last(), t1);
        lemma_service_cover(t1, cs.last(), t2);
        lemma_service_ok(t1, cs.last(), t2);
        assert forall|k: int|
            t.attributes.len() <= k < t2.attributes.len() implies #[trigger] owner_covers(
            t2,
            k,
        ) by {
            if k < t1.attributes.len() {
                lemma_covers_persists(t1, t2, k);
            }
        }
    }
}

proof fn lemma_descriptor_monotone(t: LayoutV, n: SchemaNodeV, t2: LayoutV)
    requires
        sp_descriptor(t, n) == Ok::<LayoutV, GattError>(t2),
        owners_monotone(t),
        t.ranges_wf(),
    ensures
        owners_monotone(t2),
{
    lemma_descriptor_ok(t, n, t2);
    assert forall|i: int| 0 <= i < t.descriptors.len() implies t2.descriptors[i]
        == t.descriptors[i] by {
        assert(t.descriptors[i] == t2.descriptors.subrange(0, t.descriptors.len() as int)[i]);
    }
    assert forall|i: int, j: int| 0 <= i < j < t2.descriptors.len() implies (
    #[trigger] t2.descriptors[i]).attributes.end <= (
    #[trigger] t2.descriptors[j]).attributes.start by {
        if j < t.descriptors.len() {
        } else {
            assert(t.descriptors[i].attributes.end <= t.attributes.len());
        }
    }
}

proof fn lemma_descriptor_list_monotone(t: LayoutV, cs: Seq<SchemaNodeV>, t2: LayoutV)
    requires
        sp_descriptor_list(t, cs) == Ok::<LayoutV, GattError>(t2),
        owners_monotone(t),
        t.ranges_wf(),
    ensures
        owners_monotone(t2),
    decreases cs.len(),
{
    if cs.len() > 0 {
        let t1 = match sp_descriptor_list(t, cs.drop_last()) {
            Ok(t1) => t1,
            Err(_) => arbitrary(),
        };
        lemma_descriptor_list_monotone(t, cs.drop_last(), t1);
        lemma_descriptor_list_ok(t, cs.drop_last(), t1);
        lemma_descriptor_monotone(t1, cs.last(), t2);
    }
}

proof fn lemma_characteristic_monotone(t: LayoutV, n: SchemaNodeV, t2: LayoutV)
    requires
        sp_characteristic(t, n) == Ok::<LayoutV, GattError>(t2),
        owners_monotone(t),
        t.ranges_wf(),
    ensures
        owners_monotone(t2),
{
    lemma_characteristic_ok(t, n, t2);
    let ta = match sp_descriptor_list(t, keep(n.children, Kind::Descriptor)) {
        Ok(ta) => ta,
        Err(_) => arbitrary(),
    };
    lemma_descriptor_list_monotone(t, keep(n.children, Kind::Descriptor), ta);
    lemma_descriptor_list_ok(t, keep(n.children, Kind::Descriptor), ta);
    let tb = match sp_attribute_list(ta, keep(n.children, Kind::Attribute)) {
        Ok(tb) => tb,
        Err(_) => arbitrary(),
    };
    lemma_attribute_list_ok(ta, keep(n.children, Kind::Attribute), tb);
    assert forall|i: int| 0 <= i < ta.descriptors.len() implies t2.descriptors[i]
        == ta.descriptors[i] by {
        assert(ta.descriptors[i] == t2.descriptors.subrange(0, ta.descriptors.len() as int)[i]);
    }
    assert forall|i: int| 0 <= i < t.characteristics.len() implies t2.characteristics[i]
        == t.characteristics[i] by {
        assert(t.characteristics[i] == t2.characteristics.subrange(
            0,
            t.characteristics.len() as int,
        )[i]);
    }
    assert forall|i: int, j: int| 0 <= i < j < t2.characteristics.len() implies (
    #[trigger] t2.characteristics[i]).attributes.end <= (
    #[trigger] t2.characteristics[j]).attributes.start by {
        if j < t.characteristics.len() {
        } else {
            assert(t.characteristics[i].attributes.end <= t.attributes.len());
        }
    }
}

proof fn lemma_characteristic_list_monotone(t: LayoutV, cs: Seq<SchemaNodeV>, t2: LayoutV)
    requires
        sp_characteristic_list(t, cs) == Ok::<LayoutV, GattError>(t2),
        owners_monotone(t),
        t.ranges_wf(),
    ensures
        owners_monotone(t2),
    decreases cs.len(),
{
    if cs.len() > 0 {
        let t1 = match sp_characteristic_list(t, cs.drop_last()) {
            Ok(t1) => t1,
            Err(_) => arbitrary(),
        };
        lemma_characteristic_list_monotone(t, cs.drop_last(), t1);
        lemma_characteristic_list_ok(t, cs.drop_last(), t1);
        lemma_characteristic_monotone(t1, cs.last(), t2);
    }
}

proof fn lemma_service_monotone(t: LayoutV, n: SchemaNodeV, t2: LayoutV)
    requires
        sp_service(t, n) == Ok::<LayoutV, GattError>(t2),
        owners_monotone(t),
        t.ranges_wf(),
    ensures
        owners_monotone(t2),
{
    lemma_service_ok(t, n, t2);
    let ta = match sp_characteristic_list(t, keep(n.children, Kind::Characteristic)) {
        Ok(ta) => ta,
        Err(_) => arbitrary(),
    };
    lemma_characteristic_list_monotone(t, keep(n.children, Kind::Characteristic), ta);
    lemma_characteristic_list_ok(t, keep(n.children, Kind::Characteristic), ta);
    let tb = match sp_attribute_list(ta, keep(n.children, Kind::Attribute)) {
        Ok(tb) => tb,
        Err(_) => arbitrary(),
    };
    lemma_attribute_list_ok(ta, keep(n.children, Kind::Attribute), tb);
    assert forall|i: int| 0 <= i < ta.descriptors.len() implies t2.descriptors[i]
        == ta.descriptors[i] by {
        assert(ta.descriptors[i] == t2.descriptors.subrange(0, ta.descriptors.len() as int)[i]);
    }
    assert forall|i: int| 0 <= i < ta.characteristics.len() implies t2.characteristics[i]
        == ta.characteristics[i] by {
        assert(ta.characteristics[i] == t2.characteristics.subrange(
            0,
            ta.characteristics.len() as int,
        )[i]);
    }
    assert forall|i: int| 0 <= i < t.services.len() implies t2.services[i] == t.services[i] by {
        assert(t.services[i] == t2.services.subrange(0, t.services.len() as int)[i]);
    }
    assert forall|i: int, j: int| 0 <= i < j < t2.services.len() implies (
    #[trigger] t2.services[i]).attributes.end <= (#[trigger] t2.services[j]).attributes.start by {
        if j < t.services.len() {
        } else {
            assert(t.services[i].attributes.end <= t.attributes.len());
        }
    }
}

proof fn lemma_service_list_monotone(t: LayoutV, cs: Seq<SchemaNodeV>, t2: LayoutV)
    requires
        sp_service_list(t, cs) == Ok::<LayoutV, GattError>(t2),
        owners_monotone(t),
        t.ranges_wf(),
    ensures
        owners_monotone(t2),
    decreases cs.len(),
{
    if cs.len() > 0 {
        let t1 = match sp_service_list(t, cs.drop_last()) {
            Ok(t1) => t1,
            Err(_) => arbitrary(),
        };
        lemma_service_list_monotone(t, cs.drop_last(), t1);
        lemma_service_list_ok(t, cs.drop_last(), t1);
        lemma_service_monotone(t1, cs.last(), t2);
    }
}

/// Attribute ownership partition: in a compiled layout, sibling attribute
/// ranges within each owner table are disjoint and in declaration order, and
/// the owner ranges together cover the whole attribute table.
pub proof fn lemma_attribute_partition(ns: Seq<SchemaNodeV>, l: LayoutV)
    requires
        sp_compile(ns) == Ok::<LayoutV, GattError>(l),
    ensures
        owners_monotone(l),
        forall|k: int| 0 <= k < l.attributes.len() ==> #[trigger] owner_covers(l, k),
{
    assert(empty_layout().ranges_wf());
    lemma_service_list_monotone(empty_layout(), ns, l);
    lemma_service_list_cover(empty_layout(), ns, l);
}

proof fn lemma_store_cover(l: LayoutV, b: int, k: int)
    requires
        l.store_tiled(),
        0 <= k <= l.attributes.len(),
        0 <= b < sum_sizes(l.attributes, k),
    ensures
        exists|i: int|
            0 <= i < k && (#[trigger] l.attributes[i]).offset <= b < l.attributes[i].offset
                + l.attributes[i].size,
    decreases k,
{
    if k > 0 {
        if b >= sum_sizes(l.attributes, k - 1) {
            assert(l.attributes[k - 1].offset <= b < l.attributes[k - 1].offset + l.attributes[k
                - 1].size);
        } else {
            lemma_store_cover(l, b, k - 1);
        }
    }
}

/// Byte-store exactness: the store size equals the sum of every declared
/// size, no two attributes' intervals overlap, and the intervals cover the
/// store with no gaps.
pub proof fn lemma_byte_store_exact(l: LayoutV)
    requires
        l.store_tiled(),
    ensures
        l.store_size == sum_sizes(l.attributes, l.attributes.len() as int),
        forall|i: int, j: int|
            0 <= i < l.attributes.len() && 0 <= j < l.attributes.len() && i != j ==> ((
            #[trigger] l.attributes[i]).offset + l.attributes[i].size <= (
            #[trigger] l.attributes[j]).offset || l.attributes[j].offset + l.attributes[j].size
                <= l.attributes[i].offset),
{
    assert forall|i: int, j: int|
        0 <= i < l.attributes.len() && 0 <= j < l.attributes.len() && i != j implies ((
    #[trigger] l.attributes[i]).offset + l.attributes[i].size <= (
    #[trigger] l.attributes[j]).offset || l.attributes[j].offset + l.attributes[j].size
        <= l.attributes[i].offset) by {
        lemma_attr_disjoint(l, i, j);
    }
}

/// No gaps: every byte of the store lies inside some attribute's interval.
pub proof fn lemma_store_cover_at(l: LayoutV, b: int)
    requires
        l.store_tiled(),
        0 <= b < l.store_size,
    ensures
        exists|i: int|
            0 <= i < l.attributes.len() && (#[trigger] l.attributes[i]).offset <= b
                < l.attributes[i].offset + l.attributes[i].size,
{
    lemma_store_cover(l, b, l.attributes.len() as int);
}

/// A layout the compiler accepts is well-formed.
pub proof fn lemma_compile_wf(ns: Seq<SchemaNodeV>, l: LayoutV)
    requires
        sp_compile(ns) == Ok::<LayoutV, GattError>(l),
    ensures
        l.wf(),
{
    assert(empty_layout().ranges_wf());
    assert(empty_layout().store_tiled());
    lemma_service_list_ok(empty_layout(), ns, l);
}

/// A failing fold keeps failing, with the same error, however the list is
/// extended.
proof fn lemma_attribute_list_err(t: LayoutV, s1: Seq<SchemaNodeV>, s2: Seq<SchemaNodeV>)
    requires
        sp_attribute_list(t, s1) is Err,
    ensures
        sp_attribute_list(t, s1 + s2) == sp_attribute_list(t, s1),
    decreases s2.len(),
{
    if s2.len() == 0 {
        assert(s1 + s2 =~= s1);
    } else {
        lemma_attribute_list_err(t, s1, s2.drop_last());
        assert((s1 + s2).drop_last() =~= s1 + s2.drop_last());
        assert((s1 + s2).len() > 0);
    }
}

/// A failing fold keeps failing, with the same error, however the list is
/// extended.
proof fn lemma_descriptor_list_err(t: LayoutV, s1: Seq<SchemaNodeV>, s2: Seq<SchemaNodeV>)
    requires
        sp_descriptor_list(t, s1) is Err,
    ensures
        sp_descriptor_list(t, s1 + s2) == sp_descriptor_list(t, s1),
    decreases s2.len(),
{
    if s2.len() == 0 {
        assert(s1 + s2 =~= s1);
    } else {
        lemma_descriptor_list_err(t, s1, s2.drop_last());
        assert((s1 + s2).drop_last() =~= s1 + s2.drop_last());
        assert((s1 + s2).len() > 0);
    }
}

/// A failing fold keeps failing, with the same error, however the list is
/// extended.
proof fn lemma_characteristic_list_err(t: LayoutV, s1: Seq<SchemaNodeV>, s2: Seq<SchemaNodeV>)
    requires
        sp_characteristic_list(t, s1) is Err,
    ensures
        sp_characteristic_list(t, s1 + s2) == sp_characteristic_list(t, s1),
    decreases s2.len(),
{
    if s2.len() == 0 {
        assert(s1 + s2 =~= s1);
    } else {
        lemma_characteristic_list_err(t, s1, s2.drop_last());
        assert((s1 + s2).drop_last() =~= s1 + s2.drop_last());
        assert((s1 + s2).len() > 0);
    }
}

/// A failing fold keeps failing, with the same error, however the list is
/// extended.
proof fn lemma_service_list_err(t: LayoutV, s1: Seq<SchemaNodeV>, s2: Seq<SchemaNodeV>)
    requires
        sp_service_list(t, s1) is Err,
    ensures
        sp_service_list(t, s1 + s2) == sp_service_list(t, s1),
    decreases s2.len(),
{
    if s2.len() == 0 {
        assert(s1 + s2 =~= s1);
    } else {
        lemma_service_list_err(t, s1, s2.drop_last());
        assert((s1 + s2).drop_last() =~= s1 + s2.drop_last());
        assert((s1 + s2).len() > 0);
    }
}

/// Keeping one kind distributes over concatenation.
proof fn lemma_keep_concat(s1: Seq<SchemaNodeV>, s2: Seq<SchemaNodeV>, k: Kind)
    ensures
        keep(s1 + s2, k) == keep(s1, k) + keep(s2, k),
    decreases s2.len(),
{
    if s2.len() == 0 {
        assert(s1 + s2 =~= s1);
        assert(keep(s2, k) =~= Seq::<SchemaNodeV>::empty());
        assert(keep(s1, k) + keep(s2, k) =~= keep(s1, k));
    } else {
        lemma_keep_concat(s1, s2.drop_last(), k);
        assert((s1 + s2).drop_last() =~= s1 + s2.drop_last());
        assert((s1 + s2).len() > 0);
        assert((s1 + s2).last() == s2.last());
        if s2.last().kind == k {
            assert(keep(s1, k) + keep(s2.drop_last(), k).push(s2.last()) =~= (keep(s1, k) + keep(
                s2.drop_last(),
                k,
            )).push(s2.last()));
        }
    }
}

/// Compiles one attribute node into the growing tables.
fn compile_attribute(l: &mut Layout, n: &SchemaNode) -> (r: Result<(), GattError>)
    ensures
        (match r {
            Ok(_) => sp_attribute(old(l)@, n.deep()) == Ok::<LayoutV, GattError>(final(l)@),
            Err(e) => sp_attribute(old(l)@, n.deep()) == Err::<LayoutV, GattError>(e),
        }),
{
    proof {
        assert(n.deep().children.len() == n.children@.len());
    }
    if n.children.len() > 0 {
        return Err(GattError::InvalidNesting);
    }
    let total: u128 = l.store_size as u128 + n.size as u128;
    if total > u32::MAX as u128 {
        return Err(GattError::InvalidSize);
    }
    let accessor = accessor_of(&n.name, &n.type_ref);
    let type_ref = copy_bytes(&n.type_ref);
    let offset = l.store_size;
    let entry = AttributeEntry { offset, size: n.size as u32, accessor, type_ref };
    l.attributes.push(entry);
    l.store_size = l.store_size + (n.size as u32);
    proof {
        let t0 = old(l)@;
        let nd = n.deep();
        assert(entry@ =~= attr_entry_of(t0.store_size, nd));
        assert(l@.attributes =~= t0.attributes.push(attr_entry_of(t0.store_size, nd)));
        assert(l@ =~= (LayoutV {
            attributes: t0.attributes.push(attr_entry_of(t0.store_size, nd)),
            store_size: t0.store_size + nd.size,
            ..t0
        }));
    }
    Ok(())
}

/// Compiles one descriptor node into the growing tables.
#[verifier::loop_isolation(false)]
fn compile_descriptor(l: &mut Layout, n: &SchemaNode) -> (r: Result<(), GattError>)
    ensures
        (match r {
            Ok(_) => sp_descriptor(old(l)@, n.deep()) == Ok::<LayoutV, GattError>(final(l)@),
            Err(e) => sp_descriptor(old(l)@, n.deep()) == Err::<LayoutV, GattError>(e),
        }),
{
    let ghost t0 = old(l)@;
    let ghost nd = n.deep();
    let mut i: usize = 0;
    while i < n.children.len()
        invariant
            i <= n.children.len(),
            forall|j: int| 0 <= j < i ==> nd.children[j].kind == Kind::Attribute,
            nd == n.deep(),
            l@ == t0,
        decreases n.children.len() - i,
    {
        proof {
            assert(nd.children[i as int] == n.children@[i as int].deep());
        }
        if !(n.children[i].kind == Kind::Attribute) {
            proof {
                assert(!kinds_ok(nd.children, Kind::Attribute, Kind::Attribute));
            }
            return Err(GattError::InvalidNesting);
        }
        i = i + 1;
    }
    proof {
        assert(kinds_ok(nd.children, Kind::Attribute, Kind::Attribute));
    }
    let a_start = l.attributes.len();
    let mut j: usize = 0;
    while j < n.children.len()
        invariant
            j <= n.children.len(),
            nd == n.deep(),
            nd.children.len() == n.children@.len(),
            sp_attribute_list(t0, nd.children.subrange(0, j as int)) == Ok::<LayoutV, GattError>(
                l@,
            ),
            l@.attributes.len() >= t0.attributes.len(),
            a_start == t0.attributes.len(),
        decreases n.children.len() - j,
    {
        proof {
            assert(nd.children[j as int] == n.children@[j as int].deep());
            assert(nd.children.subrange(0, (j + 1) as int).drop_last() =~= nd.children.subrange(
                0,
                j as int,
            ));
            assert(nd.children.subrange(0, (j + 1) as int).last() == nd.children[j as int]);
        }
        let ghost t_pre = l@;
        let res = compile_attribute(l, &n.children[j]);
        proof {
            assert(sp_attribute_list(t0, nd.children.subrange(0, (j + 1) as int)) == sp_attribute(
                t_pre,
                nd.children[j as int],
            ));
        }
        match res {
            Ok(_) => {},
            Err(e) => {
                proof {
                    assert(sp_attribute_list(t0, nd.children.subrange(0, (j + 1) as int))
                        == Err::<LayoutV, GattError>(e));
                    lemma_attribute_list_err(
                        t0,
                        nd.children.subrange(0, (j + 1) as int),
                        nd.children.subrange((j + 1) as int, nd.children.len() as int),
                    );
                    assert(nd.children.subrange(0, (j + 1) as int) + nd.children.subrange(
                        (j + 1) as int,
                        nd.children.len() as int,
                    ) =~= nd.children);
                }
                return Err(e);
            },
        }
        j = j + 1;
    }
    proof {
        assert(nd.children.subrange(0, nd.children.len() as int) =~= nd.children);
    }
    let accessor = accessor_of(&n.name, &n.type_ref);
    let type_ref = copy_bytes(&n.type_ref);
    let a_end = l.attributes.len();
    let ghost t1 = l@;
    let entry = DescriptorEntry {
        attributes: IndexRange { start: a_start, end: a_end },
        accessor,
        type_ref,
    };
    l.descriptors.push(entry);
    proof {
        assert(entry@ =~= (DescriptorEntryV {
            attributes: RangeV {
                start: t0.attributes.len() as int,
                end: t1.attributes.len() as int,
            },
            accessor: spec_accessor(nd.name, nd.type_ref),
            type_ref: nd.type_ref,
        }));
        assert(l@.descriptors =~= t1.descriptors.push(entry@));
        assert(l@ =~= (LayoutV { descriptors: t1.descriptors.push(entry@), ..t1 }));
    }
    Ok(())
}

/// Compiles one characteristic node into the growing tables.
#[verifier::loop_isolation(false)]
#[verifier::rlimit(50)]
fn compile_characteristic(l: &mut Layout, n: &SchemaNode) -> (r: Result<(), GattError>)
    ensures
        (match r {
            Ok(_) => sp_characteristic(old(l)@, n.deep()) == Ok::<LayoutV, GattError>(final(l)@),
            Err(e) => sp_characteristic(old(l)@, n.deep()) == Err::<LayoutV, GattError>(e),
        }),
{
    let ghost t0 = old(l)@;
    let ghost nd = n.deep();
    let mut i: usize = 0;
    while i < n.children.len()
        invariant
            i <= n.children.len(),
            forall|j: int|
                0 <= j < i ==> (nd.children[j].kind == Kind::Descriptor || nd.children[j].kind
                    == Kind::Attribute),
            nd == n.deep(),
            l@ == t0,
        decreases n.children.len() - i,
    {
        proof {
            assert(nd.children[i as int] == n.children@[i as int].deep());
        }
        if !(n.children[i].kind == Kind::Descriptor) && !(n.children[i].kind == Kind::Attribute) {
            proof {
                assert(!kinds_ok(nd.children, Kind::Descriptor, Kind::Attribute));
            }
            return Err(GattError::InvalidNesting);
        }
        i = i + 1;
    }
    proof {
        assert(kinds_ok(nd.children, Kind::Descriptor, Kind::Attribute));
    }
    let d_start = l.descriptors.len();
    let mut j: usize = 0;
    while j < n.children.len()
        invariant
            j <= n.children.len(),
            nd == n.deep(),
            nd.children.len() == n.children@.len(),
            sp_descriptor_list(t0, keep(nd.children.subrange(0, j as int), Kind::Descriptor))
                == Ok::<LayoutV, GattError>(l@),
            d_start == t0.descriptors.len(),
        decreases n.children.len() - j,
    {
        proof {
            assert(nd.children[j as int] == n.children@[j as int].deep());
            assert(nd.children.subrange(0, (j + 1) as int).drop_last() =~= nd.children.subrange(
                0,
                j as int,
            ));
            assert(nd.children.subrange(0, (j + 1) as int).last() == nd.children[j as int]);
        }
        if n.children[j].kind == Kind::Descriptor {
            let ghost t_pre = l@;
            let res = compile_descriptor(l, &n.children[j]);
            proof {
                assert(keep(nd.children.subrange(0, (j + 1) as int), Kind::Descriptor) == keep(
                    nd.children.subrange(0, j as int),
                    Kind::Descriptor,
                ).push(nd.children[j as int]));
                assert(keep(nd.children.subrange(0, (j + 1) as int), Kind::Descriptor).drop_last()
                    =~= keep(nd.children.subrange(0, j as int), Kind::Descriptor));
                assert(keep(nd.children.subrange(0, (j + 1) as int), Kind::Descriptor).last()
                    == nd.children[j as int]);
                assert(sp_descriptor_list(
                    t0,
                    keep(nd.children.subrange(0, (j + 1) as int), Kind::Descriptor),
                ) == sp_descriptor(t_pre, nd.children[j as int]));
            }
            match res {
                Ok(_) => {},
                Err(e) => {
                    proof {
                        let pre = nd.children.subrange(0, (j + 1) as int);
                        let rest = nd.children.subrange((j + 1) as int, nd.children.len() as int);
                        assert(sp_descriptor_list(t0, keep(pre, Kind::Descriptor))
                            == Err::<LayoutV, GattError>(e));
                        lemma_keep_concat(pre, rest, Kind::Descriptor);
                        assert(pre + rest =~= nd.children);
                        lemma_descriptor_list_err(
                            t0,
                            keep(pre, Kind::Descriptor),
                            keep(rest, Kind::Descriptor),
                        );
                    }
                    return Err(e);
                },
            }
        }
        j = j + 1;
    }
    proof {
        assert(nd.children.subrange(0, nd.children.len() as int) =~= nd.children);
    }
    let ghost t1 = l@;
    let a_start = l.attributes.len();
    let mut m: usize = 0;
    while m < n.children.len()
        invariant
            m <= n.children.len(),
            nd == n.deep(),
            nd.children.len() == n.children@.len(),
            sp_attribute_list(t1, keep(nd.children.subrange(0, m as int), Kind::Attribute))
                == Ok::<LayoutV, GattError>(l@),
            sp_descriptor_list(t0, keep(nd.children, Kind::Descriptor)) == Ok::<
                LayoutV,
                GattError,
            >(t1),
            a_start == t1.attributes.len(),
            d_start == t0.descriptors.len(),
        decreases n.children.len() - m,
    {
        proof {
            assert(nd.children[m as int] == n.children@[m as int].deep());
            assert(nd.children.subrange(0, (m + 1) as int).drop_last() =~= nd.children.subrange(
                0,
                m as int,
            ));
            assert(nd.children.subrange(0, (m + 1) as int).last() == nd.children[m as int]);
        }
        if n.children[m].kind == Kind::Attribute {
            let ghost t_pre = l@;
            let res = compile_attribute(l, &n.children[m]);
            proof {
                assert(keep(nd.children.subrange(0, (m + 1) as int), Kind::Attribute) == keep(
                    nd.children.subrange(0, m as int),
                    Kind::Attribute,
                ).push(nd.children[m as int]));
                assert(keep(nd.children.subrange(0, (m + 1) as int), Kind::Attribute).drop_last()
                    =~= keep(nd.children.subrange(0, m as int), Kind::Attribute));
                assert(keep(nd.children.subrange(0, (m + 1) as int), Kind::Attribute).last()
                    == nd.children[m as int]);
                assert(sp_attribute_list(
                    t1,
                    keep(nd.children.subrange(0, (m + 1) as int), Kind::Attribute),
                ) == sp_attribute(t_pre, nd.children[m as int]));
            }
            match res {
                Ok(_) => {},
                Err(e) => {
                    proof {
                        let pre = nd.children.subrange(0, (m + 1) as int);
                        let rest = nd.children.subrange((m + 1) as int, nd.children.len() as int);
                        assert(sp_attribute_list(t1, keep(pre, Kind::Attribute))
                            == Err::<LayoutV, GattError>(e));
                        lemma_keep_concat(pre, rest, Kind::Attribute);
                        assert(pre + rest =~= nd.children);
                        lemma_attribute_list_err(
                            t1,
                            keep(pre, Kind::Attribute),
                            keep(rest, Kind::Attribute),
                        );
                    }
                    return Err(e);
                },
            }
        }
        m = m + 1;
    }
    proof {
        assert(nd.children.subrange(0, nd.children.len() as int) =~= nd.children);
    }
    let accessor = accessor_of(&n.name, &n.type_ref);
    let type_ref = copy_bytes(&n.type_ref);
    let a_end = l.attributes.len();
    let d_end = l.descriptors.len();
    let ghost t2 = l@;
    let entry = CharacteristicEntry {
        attributes: IndexRange { start: a_start, end: a_end },
        descriptors: IndexRange { start: d_start, end: d_end },
        accessor,
        type_ref,
    };
    l.characteristics.push(entry);
    proof {
        assert(entry@ =~= (CharacteristicEntryV {
            attributes: RangeV {
                start: t1.attributes.len() as int,
                end: t2.attributes.len() as int,
            },
            descriptors: RangeV {
                start: t0.descriptors.len() as int,
                end: t2.descriptors.len() as int,
            },
            accessor: spec_accessor(nd.name, nd.type_ref),
            type_ref: nd.type_ref,
        }));
        assert(l@.characteristics =~= t2.characteristics.push(entry@));
        assert(l@ =~= (LayoutV { characteristics: t2.characteristics.push(entry@), ..t2 }));
    }
    Ok(())
}

/// Compiles one service node into the growing tables.
#[verifier::loop_isolation(false)]
#[verifier::rlimit(50)]
fn compile_service(l: &mut Layout, n: &SchemaNode) -> (r: Result<(), GattError>)
    ensures
        (match r {
            Ok(_) => sp_service(old(l)@, n.deep()) == Ok::<LayoutV, GattError>(final(l)@),
            Err(e) => sp_service(old(l)@, n.deep()) == Err::<LayoutV, GattError>(e),
        }),
{
    let ghost t0 = old(l)@;
    let ghost nd = n.deep();
    let mut i: usize = 0;
    while i < n.children.len()
        invariant
            i <= n.children.len(),
            forall|j: int|
                0 <= j < i ==> (nd.children[j].kind == Kind::Characteristic || nd.children[j].kind
                    == Kind::Attribute),
            nd == n.deep(),
            l@ == t0,
        decreases n.children.len() - i,
    {
        proof {
            assert(nd.children[i as int] == n.children@[i as int].deep());
        }
        if !(n.children[i].kind == Kind::Characteristic) && !(n.children[i].kind
            == Kind::Attribute) {
            proof {
                assert(!kinds_ok(nd.children, Kind::Characteristic, Kind::Attribute));
            }
            return Err(GattError::InvalidNesting);
        }
        i = i + 1;
    }
    proof {
        assert(kinds_ok(nd.children, Kind::Characteristic, Kind::Attribute));
    }
    let c_start = l.characteristics.len();
    let mut j: usize = 0;
    while j < n.children.len()
        invariant
            j <= n.children.len(),
            nd == n.deep(),
            nd.children.len() == n.children@.len(),
            sp_characteristic_list(
                t0,
                keep(nd.children.subrange(0, j as int), Kind::Characteristic),
            ) == Ok::<LayoutV, GattError>(l@),
            c_start == t0.characteristics.len(),
        decreases n.children.len() - j,
    {
        proof {
            assert(nd.children[j as int] == n.children@[j as int].deep());
            assert(nd.children.subrange(0, (j + 1) as int).drop_last() =~= nd.children.subrange(
                0,
                j as int,
            ));
            assert(nd.children.subrange(0, (j + 1) as int).last() == nd.children[j as int]);
        }
        if n.children[j].kind == Kind::Characteristic {
            let ghost t_pre = l@;
            let res = compile_characteristic(l, &n.children[j]);
            proof {
                assert(keep(nd.children.subrange(0, (j + 1) as int), Kind::Characteristic) == keep(
                    nd.children.subrange(0, j as int),
                    Kind::Characteristic,
                ).push(nd.children[j as int]));
                assert(keep(nd.children.subrange(0, (j + 1) as int), Kind::Characteristic).drop_last()
                    =~= keep(nd.children.subrange(0, j as int), Kind::Characteristic));
                assert(keep(nd.children.subrange(0, (j + 1) as int), Kind::Characteristic).last()
                    == nd.children[j as int]);
                assert(sp_characteristic_list(
                    t0,
                    keep(nd.children.subrange(0, (j + 1) as int), Kind::Characteristic),
                ) == sp_characteristic(t_pre, nd.children[j as int]));
            }
            match res {
                Ok(_) => {},
                Err(e) => {
                    proof {
                        let pre = nd.children.subrange(0, (j + 1) as int);
                        let rest = nd.children.subrange((j + 1) as int, nd.children.len() as int);
                        assert(sp_characteristic_list(t0, keep(pre, Kind::Characteristic))
                            == Err::<LayoutV, GattError>(e));
                        lemma_keep_concat(pre, rest, Kind::Characteristic);
                        assert(pre + rest =~= nd.children);
                        lemma_characteristic_list_err(
                            t0,
                            keep(pre, Kind::Characteristic),
                            keep(rest, Kind::Characteristic),
                        );
                    }
                    return Err(e);
                },
            }
        }
        j = j + 1;
    }
    proof {
        assert(nd.children.subrange(0, nd.children.len() as int) =~= nd.children);
    }
    let ghost t1 = l@;
    let a_start = l.attributes.len();
    let mut m: usize = 0;
    while m < n.children.len()
        invariant
            m <= n.children.len(),
            nd == n.deep(),
            nd.children.len() == n.children@.len(),
            sp_attribute_list(t1, keep(nd.children.subrange(0, m as int), Kind::Attribute))
                == Ok::<LayoutV, GattError>(l@),
            sp_characteristic_list(t0, keep(nd.children, Kind::Characteristic)) == Ok::<
                LayoutV,
                GattError,
            >(t1),
            a_start == t1.attributes.len(),
            c_start == t0.characteristics.len(),
        decreases n.children.len() - m,
    {
        proof {
            assert(nd.children[m as int] == n.children@[m as int].deep());
            assert(nd.children.subrange(0, (m + 1) as int).drop_last() =~= nd.children.subrange(
                0,
                m as int,
            ));
            assert(nd.children.subrange(0, (m + 1) as int).last() == nd.children[m as int]);
        }
        if n.children[m].kind == Kind::Attribute {
            let ghost t_pre = l@;
            let res = compile_attribute(l, &n.children[m]);
            proof {
                assert(keep(nd.children.subrange(0, (m + 1) as int), Kind::Attribute) == keep(
                    nd.children.subrange(0, m as int),
                    Kind::Attribute,
                ).push(nd.children[m as int]));
                assert(keep(nd.children.subrange(0, (m + 1) as int), Kind::Attribute).drop_last()
                    =~= keep(nd.children.subrange(0, m as int), Kind::Attribute));
                assert(keep(nd.children.subrange(0, (m + 1) as int), Kind::Attribute).last()
                    == nd.children[m as int]);
                assert(sp_attribute_list(
                    t1,
                    keep(nd.children.subrange(0, (m + 1) as int), Kind::Attribute),
                ) == sp_attribute(t_pre, nd.children[m as int]));
            }
            match res {
                Ok(_) => {},
                Err(e) => {
                    proof {
                        let pre = nd.children.subrange(0, (m + 1) as int);
                        let rest = nd.children.subrange((m + 1) as int, nd.children.len() as int);
                        assert(sp_attribute_list(t1, keep(pre, Kind::Attribute))
                            == Err::<LayoutV, GattError>(e));
                        lemma_keep_concat(pre, rest, Kind::Attribute);
                        assert(pre + rest =~= nd.children);
                        lemma_attribute_list_err(
                            t1,
                            keep(pre, Kind::Attribute),
                            keep(rest, Kind::Attribute),
                        );
                    }
                    return Err(e);
                },
            }
        }
        m = m + 1;
    }
    proof {
        assert(nd.children.subrange(0, nd.children.len() as int) =~= nd.children);
    }
    let accessor = accessor_of(&n.name, &n.type_ref);
    let type_ref = copy_bytes(&n.type_ref);
    let a_end = l.attributes.len();
    let c_end = l.characteristics.len();
    let ghost t2 = l@;
    let entry = ServiceEntry {
        attributes: IndexRange { start: a_start, end: a_end },
        characteristics: IndexRange { start: c_start, end: c_end },
        accessor,
        type_ref,
    };
    l.services.push(entry);
    proof {
        assert(entry@ =~= (ServiceEntryV {
            attributes: RangeV {
                start: t1.attributes.len() as int,
                end: t2.attributes.len() as int,
            },
            characteristics: RangeV {
                start: t0.characteristics.len() as int,
                end: t2.characteristics.len() as int,
            },
            accessor: spec_accessor(nd.name, nd.type_ref),
            type_ref: nd.type_ref,
        }));
        assert(l@.services =~= t2.services.push(entry@));
        assert(l@ =~= (LayoutV { services: t2.services.push(entry@), ..t2 }));
    }
    Ok(())
}

/// Compiles a schema tree into the four flat tables and the byte store size.
///
/// The result equals the mathematical compiler `sp_compile` on the tree, so
/// compiling one schema twice yields identical tables. The whole build fails,
/// with no partial result, on the first invalid nesting or oversized
/// attribute.
#[verifier::loop_isolation(false)]
#[verifier::rlimit(50)]
pub fn compile(nodes: &Vec<SchemaNode>) -> (r: Result<Layout, GattError>)
    ensures
        (match r {
            Ok(l) => sp_compile(deep_seq(nodes@)) == Ok::<LayoutV, GattError>(l@) && l@.wf(),
            Err(e) => sp_compile(deep_seq(nodes@)) == Err::<LayoutV, GattError>(e),
        }),
{
    let ghost ns = deep_seq(nodes@);
    let mut i: usize = 0;
    while i < nodes.len()
        invariant
            i <= nodes.len(),
            ns == deep_seq(nodes@),
            ns.len() == nodes@.len(),
            forall|j: int| 0 <= j < i ==> ns[j].kind == Kind::Service,
        decreases nodes.len() - i,
    {
        proof {
            assert(ns[i as int] == nodes@[i as int].deep());
        }
        if !(nodes[i].kind == Kind::Service) {
            proof {
                assert(!all_services(ns));
            }
            return Err(GattError::InvalidNesting);
        }
        i = i + 1;
    }
    proof {
        assert(all_services(ns));
    }
    let mut l = Layout {
        services: Vec::new(),
        characteristics: Vec::new(),
        descriptors: Vec::new(),
        attributes: Vec::new(),
        store_size: 0,
    };
    proof {
        assert(l@ =~= empty_layout());
    }
    let mut j: usize = 0;
    while j < nodes.len()
        invariant
            j <= nodes.len(),
            ns == deep_seq(nodes@),
            ns.len() == nodes@.len(),
            all_services(ns),
            sp_service_list(empty_layout(), ns.subrange(0, j as int)) == Ok::<LayoutV, GattError>(
                l@,
            ),
        decreases nodes.len() - j,
    {
        proof {
            assert(ns[j as int] == nodes@[j as int].deep());
            assert(ns.subrange(0, (j + 1) as int).drop_last() =~= ns.subrange(0, j as int));
            assert(ns.subrange(0, (j + 1) as int).last() == ns[j as int]);
        }
        let ghost t_pre = l@;
        let res = compile_service(&mut l, &nodes[j]);
        proof {
            assert(sp_service_list(empty_layout(), ns.subrange(0, (j + 1) as int)) == sp_service(
                t_pre,
                ns[j as int],
            ));
        }
        match res {
            Ok(_) => {},
            Err(e) => {
                proof {
                    assert(sp_service_list(empty_layout(), ns.subrange(0, (j + 1) as int))
                        == Err::<LayoutV, GattError>(e));
                    lemma_service_list_err(
                        empty_layout(),
                        ns.subrange(0, (j + 1) as int),
                        ns.subrange((j + 1) as int, ns.len() as int),
                    );
                    assert(ns.subrange(0, (j + 1) as int) + ns.subrange(
                        (j + 1) as int,
                        ns.len() as int,
                    ) =~= ns);
                }
                return Err(e);
            },
        }
        j = j + 1;
    }
    proof {
        assert(ns.subrange(0, ns.len() as int) =~= ns);
        lemma_compile_wf(ns, l@);
    }
    Ok(l)
}

/// The type references of the attribute table, in table order.
pub open spec fn attr_type_refs(l: LayoutV) -> Seq<Seq<u8>> {
    Seq::new(l.attributes.len(), |i: int| l.attributes[i].type_ref)
}

impl Layout {
    /// The distinct attribute type references, first occurrence first: the
    /// set of accessor shapes that repeated use of one entity type shares.
    #[verifier::loop_isolation(false)]
    pub fn attribute_type_refs(&self) -> (r: Vec<Vec<u8>>)
        ensures
            r.deep_view() == crate::names::spec_unique(attr_type_refs(self@)),
    {
        let mut all: Vec<Vec<u8>> = Vec::new();
        let mut i: usize = 0;
        while i < self.attributes.len()
            invariant
                i <= self@.attributes.len(),
                all@.len() == i,
                forall|m: int| 0 <= m < i ==> (#[trigger] all@[m])@ == self@.attributes[m].type_ref,
            decreases self@.attributes.len() - i,
        {
            all.push(copy_bytes(&self.attributes[i].type_ref));
            i = i + 1;
        }
        proof {
            assert forall|m: int| 0 <= m < all@.len() implies #[trigger] all.deep_view()[m]
                == attr_type_refs(self@)[m] by {
                assert(all@[m].deep_view() =~= all@[m]@);
            }
            assert(all.deep_view() =~= attr_type_refs(self@));
        }
        crate::names::unique_bytes(all)
    }
}

} // verus!
