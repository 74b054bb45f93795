//! The server façade and its handles.
//!
//! A `Server` owns the four flat tables and the byte store. Handles are plain
//! table indices; navigation walks from the server to a service, on to a
//! characteristic, a descriptor and an attribute, each step bounded by the
//! parent entry's index range. Attribute handles read and write the backing
//! bytes; a write whose length disagrees with the declared size is rejected
//! whole, with no partial write.
//!
//! Mutation needs `&mut Server`, so the borrow checker guarantees that no two
//! live handles mutate the same entry at the same time; obtaining a second
//! mutable path to the store is a build-time type error.
//!
//! A `GattServer` is the checked-out-once guard: `take` yields the server the
//! first time and nothing on every subsequent call.

use vstd::prelude::*;
use crate::GattError;
use crate::layout::{Layout, LayoutV};

verus! {

/// The mathematical image of a `Server`: its layout and the store contents.
#[verifier::ext_equal]
pub ghost struct ServerV {
    pub layout: LayoutV,
    pub store: Seq<u8>,
}

/// A well-formed server: a well-formed layout over a store of exactly the
/// compiled size.
pub open spec fn sv_wf(s: ServerV) -> bool {
    &&& s.layout.wf()
    &&& s.store.len() == s.layout.store_size
}

/// The bytes backing attribute `i`.
pub open spec fn attr_region(s: ServerV, i: int) -> Seq<u8> {
    s.store.subrange(
        s.layout.attributes[i].offset,
        s.layout.attributes[i].offset + s.layout.attributes[i].size,
    )
}

/// The server after attribute `i` is overwritten with `v`.
pub open spec fn set_attr(s: ServerV, i: int, v: Seq<u8>) -> ServerV {
    ServerV {
        layout: s.layout,
        store: s.store.subrange(0, s.layout.attributes[i].offset) + v + s.store.subrange(
            s.layout.attributes[i].offset + s.layout.attributes[i].size,
            s.store.len() as int,
        ),
    }
}

/// The runtime server: the compiled tables plus the global byte store,
/// initially all zeroes.
pub struct Server {
    layout: Layout,
    store: Vec<u8>,
}

impl View for Server {
    type V = ServerV;

    closed spec fn view(&self) -> ServerV {
        ServerV { layout: self.layout@, store: self.store@ }
    }
}

/// A handle bound to one service table entry.
#[derive(Clone, Copy, PartialEq, Eq, Structural, Debug)]
pub struct ServiceHandle {
    pub index: usize,
}

/// A handle bound to one characteristic table entry.
#[derive(Clone, Copy, PartialEq, Eq, Structural, Debug)]
pub struct CharacteristicHandle {
    pub index: usize,
}

/// A handle bound to one descriptor table entry.
#[derive(Clone, Copy, PartialEq, Eq, Structural, Debug)]
pub struct DescriptorHandle {
    pub index: usize,
}

/// A handle bound to one attribute table entry.
#[derive(Clone, Copy, PartialEq, Eq, Structural, Debug)]
pub struct AttributeHandle {
    pub index: usize,
}

impl ServiceHandle {
    /// A handle that points into the server's service table.
    pub open spec fn wf(self, s: ServerV) -> bool {
        self.index < s.layout.services.len()
    }
}

impl CharacteristicHandle {
    /// A handle that points into the server's characteristic table.
    pub open spec fn wf(self, s: ServerV) -> bool {
        self.index < s.layout.characteristics.len()
    }
}

impl DescriptorHandle {
    /// A handle that points into the server's descriptor table.
    pub open spec fn wf(self, s: ServerV) -> bool {
        self.index < s.layout.descriptors.len()
    }
}

impl AttributeHandle {
    /// A handle that points into the server's attribute table.
    pub open spec fn wf(self, s: ServerV) -> bool {
        self.index < s.layout.attributes.len()
    }
}

/// Whether the bytes of `a` equal the bytes of `b`.
fn bytes_eq(a: &Vec<u8>, b: &[u8]) -> (r: bool)
    ensures
        r <==> a@ == b@,
{
    if a.len() != b.len() {
        proof {
            assert(a@ != b@);
        }
        return false;
    }
    let mut i: usize = 0;
    while i < a.len()
        invariant
            i <= a.len(),
            a@.len() == b@.len(),
            forall|j: int| 0 <= j < i ==> a@[j] == b@[j],
        decreases a.len() - i,
    {
        if a[i] != b[i] {
            proof {
                assert(a@ != b@);
            }
            return false;
        }
        i = i + 1;
    }
    proof {
        assert(a@ =~= b@);
    }
    true
}

impl Server {
    /// A server whose store matches its layout.
    pub open spec fn wf(self) -> bool {
        sv_wf(self@)
    }

    /// Wraps a compiled layout with a zeroed byte store of exactly the
    /// compiled size.
    pub fn new(layout: Layout) -> (r: Server)
        requires
            layout@.wf(),
        ensures
            r.wf(),
            r@.layout == layout@,
            r@.store.len() == layout@.store_size,
            forall|i: int| 0 <= i < r@.store.len() ==> r@.store[i] == 0,
    {
        let n = layout.store_size as usize;
        let store = vec![0u8; n];
        Server { layout, store }
    }

    /// How many services were declared.
    pub fn service_count(&self) -> (r: usize)
        ensures
            r == self@.layout.services.len(),
    {
        self.layout.services.len()
    }

    /// The handle of the `i`-th declared service, in declaration order.
    pub fn service_at(&self, i: usize) -> (r: Option<ServiceHandle>)
        ensures
            (match r {
                Some(h) => i < self@.layout.services.len() && h.index == i && h.wf(self@),
                None => i >= self@.layout.services.len(),
            }),
    {
        if i < self.layout.services.len() {
            Some(ServiceHandle { index: i })
        } else {
            None
        }
    }

    /// The first declared service whose accessor name is `name`, if any.
    #[verifier::loop_isolation(false)]
    pub fn service(&self, name: &[u8]) -> (r: Option<ServiceHandle>)
        ensures
            (match r {
                Some(h) => {
                    &&& h.wf(self@)
                    &&& self@.layout.services[h.index as int].accessor == name@
                    &&& forall|j: int|
                        0 <= j < h.index ==> self@.layout.services[j].accessor != name@
                },
                None => forall|j: int|
                    0 <= j < self@.layout.services.len() ==> self@.layout.services[j].accessor
                        != name@,
            }),
    {
        let mut i: usize = 0;
        while i < self.layout.services.len()
            invariant
                i <= self@.layout.services.len(),
                forall|j: int| 0 <= j < i ==> self@.layout.services[j].accessor != name@,
            decreases self@.layout.services.len() - i,
        {
            if bytes_eq(&self.layout.services[i].accessor, name) {
                return Some(ServiceHandle { index: i });
            }
            i = i + 1;
        }
        None
    }
}

impl ServiceHandle {
    /// The handle of this service's `i`-th declared characteristic.
    pub fn characteristic_at(&self, server: &Server, i: usize) -> (r: Option<
        CharacteristicHandle,
    >)
        requires
            server.wf(),
            self.wf(server@),
        ensures
            ({
                let rg = server@.layout.services[self.index as int].characteristics;
                match r {
                    Some(h) => i < rg.end - rg.start && h.index == rg.start + i && h.wf(server@),
                    None => i >= rg.end - rg.start,
                }
            }),
    {
        let rg = server.layout.services[self.index].characteristics;
        proof {
            assert(server@.layout.ranges_wf());
            let entry = server@.layout.services[self.index as int];
            assert(entry == entry);
        }
        if i < rg.end - rg.start {
            Some(CharacteristicHandle { index: rg.start + i })
        } else {
            None
        }
    }

    /// The first characteristic declared under this service whose accessor
    /// name is `name`, if any.
    #[verifier::loop_isolation(false)]
    pub fn characteristic(&self, server: &Server, name: &[u8]) -> (r: Option<
        CharacteristicHandle,
    >)
        requires
            server.wf(),
            self.wf(server@),
        ensures
            ({
                let rg = server@.layout.services[self.index as int].characteristics;
                match r {
                    Some(h) => {
                        &&& h.wf(server@)
                        &&& rg.start <= h.index < rg.end
                        &&& server@.layout.characteristics[h.index as int].accessor == name@
                        &&& forall|j: int|
                            rg.start <= j < h.index
                                ==> server@.layout.characteristics[j].accessor != name@
                    },
                    None => forall|j: int|
                        rg.start <= j < rg.end ==> server@.layout.characteristics[j].accessor
                            != name@,
                }
            }),
    {
        let rg = server.layout.services[self.index].characteristics;
        proof {
            assert(server@.layout.ranges_wf());
            let entry = server@.layout.services[self.index as int];
            assert(entry == entry);
        }
        let mut i: usize = rg.start;
        while i < rg.end
            invariant
                rg@ == server@.layout.services[self.index as int].characteristics,
                rg.start <= i <= rg.end,
                rg.end <= server@.layout.characteristics.len(),
                forall|j: int|
                    rg.start <= j < i ==> server@.layout.characteristics[j].accessor != name@,
            decreases rg.end - i,
        {
            if bytes_eq(&server.layout.characteristics[i].accessor, name) {
                return Some(CharacteristicHandle { index: i });
            }
            i = i + 1;
        }
        None
    }

    /// The handle of this service's `i`-th directly-owned attribute.
    pub fn attribute_at(&self, server: &Server, i: usize) -> (r: Option<AttributeHandle>)
        requires
            server.wf(),
            self.wf(server@),
        ensures
            ({
                let rg = server@.layout.services[self.index as int].attributes;
                match r {
                    Some(h) => i < rg.end - rg.start && h.index == rg.start + i && h.wf(server@),
                    None => i >= rg.end - rg.start,
                }
            }),
    {
        let rg = server.layout.services[self.index].attributes;
        proof {
            assert(server@.layout.ranges_wf());
            let entry = server@.layout.services[self.index as int];
            assert(entry == entry);
        }
        if i < rg.end - rg.start {
            Some(AttributeHandle { index: rg.start + i })
        } else {
            None
        }
    }

    /// The first attribute declared directly under this service whose
    /// accessor name is `name`, if any.
    #[verifier::loop_isolation(false)]
    pub fn attribute(&self, server: &Server, name: &[u8]) -> (r: Option<AttributeHandle>)
        requires
            server.wf(),
            self.wf(server@),
        ensures
            ({
                let rg = server@.layout.services[self.index as int].attributes;
                match r {
                    Some(h) => {
                        &&& h.wf(server@)
                        &&& rg.start <= h.index < rg.end
                        &&& server@.layout.attributes[h.index as int].accessor == name@
                        &&& forall|j: int|
                            rg.start <= j < h.index ==> server@.layout.attributes[j].accessor
                                != name@
                    },
                    None => forall|j: int|
                        rg.start <= j < rg.end ==> server@.layout.attributes[j].accessor != name@,
                }
            }),
    {
        let rg = server.layout.services[self.index].attributes;
        proof {
            assert(server@.layout.ranges_wf());
            let entry = server@.layout.services[self.index as int];
            assert(entry == entry);
        }
        let mut i: usize = rg.start;
        while i < rg.end
            invariant
                rg@ == server@.layout.services[self.index as int].attributes,
                rg.start <= i <= rg.end,
                rg.end <= server@.layout.attributes.len(),
                forall|j: int|
                    rg.start <= j < i ==> server@.layout.attributes[j].accessor != name@,
            decreases rg.end - i,
        {
            if bytes_eq(&server.layout.attributes[i].accessor, name) {
                return Some(AttributeHandle { index: i });
            }
            i = i + 1;
        }
        None
    }
}

impl CharacteristicHandle {
    /// The handle of this characteristic's `i`-th declared descriptor.
    pub fn descriptor_at(&self, server: &Server, i: usize) -> (r: Option<DescriptorHandle>)
        requires
            server.wf(),
            self.wf(server@),
        ensures
            ({
                let rg = server@.layout.characteristics[self.index as int].descriptors;
                match r {
                    Some(h) => i < rg.end - rg.start && h.index == rg.start + i && h.wf(server@),
                    None => i >= rg.end - rg.start,
                }
            }),
    {
        let rg = server.layout.characteristics[self.index].descriptors;
        proof {
            assert(server@.layout.ranges_wf());
            let entry = server@.layout.characteristics[self.index as int];
            assert(entry == entry);
        }
        if i < rg.end - rg.start {
            Some(DescriptorHandle { index: rg.start + i })
        } else {
            None
        }
    }

    /// The first descriptor declared under this characteristic whose accessor
    /// name is `name`, if any.
    #[verifier::loop_isolation(false)]
    pub fn descriptor(&self, server: &Server, name: &[u8]) -> (r: Option<DescriptorHandle>)
        requires
            server.wf(),
            self.wf(server@),
        ensures
            ({
                let rg = server@.layout.characteristics[self.index as int].descriptors;
                match r {
                    Some(h) => {
                        &&& h.wf(server@)
                        &&& rg.start <= h.index < rg.end
                        &&& server@.layout.descriptors[h.index as int].accessor == name@
                        &&& forall|j: int|
                            rg.start <= j < h.index ==> server@.layout.descriptors[j].accessor
                                != name@
                    },
                    None => forall|j: int|
                        rg.start <= j < rg.end ==> server@.layout.descriptors[j].accessor != name@,
                }
            }),
    {
        let rg = server.layout.characteristics[self.index].descriptors;
        proof {
            assert(server@.layout.ranges_wf());
            let entry = server@.layout.characteristics[self.index as int];
            assert(entry == entry);
        }
        let mut i: usize = rg.start;
        while i < rg.end
            invariant
                rg@ == server@.layout.characteristics[self.index as int].descriptors,
                rg.start <= i <= rg.end,
                rg.end <= server@.layout.descriptors.len(),
                forall|j: int|
                    rg.start <= j < i ==> server@.layout.descriptors[j].accessor != name@,
            decreases rg.end - i,
        {
            if bytes_eq(&server.layout.descriptors[i].accessor, name) {
                return Some(DescriptorHandle { index: i });
            }
            i = i + 1;
        }
        None
    }

    /// The handle of this characteristic's `i`-th directly-owned attribute.
    pub fn attribute_at(&self, server: &Server, i: usize) -> (r: Option<AttributeHandle>)
        requires
            server.wf(),
            self.wf(server@),
        ensures
            ({
                let rg = server@.layout.characteristics[self.index as int].attributes;
                match r {
                    Some(h) => i < rg.end - rg.start && h.index == rg.start + i && h.wf(server@),
                    None => i >= rg.end - rg.start,
                }
            }),
    {
        let rg = server.layout.characteristics[self.index].attributes;
        proof {
            assert(server@.layout.ranges_wf());
            let entry = server@.layout.characteristics[self.index as int];
            assert(entry == entry);
        }
        if i < rg.end - rg.start {
            Some(AttributeHandle { index: rg.start + i })
        } else {
            None
        }
    }

    /// The first attribute declared directly under this characteristic whose
    /// accessor name is `name`, if any.
    #[verifier::loop_isolation(false)]
    pub fn attribute(&self, server: &Server, name: &[u8]) -> (r: Option<AttributeHandle>)
        requires
            server.wf(),
            self.wf(server@),
        ensures
            ({
                let rg = server@.layout.characteristics[self.index as int].attributes;
                match r {
                    Some(h) => {
                        &&& h.wf(server@)
                        &&& rg.start <= h.index < rg.end
                        &&& server@.layout.attributes[h.index as int].accessor == name@
                        &&& forall|j: int|
                            rg.start <= j < h.index ==> server@.layout.attributes[j].accessor
                                != name@
                    },
                    None => forall|j: int|
                        rg.start <= j < rg.end ==> server@.layout.attributes[j].accessor != name@,
                }
            }),
    {
        let rg = server.layout.characteristics[self.index].attributes;
        proof {
            assert(server@.layout.ranges_wf());
            let entry = server@.layout.characteristics[self.index as int];
            assert(entry == entry);
        }
        let mut i: usize = rg.start;
        while i < rg.end
            invariant
                rg@ == server@.layout.characteristics[self.index as int].attributes,
                rg.start <= i <= rg.end,
                rg.end <= server@.layout.attributes.len(),
                forall|j: int|
                    rg.start <= j < i ==> server@.layout.attributes[j].accessor != name@,
            decreases rg.end - i,
        {
            if bytes_eq(&server.layout.attributes[i].accessor, name) {
                return Some(AttributeHandle { index: i });
            }
            i = i + 1;
        }
        None
    }
}

impl DescriptorHandle {
    /// The handle of this descriptor's `i`-th declared attribute.
    pub fn attribute_at(&self, server: &Server, i: usize) -> (r: Option<AttributeHandle>)
        requires
            server.wf(),
            self.wf(server@),
        ensures
            ({
                let rg = server@.layout.descriptors[self.index as int].attributes;
                match r {
                    Some(h) => i < rg.end - rg.start && h.index == rg.start + i && h.wf(server@),
                    None => i >= rg.end - rg.start,
                }
            }),
    {
        let rg = server.layout.descriptors[self.index].attributes;
        proof {
            assert(server@.layout.ranges_wf());
            let entry = server@.layout.descriptors[self.index as int];
            assert(entry == entry);
        }
        if i < rg.end - rg.start {
            Some(AttributeHandle { index: rg.start + i })
        } else {
            None
        }
    }

    /// The first attribute declared under this descriptor whose accessor name
    /// is `name`, if any.
    #[verifier::loop_isolation(false)]
    pub fn attribute(&self, server: &Server, name: &[u8]) -> (r: Option<AttributeHandle>)
        requires
            server.wf(),
            self.wf(server@),
        ensures
            ({
                let rg = server@.layout.descriptors[self.index as int].attributes;
                match r {
                    Some(h) => {
                        &&& h.wf(server@)
                        &&& rg.start <= h.index < rg.end
                        &&& server@.layout.attributes[h.index as int].accessor == name@
                        &&& forall|j: int|
                            rg.start <= j < h.index ==> server@.layout.attributes[j].accessor
                                != name@
                    },
                    None => forall|j: int|
                        rg.start <= j < rg.end ==> server@.layout.attributes[j].accessor != name@,
                }
            }),
    {
        let rg = server.layout.descriptors[self.index].attributes;
        proof {
            assert(server@.layout.ranges_wf());
            let entry = server@.layout.descriptors[self.index as int];
            assert(entry == entry);
        }
        let mut i: usize = rg.start;
        while i < rg.end
            invariant
                rg@ == server@.layout.descriptors[self.index as int].attributes,
                rg.start <= i <= rg.end,
                rg.end <= server@.layout.attributes.len(),
                forall|j: int|
                    rg.start <= j < i ==> server@.layout.attributes[j].accessor != name@,
            decreases rg.end - i,
        {
            if bytes_eq(&server.layout.attributes[i].accessor, name) {
                return Some(AttributeHandle { index: i });
            }
            i = i + 1;
        }
        None
    }
}

impl AttributeHandle {
    /// The declared size of the attribute.
    pub fn size(&self, server: &Server) -> (r: u32)
        requires
            self.wf(server@),
        ensures
            r == server@.layout.attributes[self.index as int].size,
    {
        server.layout.attributes[self.index].size
    }

    /// Reads the attribute's backing bytes: exactly `size` bytes starting at
    /// the attribute's offset.
    #[verifier::loop_isolation(false)]
    pub fn get(&self, server: &Server) -> (r: Vec<u8>)
        requires
            server.wf(),
            self.wf(server@),
        ensures
            r@ == attr_region(server@, self.index as int),
            r@.len() == server@.layout.attributes[self.index as int].size,
    {
        proof {
            crate::layout::lemma_attr_in_store(server@.layout, self.index as int);
        }
        let off = server.layout.attributes[self.index].offset as usize;
        let size = server.layout.attributes[self.index].size as usize;
        let mut r: Vec<u8> = Vec::new();
        let mut k: usize = 0;
        while k < size
            invariant
                k <= size,
                off + size <= server@.store.len(),
                r@ == server@.store.subrange(off as int, off as int + k as int),
            decreases size - k,
        {
            r.push(server.store[off + k]);
            proof {
                assert(server@.store.subrange(off as int, off + k + 1) =~= server@.store.subrange(
                    off as int,
                    off + k,
                ).push(server@.store[off + k]));
            }
            k = k + 1;
        }
        proof {
            assert(r@ =~= attr_region(server@, self.index as int));
        }
        r
    }

    /// Overwrites the attribute's backing bytes with `value`, all or nothing:
    /// succeeds exactly when the payload length equals the declared size, and
    /// on a size mismatch fails with `SizeMismatch` leaving the store
    /// unchanged.
    #[verifier::loop_isolation(false)]
    pub fn set(&self, server: &mut Server, value: &[u8]) -> (r: Result<(), GattError>)
        requires
            old(server).wf(),
            self.wf(old(server)@),
        ensures
            final(server).wf(),
            final(server)@.layout == old(server)@.layout,
            (match r {
                Ok(_) => value@.len() == old(server)@.layout.attributes[self.index as int].size
                    && final(server)@ == set_attr(old(server)@, self.index as int, value@),
                Err(e) => {
                    &&& e == GattError::SizeMismatch
                    &&& value@.len() != old(server)@.layout.attributes[self.index as int].size
                    &&& final(server)@ == old(server)@
                },
            }),
    {
        proof {
            crate::layout::lemma_attr_in_store(server@.layout, self.index as int);
        }
        let off = server.layout.attributes[self.index].offset as usize;
        let size = server.layout.attributes[self.index].size as usize;
        if value.len() != size {
            return Err(GattError::SizeMismatch);
        }
        let mut k: usize = 0;
        while k < size
            invariant
                k <= size,
                off + size <= server@.store.len(),
                value@.len() == size,
                server@.layout == old(server)@.layout,
                server@.store.len() == old(server)@.store.len(),
                forall|m: int| 0 <= m < off ==> server@.store[m] == old(server)@.store[m],
                forall|m: int| off <= m < off + k ==> server@.store[m] == value@[m - off],
                forall|m: int|
                    off + k <= m < server@.store.len() ==> server@.store[m] == old(
                        server,
                    )@.store[m],
            decreases size - k,
        {
            server.store[off + k] = value[k];
            k = k + 1;
        }
        proof {
            assert(server@ =~= set_attr(old(server)@, self.index as int, value@));
        }
        Ok(())
    }
}

/// The checked-out-once guard around the server.
pub struct GattServer {
    inner: Option<Server>,
}

impl View for GattServer {
    type V = Option<ServerV>;

    closed spec fn view(&self) -> Option<ServerV> {
        match self.inner {
            Some(s) => Some(s@),
            None => None,
        }
    }
}

/// One `take` transition: the result is whatever the guard held, and the
/// guard holds nothing afterwards.
pub open spec fn take_step(pre: Option<ServerV>, post: Option<ServerV>, r: Option<ServerV>) -> bool {
    &&& post is None
    &&& r == pre
}

impl GattServer {
    /// Wraps a server so that it can be checked out exactly once.
    pub fn new(server: Server) -> (r: GattServer)
        ensures
            r@ == Some(server@),
    {
        GattServer { inner: Some(server) }
    }

    /// Checks the server out: yields it the first time, and nothing on every
    /// subsequent call.
    pub fn take(&mut self) -> (r: Option<Server>)
        ensures
            take_step(old(self)@, final(self)@, match r {
                Some(s) => Some(s@),
                None => None,
            }),
    {
        let mut tmp: Option<Server> = None;
        core::mem::swap(&mut self.inner, &mut tmp);
        tmp
    }
}

/// Single checkout: starting from a guard that holds a live server, the first
/// `take` yields it and every subsequent `take` yields nothing.
pub proof fn lemma_single_checkout(
    c0: Option<ServerV>,
    c1: Option<ServerV>,
    c2: Option<ServerV>,
    r1: Option<ServerV>,
    r2: Option<ServerV>,
)
    requires
        c0 is Some,
        take_step(c0, c1, r1),
        take_step(c1, c2, r2),
    ensures
        r1 is Some,
        r2 is None,
{
}

/// Round trip: writing any payload of exactly the declared size and reading
/// the same attribute back returns that payload.
pub proof fn lemma_set_then_get(s: ServerV, i: int, v: Seq<u8>)
    requires
        sv_wf(s),
        0 <= i < s.layout.attributes.len(),
        v.len() == s.layout.attributes[i].size,
    ensures
        attr_region(set_attr(s, i, v), i) == v,
{
    crate::layout::lemma_attr_in_store(s.layout, i);
    assert(attr_region(set_attr(s, i, v), i) =~= v);
}

/// Frame: writing one attribute leaves the bytes of every other attribute
/// unchanged.
pub proof fn lemma_set_frames_others(s: ServerV, i: int, v: Seq<u8>, j: int)
    requires
        sv_wf(s),
        0 <= i < s.layout.attributes.len(),
        v.len() == s.layout.attributes[i].size,
        0 <= j < s.layout.attributes.len(),
        j != i,
    ensures
        attr_region(set_attr(s, i, v), j) == attr_region(s, j),
{
    crate::layout::lemma_attr_in_store(s.layout, i);
    crate::layout::lemma_attr_in_store(s.layout, j);
    crate::layout::lemma_attr_disjoint(s.layout, i, j);
    assert(attr_region(set_attr(s, i, v), j) =~= attr_region(s, j));
}

} // verus!
