//! Managed objects as the collectors see them: a header with the mark bit and
//! the forwarding slot, the size, and the reference fields; and the memory
//! that holds the objects by their address.

use crate::address::Address;
use std::collections::HashMap;
use vstd::prelude::*;

verus! {

/// The size in bytes of an object header.
pub const HEADER_SIZE: usize = 16;

/// The header of an object: the mark bit and the forwarding slot.
#[derive(Copy, Clone, PartialEq, Eq, Structural, Debug)]
pub struct Header {
    pub marked: bool,
    pub fwdptr: Address,
}

impl Header {
    /// A header that is not marked and forwards nowhere.
    pub fn new() -> (r: Header)
        ensures
            r == (Header { marked: false, fwdptr: Address(0) }),
    {
        Header { marked: false, fwdptr: Address(0) }
    }

    pub fn is_marked_non_atomic(&self) -> (r: bool)
        ensures
            r == self.marked,
    {
        self.marked
    }

    pub fn mark_non_atomic(&mut self)
        ensures
            *final(self) == (Header { marked: true, fwdptr: old(self).fwdptr }),
    {
        self.marked = true;
    }

    pub fn unmark_non_atomic(&mut self)
        ensures
            *final(self) == (Header { marked: false, fwdptr: old(self).fwdptr }),
    {
        self.marked = false;
    }

    pub fn fwdptr_non_atomic(&self) -> (r: Address)
        ensures
            r == self.fwdptr,
    {
        self.fwdptr
    }

    pub fn set_fwdptr_non_atomic(&mut self, addr: Address)
        ensures
            *final(self) == (Header { marked: old(self).marked, fwdptr: addr }),
    {
        self.fwdptr = addr;
    }
}

/// What an object is to the collectors.
pub ghost struct ObjView {
    /// The size of the whole object in bytes.
    pub size: usize,
    pub marked: bool,
    pub fwdptr: Address,
    /// Whether the object is an array of references.
    pub array_ref: bool,
    /// The values of the reference fields, in the order of their declaration.
    pub fields: Seq<Address>,
}

/// A managed object.
pub struct Obj {
    header: Header,
    size: usize,
    array_ref: bool,
    fields: Vec<Address>,
}

impl View for Obj {
    type V = ObjView;

    closed spec fn view(&self) -> ObjView {
        ObjView {
            size: self.size,
            marked: self.header.marked,
            fwdptr: self.header.fwdptr,
            array_ref: self.array_ref,
            fields: self.fields@,
        }
    }
}

impl Obj {
    /// An object of `size` bytes with `fields` reference fields, all null,
    /// whose header is not marked.
    pub fn new(size: usize, fields: usize, array_ref: bool) -> (r: Obj)
        ensures
            r@ == (ObjView {
                size,
                marked: false,
                fwdptr: Address(0),
                array_ref,
                fields: Seq::new(fields as nat, |i: int| Address(0)),
            }),
    {
        let mut values: Vec<Address> = Vec::new();
        let mut i: usize = 0;
        while i < fields
            invariant
                i <= fields,
                values@ == Seq::new(i as nat, |i: int| Address(0)),
            decreases fields - i,
        {
            values.push(Address::null());
            i += 1;
            assert(values@ =~= Seq::new(i as nat, |i: int| Address(0)));
        }
        Obj { header: Header::new(), size, array_ref, fields: values }
    }

    pub fn header(&self) -> (r: Header)
        ensures
            r == (Header { marked: self@.marked, fwdptr: self@.fwdptr }),
    {
        self.header
    }

    /// The size of the whole object in bytes.
    pub fn size(&self) -> (r: usize)
        ensures
            r == self@.size,
    {
        self.size
    }

    /// Whether the object is an array of references.
    pub fn is_array_ref(&self) -> (r: bool)
        ensures
            r == self@.array_ref,
    {
        self.array_ref
    }

    /// The values of the reference fields, in the order of their declaration.
    pub fn visit_reference_fields(&self) -> (r: Vec<Address>)
        ensures
            r@ == self@.fields,
    {
        let mut out: Vec<Address> = Vec::new();
        let mut i: usize = 0;
        while i < self.fields.len()
            invariant
                i <= self.fields.len(),
                out@ == self.fields@.take(i as int),
            decreases self.fields.len() - i,
        {
            out.push(self.fields[i]);
            proof {
                assert(self.fields@.take(i + 1) =~= self.fields@.take(i as int).push(
                    self.fields@[i as int],
                ));
            }
            i += 1;
        }
        proof {
            assert(self.fields@.take(i as int) =~= self.fields@);
        }
        out
    }
}

/// The objects of the heap, each under the address at which it starts.
pub struct Memory {
    objs: HashMap<usize, Obj>,
}

impl View for Memory {
    type V = Map<Address, ObjView>;

    closed spec fn view(&self) -> Map<Address, ObjView> {
        Map::new(|a: Address| self.objs@.contains_key(a.0), |a: Address| self.objs@[a.0]@)
    }
}

impl Memory {
    /// How many objects are not marked.
    pub closed spec fn unmarked_count(&self) -> nat {
        self.objs@.dom().filter(|k: usize| !self.objs@[k]@.marked).len()
    }

    /// A memory without objects.
    pub fn new() -> (r: Memory)
        ensures
            r@ == Map::<Address, ObjView>::empty(),
    {
        let r = Memory { objs: HashMap::new() };
        assert(r@ =~= Map::<Address, ObjView>::empty());
        r
    }

    /// Whether an object starts at `addr`.
    pub fn contains(&self, addr: Address) -> (r: bool)
        ensures
            r == self@.contains_key(addr),
    {
        broadcast use vstd::std_specs::hash::group_hash_axioms;

        self.objs.contains_key(&addr.0)
    }

    /// The size in bytes of the object at `addr`.
    pub fn size(&self, addr: Address) -> (r: usize)
        requires
            self@.contains_key(addr),
        ensures
            r == self@[addr].size,
    {
        broadcast use vstd::std_specs::hash::group_hash_axioms;

        self.objs.get(&addr.0).unwrap().size()
    }

    /// Whether the object at `addr` is an array of references.
    pub fn is_array_ref(&self, addr: Address) -> (r: bool)
        requires
            self@.contains_key(addr),
        ensures
            r == self@[addr].array_ref,
    {
        broadcast use vstd::std_specs::hash::group_hash_axioms;

        self.objs.get(&addr.0).unwrap().is_array_ref()
    }

    /// Whether the object at `addr` is marked.
    pub fn is_marked(&self, addr: Address) -> (r: bool)
        requires
            self@.contains_key(addr),
        ensures
            r == self@[addr].marked,
    {
        broadcast use vstd::std_specs::hash::group_hash_axioms;

        self.objs.get(&addr.0).unwrap().header().is_marked_non_atomic()
    }

    /// The forwarding slot of the object at `addr`.
    pub fn fwdptr(&self, addr: Address) -> (r: Address)
        requires
            self@.contains_key(addr),
        ensures
            r == self@[addr].fwdptr,
    {
        broadcast use vstd::std_specs::hash::group_hash_axioms;

        self.objs.get(&addr.0).unwrap().header().fwdptr_non_atomic()
    }

    /// How many reference fields the object at `addr` has.
    pub fn field_count(&self, addr: Address) -> (r: usize)
        requires
            self@.contains_key(addr),
        ensures
            r == self@[addr].fields.len(),
    {
        broadcast use vstd::std_specs::hash::group_hash_axioms;

        self.objs.get(&addr.0).unwrap().fields.len()
    }

    /// The value of reference field `index` of the object at `addr`.
    pub fn field(&self, addr: Address, index: usize) -> (r: Address)
        requires
            self@.contains_key(addr),
            index < self@[addr].fields.len(),
        ensures
            r == self@[addr].fields[index as int],
    {
        broadcast use vstd::std_specs::hash::group_hash_axioms;

        self.objs.get(&addr.0).unwrap().fields[index]
    }

    /// Sets the mark bit of the object at `addr`.
    pub fn mark(&mut self, addr: Address)
        requires
            old(self)@.contains_key(addr),
        ensures
            final(self)@ == old(self)@.insert(addr, ObjView { marked: true, ..old(self)@[addr] }),
            !old(self)@[addr].marked ==> final(self).unmarked_count() < old(self).unmarked_count(),
    {
        broadcast use vstd::std_specs::hash::group_hash_axioms;

        let mut obj = self.objs.remove(&addr.0).unwrap();
        obj.header.mark_non_atomic();
        self.objs.insert(addr.0, obj);
        proof {
            assert(self@ =~= old(self)@.insert(addr, ObjView { marked: true, ..old(self)@[addr] }));
            if !old(self)@[addr].marked {
                let before = old(self).objs@;
                let after = self.objs@;
                let was = before.dom().filter(|k: usize| !before[k]@.marked);
                let is = after.dom().filter(|k: usize| !after[k]@.marked);
                before.dom().lemma_len_filter(|k: usize| !before[k]@.marked);
                assert(is =~= was.remove(addr.0));
            }
        }
    }

    /// Clears the mark bit of the object at `addr`.
    pub fn unmark(&mut self, addr: Address)
        requires
            old(self)@.contains_key(addr),
        ensures
            final(self)@ == old(self)@.insert(addr, ObjView { marked: false, ..old(self)@[addr] }),
    {
        broadcast use vstd::std_specs::hash::group_hash_axioms;

        let mut obj = self.objs.remove(&addr.0).unwrap();
        obj.header.unmark_non_atomic();
        self.objs.insert(addr.0, obj);
        assert(self@ =~= old(self)@.insert(addr, ObjView { marked: false, ..old(self)@[addr] }));
    }

    /// Writes `fwd` to the forwarding slot of the object at `addr`.
    pub fn set_fwdptr(&mut self, addr: Address, fwd: Address)
        requires
            old(self)@.contains_key(addr),
        ensures
            final(self)@ == old(self)@.insert(addr, ObjView { fwdptr: fwd, ..old(self)@[addr] }),
    {
        broadcast use vstd::std_specs::hash::group_hash_axioms;

        let mut obj = self.objs.remove(&addr.0).unwrap();
        obj.header.set_fwdptr_non_atomic(fwd);
        self.objs.insert(addr.0, obj);
        assert(self@ =~= old(self)@.insert(addr, ObjView { fwdptr: fwd, ..old(self)@[addr] }));
    }

    /// Writes `value` to reference field `index` of the object at `addr`.
    pub fn set_field(&mut self, addr: Address, index: usize, value: Address)
        requires
            old(self)@.contains_key(addr),
            index < old(self)@[addr].fields.len(),
        ensures
            final(self)@ == old(self)@.insert(
                addr,
                ObjView {
                    fields: old(self)@[addr].fields.update(index as int, value),
                    ..old(self)@[addr]
                },
            ),
    {
        broadcast use vstd::std_specs::hash::group_hash_axioms;

        let mut obj = self.objs.remove(&addr.0).unwrap();
        obj.fields[index] = value;
        self.objs.insert(addr.0, obj);
        assert(self@ =~= old(self)@.insert(
            addr,
            ObjView { fields: old(self)@[addr].fields.update(index as int, value), ..old(self)@[addr] },
        ));
    }

    /// Moves the object at `src` to `dest`: afterwards it starts at `dest`,
    /// and no object starts at `src`. The object may only move downwards or
    /// to where it does not lie, and no other object may lie where it goes.
    pub fn copy_to(&mut self, src: Address, dest: Address)
        requires
            old(self)@.contains_key(src),
            dest@ <= src@ || src@ + old(self)@[src].size <= dest@,
            forall|other: Address| #[trigger]
                old(self)@.contains_key(other) && other != src ==> other@ + old(self)@[other].size
                    <= dest@ || dest@ + old(self)@[src].size <= other@,
        ensures
            final(self)@ == old(self)@.remove(src).insert(dest, old(self)@[src]),
    {
        broadcast use vstd::std_specs::hash::group_hash_axioms;

        let obj = self.objs.remove(&src.0).unwrap();
        self.objs.insert(dest.0, obj);
        assert(self@ =~= old(self)@.remove(src).insert(dest, old(self)@[src]));
    }

    /// Gives up the object at `addr`.
    pub fn remove(&mut self, addr: Address)
        requires
            old(self)@.contains_key(addr),
        ensures
            final(self)@ == old(self)@.remove(addr),
    {
        broadcast use vstd::std_specs::hash::group_hash_axioms;

        self.objs.remove(&addr.0);
        assert(self@ =~= old(self)@.remove(addr));
    }

    /// Puts `obj` at `addr`, where no object starts yet.
    pub fn insert(&mut self, addr: Address, obj: Obj)
        requires
            !old(self)@.contains_key(addr),
        ensures
            final(self)@ == old(self)@.insert(addr, obj@),
    {
        broadcast use vstd::std_specs::hash::group_hash_axioms;

        self.objs.insert(addr.0, obj);
        assert(self@ =~= old(self)@.insert(addr, obj@));
    }
}

} // verus!
