//! The full collector: marks what the roots reach, computes where each
//! marked object goes, updates the references, relocates the objects into
//! the old generation, sweeps the large object space and resets the cards.

use crate::address::{Address, Region};
use crate::card::CardTableView;
use crate::compact::{
    crossing_ok, forwarding, lemma_crossing_same, lemma_crossing_start, lemma_crossing_step,
    lemma_forwarding_end, lemma_forwarding_next, lemma_forwarding_start, lemma_forwarding_step,
    lemma_live_bytes_mono, lemma_order, lemma_relocating_drop, lemma_relocating_end,
    lemma_relocating_move, lemma_relocating_next, lemma_relocating_placed, lemma_relocating_start,
    lemma_sweeping_large_end, lemma_sweeping_large_start, lemma_sweeping_large_step,
    lemma_tiled_cards, lemma_updating_end, lemma_updating_field, lemma_updating_next,
    lemma_updating_object, lemma_updating_start, marks_of, relocating, sweeping_large, sweeps,
    updating,
};
use crate::heap::{Heap, HeapView, Layout, tiled};
use crate::large::{
    LARGE_ALLOC_SIZE, Range, covered, dropped, kept, lemma_kept_members, sorted_apart,
};
use crate::laws::{lemma_compacted, lemma_marked};
use crate::mark::{mark_live, verify_marking};
use crate::mem::spec_page_align;
use crate::object::ObjView;
use crate::old_gen::{OldRegion, card_of};
use crate::young_gen::{Block, YoungGen};
use vstd::prelude::*;

verus! {

/// Why a collection runs.
#[derive(Copy, Clone, PartialEq, Eq, Structural, Debug)]
pub enum GcReason {
    PromotionFailure,
    AllocationFailure,
    ForceCollect,
    ForceMinorCollect,
}

/// A place that holds a reference: a root, by its index in the rootset, or
/// a reference field of an object, by the object's address and the field's index.
#[derive(Copy, Clone, PartialEq, Eq, Structural, Debug)]
pub enum Slot {
    Root(usize),
    Field(Address, usize),
}

/// Whether `after` is the card table `before` with the cards of the first
/// `done` large objects reset.
#[verifier::opaque]
pub open spec fn large_cards_reset(
    before: CardTableView,
    mem: Map<Address, ObjView>,
    large: Seq<Address>,
    done: int,
    after: CardTableView,
) -> bool {
    &&& after.start == before.start
    &&& after.dirty.len() == before.dirty.len()
    &&& forall|c: int|
        0 <= c < before.dirty.len() ==> #[trigger] after.dirty[c] == (before.dirty[c] && !exists|
            j: int,
        |
            0 <= j < done && #[trigger] before.object_card(
                c,
                large[j],
                mem[large[j]].size,
                mem[large[j]].array_ref,
            ))
}

/// The higher of two addresses.
pub open spec fn higher(a: Address, b: Address) -> Address {
    if a@ >= b@ {
        a
    } else {
        b
    }
}

/// Whether `after` is the card table `before` with the cards of the first
/// `done` regions reset, each from its start up to the higher of its top
/// and the top in `tops`.
#[verifier::opaque]
pub open spec fn region_cards_reset(
    before: CardTableView,
    regions: Seq<OldRegion>,
    tops: Seq<Address>,
    done: int,
    after: CardTableView,
) -> bool {
    &&& after.start == before.start
    &&& after.dirty.len() == before.dirty.len()
    &&& forall|c: int|
        0 <= c < before.dirty.len() ==> #[trigger] after.dirty[c] == (before.dirty[c] && !exists|
            r: int,
        |
            0 <= r < done && #[trigger] before.touches(
                c,
                regions[r].start,
                higher(regions[r].top, tops[r]),
            ))
}

/// What a collection leaves to be done with the memory of the heap: the
/// range of the old generation that has to be backed with memory, the range
/// of it whose memory has to be released, and the ranges that the large
/// object space gave up.
pub struct Released {
    pub commit: Option<Region>,
    pub forget: Option<Region>,
    pub large: Vec<Range>,
}

/// A collection of the whole heap.
pub struct FullCollector {
    pub heap: Heap,
    pub rootset: Vec<Address>,
    pub old_top: Address,
    pub old_limit: Address,
    pub old_committed: Region,
    pub init_old_top: Vec<Address>,
    pub reason: GcReason,
    pub min_heap_size: usize,
    pub max_heap_size: usize,
    pub verify: bool,
}

impl FullCollector {
    /// Whether the collector is `other` but for the memory of its heap, its
    /// rootset, and the top of the old generation that it computes.
    pub open spec fn same_frame(&self, other: FullCollector) -> bool {
        &&& self.heap.same_but_memory(other.heap)
        &&& self.old_limit == other.old_limit
        &&& self.old_committed == other.old_committed
        &&& self.init_old_top == other.init_old_top
        &&& self.reason == other.reason
        &&& self.min_heap_size == other.min_heap_size
        &&& self.max_heap_size == other.max_heap_size
        &&& self.verify == other.verify
    }

    /// A collector for `heap` with the roots `rootset`; `verify` asks for the
    /// marks to be checked after marking.
    pub fn new(
        heap: Heap,
        rootset: Vec<Address>,
        reason: GcReason,
        min_heap_size: usize,
        max_heap_size: usize,
        verify: bool,
    ) -> (r: FullCollector)
        ensures
            r.heap == heap,
            r.rootset == rootset,
            r.old_top == heap.old.total.start,
            r.old_limit == heap.old.total.end,
            r.old_committed == (Region { start: Address(0), end: Address(0) }),
            r.init_old_top@ == Seq::<Address>::empty(),
            r.reason == reason,
            r.min_heap_size == min_heap_size,
            r.max_heap_size == max_heap_size,
            r.verify == verify,
    {
        let old_total = heap.old.total();
        FullCollector {
            heap,
            rootset,
            old_top: old_total.start,
            old_limit: old_total.end,
            old_committed: Region::empty(),
            init_old_top: Vec::new(),
            reason,
            min_heap_size,
            max_heap_size,
            verify,
        }
    }

    /// Sets the mark bit of every object that can be reached from the
    /// rootset, and of no other.
    pub fn mark_live(&mut self)
        requires
            old(self).heap.wf(),
            old(self).heap@.unmarked(),
            old(self).heap@.valid_refs(old(self).rootset@),
        ensures
            final(self).heap@ == old(self).heap@.marked(old(self).rootset@),
            final(self).heap.wf(),
            final(self).same_frame(*old(self)),
            final(self).rootset == old(self).rootset,
            final(self).old_top == old(self).old_top,
    {
        mark_live(&mut self.heap, &self.rootset);
    }

    /// The objects outside the large object space in the order in which
    /// each phase walks them: those of the regions of the old generation,
    /// then those of eden, of the from-space and of the to-space.
    pub fn walk_old_and_young(&self) -> (r: Vec<Address>)
        requires
            self.heap.tiling_ok(),
        ensures
            r@ == self.heap@.order(),
    {
        self.heap.walk_old_and_young()
    }

    /// Takes `object_size` bytes at the top of the old generation as it will
    /// be after the collection, and returns where they start.
    pub fn allocate(&mut self, object_size: usize) -> (r: Address)
        requires
            old(self).old_top@ + object_size <= old(self).old_limit@,
        ensures
            r == old(self).old_top,
            final(self).old_top@ == old(self).old_top@ + object_size,
            final(self).same_frame(*old(self)),
            final(self).heap.memory == old(self).heap.memory,
            final(self).rootset == old(self).rootset,
    {
        let addr = self.old_top;
        let next = self.old_top.offset(object_size);
        self.old_top = next;
        addr
    }

    /// Writes into the forwarding slot of each marked object outside the
    /// large object space the place it goes to, and commits the pages of the
    /// old generation up to the top it will have. Returns the range that has
    /// to be backed with memory, if any.
    pub fn compute_forward(&mut self) -> (commit: Option<Region>)
        requires
            old(self).heap.wf(),
            old(self).heap@.fits(),
            old(self).old_top == old(self).heap.old.total.start,
            old(self).old_limit == old(self).heap.old.total.end,
        ensures
            old(self).heap@.forwards(final(self).heap.memory@),
            final(self).old_top == old(self).heap@.new_top(),
            final(self).reason == old(self).reason,
            final(self).min_heap_size == old(self).min_heap_size,
            final(self).max_heap_size == old(self).max_heap_size,
            ({
                let limit = spec_page_align(old(self).heap@.new_top()@);
                let committed = old(self).heap.old.protected.committed;
                if committed@ < limit {
                    final(self).heap.old.protected.committed@ == limit && commit == Some(
                        Region { start: committed, end: final(self).heap.old.protected.committed },
                    )
                } else {
                    final(self).heap.old.protected.committed == committed && commit.is_none()
                }
            }),
            final(self).old_committed == (Region {
                start: old(self).heap.old.total.start,
                end: final(self).old_top,
            }),
            final(self).rootset == old(self).rootset,
            final(self).old_limit == old(self).old_limit,
            final(self).init_old_top == old(self).init_old_top,
            final(self).heap.layout == old(self).heap.layout,
            final(self).heap.young == old(self).heap.young,
            final(self).heap.total == old(self).heap.total,
            final(self).heap.old.total == old(self).heap.old.total,
            final(self).heap.old.protected.regions == old(self).heap.old.protected.regions,
            final(self).heap.old.wf(),
            final(self).heap.large_space == old(self).heap.large_space,
            final(self).heap.card_table == old(self).heap.card_table,
            final(self).heap.crossing_map == old(self).heap.crossing_map,
            final(self).heap.perm_space == old(self).heap.perm_space,
            final(self).heap.config == old(self).heap.config,
            final(self).verify == old(self).verify,
            final(self).reason == old(self).reason,
            final(self).min_heap_size == old(self).min_heap_size,
            final(self).max_heap_size == old(self).max_heap_size,
    {
        let ghost start = self.heap@;
        let order = self.walk_old_and_young();
        let mut i: usize = 0;
        proof {
            lemma_forwarding_start(start);
        }
        while i < order.len()
            invariant
                i <= order.len(),
                order@ == start.order(),
                start == old(self).heap@,
                start.wf(),
                start.fits(),
                self.same_frame(*old(self)),
                self.rootset == old(self).rootset,
                self.old_limit == start.old_total.end,
                self.old_top == start.dest(i as int),
                forwarding(start, self.heap.memory@, i as int),
            decreases order.len() - i,
        {
            let addr = order[i];
            let ghost before = self.heap.memory@;
            proof {
                lemma_forwarding_next(start, before, i as int);
            }
            if self.heap.memory.is_marked(addr) {
                let object_size = self.heap.memory.size(addr);
                let fwd = self.allocate(object_size);
                self.heap.memory.set_fwdptr(addr, fwd);
            }
            proof {
                lemma_forwarding_step(start, before, i as int, self.heap.memory@);
            }
            i += 1;
        }
        proof {
            lemma_forwarding_end(start, self.heap.memory@);
            lemma_live_bytes_mono(start, 0, order@.len() as int);
        }
        let commit = self.heap.old.protected.commit_single_region(self.old_top);
        self.old_committed = Region::new(self.heap.old.total_start(), self.old_top);
        commit
    }

    /// Whether `slot` is a root of the rootset or a field of an object.
    pub open spec fn slot_ok(&self, slot: Slot) -> bool {
        match slot {
            Slot::Root(index) => index < self.rootset@.len(),
            Slot::Field(addr, index) => self.heap.memory@.contains_key(addr) && index
                < self.heap.memory@[addr].fields.len(),
        }
    }

    /// The reference that `slot` holds.
    pub open spec fn slot_value(&self, slot: Slot) -> Address {
        match slot {
            Slot::Root(index) => self.rootset@[index as int],
            Slot::Field(addr, index) => self.heap.memory@[addr].fields[index as int],
        }
    }

    /// Forwards the reference in `slot`: where it points to an object that
    /// moves, the slot gets what the forwarding slot of that object holds;
    /// null and references into the perm space or the large object space stay.
    pub fn forward_reference(&mut self, slot: Slot)
        requires
            old(self).slot_ok(slot),
            old(self).heap@.moves(old(self).slot_value(slot))
                ==> old(self).heap.memory@.contains_key(old(self).slot_value(slot)),
            old(self).heap.large_space.spec_total() == old(self).heap@.large_total,
        ensures
            final(self).same_frame(*old(self)),
            final(self).old_top == old(self).old_top,
            match slot {
                Slot::Root(index) => {
                    &&& final(self).heap.memory == old(self).heap.memory
                    &&& final(self).rootset@ == old(self).rootset@.update(
                        index as int,
                        old(self).heap@.forward(old(self).slot_value(slot)),
                    )
                },
                Slot::Field(addr, index) => {
                    &&& final(self).rootset == old(self).rootset
                    &&& final(self).heap.memory@ == old(self).heap.memory@.insert(
                        addr,
                        ObjView {
                            fields: old(self).heap.memory@[addr].fields.update(
                                index as int,
                                old(self).heap@.forward(old(self).slot_value(slot)),
                            ),
                            ..old(self).heap.memory@[addr]
                        },
                    )
                },
            },
    {
        let object_addr = match slot {
            Slot::Root(index) => self.rootset[index],
            Slot::Field(addr, index) => self.heap.memory.field(addr, index),
        };
        if self.heap.total.contains(object_addr) && !self.heap.large_space.contains(object_addr) {
            let fwd_addr = self.heap.memory.fwdptr(object_addr);
            match slot {
                Slot::Root(index) => {
                    self.rootset[index] = fwd_addr;
                },
                Slot::Field(addr, index) => {
                    self.heap.memory.set_field(addr, index, fwd_addr);
                },
            }
        } else {
            proof {
                match slot {
                    Slot::Root(index) => {
                        assert(self.rootset@ =~= old(self).rootset@.update(
                            index as int,
                            object_addr,
                        ));
                    },
                    Slot::Field(addr, index) => {
                        let obj = self.heap.memory@[addr];
                        assert(obj.fields =~= obj.fields.update(index as int, object_addr));
                        assert(self.heap.memory@ =~= self.heap.memory@.insert(addr, obj));
                    },
                }
            }
        }
    }

    /// Forwards every reference field of the object at `addr`, the next of
    /// the objects of the heap to be seen, if it is marked.
    fn update_object(&mut self, addr: Address, Ghost(start): Ghost<HeapView>, Ghost(done): Ghost<int>)
        requires
            start.wf(),
            start == (HeapView { mem: start.mem, ..old(self).heap@ }),
            old(self).heap.large_space.spec_total() == start.large_total,
            updating(start, old(self).heap.memory@, done, 0),
            done < start.objects().len(),
            addr == start.objects()[done],
        ensures
            updating(start, final(self).heap.memory@, done + 1, 0),
            final(self).same_frame(*old(self)),
            final(self).old_top == old(self).old_top,
            final(self).rootset == old(self).rootset,
    {
        proof {
            lemma_updating_next(start, self.heap.memory@, done, 0);
        }
        if self.heap.memory.is_marked(addr) {
            let count = self.heap.memory.field_count(addr);
            let mut k: usize = 0;
            while k < count
                invariant
                    k <= count,
                    start.wf(),
                    start == (HeapView { mem: start.mem, ..self.heap@ }),
                    self.heap.large_space.spec_total() == start.large_total,
                    done < start.objects().len(),
                    addr == start.objects()[done],
                    count == start.mem[addr].fields.len(),
                    start.mem[addr].marked,
                    updating(start, self.heap.memory@, done, k as int),
                    self.same_frame(*old(self)),
                    self.old_top == old(self).old_top,
                    self.rootset == old(self).rootset,
                decreases count - k,
            {
                let ghost before = self.heap.memory@;
                proof {
                    lemma_updating_next(start, before, done, k as int);
                }
                self.forward_reference(Slot::Field(addr, k));
                proof {
                    lemma_updating_field(start, before, done, k as int, self.heap.memory@);
                }
                k += 1;
            }
        }
        proof {
            lemma_updating_object(
                start,
                self.heap.memory@,
                done,
                if start.mem[addr].marked {
                    start.mem[addr].fields.len() as int
                } else {
                    0
                },
            );
        }
    }

    /// Forwards every reference of the marked objects and of the rootset.
    pub fn update_references(&mut self)
        requires
            old(self).heap.wf(),
            old(self).heap@.valid_refs(old(self).rootset@),
        ensures
            old(self).heap@.updates(final(self).heap.memory@),
            final(self).rootset@ == old(self).rootset@.map_values(
                |v: Address| old(self).heap@.forward(v),
            ),
            final(self).same_frame(*old(self)),
            final(self).old_top == old(self).old_top,
    {
        let ghost start = self.heap@;
        let ghost roots = self.rootset@;
        let order = self.walk_old_and_young();
        let large = self.heap.large_space.visit_objects();
        let mut i: usize = 0;
        proof {
            lemma_updating_start(start);
        }
        while i < order.len()
            invariant
                i <= order.len(),
                order@ == start.order(),
                large@ == start.large_objects,
                start.wf(),
                start == (HeapView { mem: start.mem, ..self.heap@ }),
                self.heap.large_space.spec_total() == start.large_total,
                updating(start, self.heap.memory@, i as int, 0),
                self.same_frame(*old(self)),
                self.old_top == old(self).old_top,
                self.rootset == old(self).rootset,
            decreases order.len() - i,
        {
            self.update_object(order[i], Ghost(start), Ghost(i as int));
            i += 1;
        }
        let mut r: usize = 0;
        while r < self.rootset.len()
            invariant
                r <= self.rootset@.len(),
                self.rootset@.len() == roots.len(),
                order@ == start.order(),
                large@ == start.large_objects,
                start.wf(),
                start.valid_refs(roots),
                start == (HeapView { mem: start.mem, ..self.heap@ }),
                self.heap.large_space.spec_total() == start.large_total,
                updating(start, self.heap.memory@, order@.len() as int, 0),
                self.same_frame(*old(self)),
                self.old_top == old(self).old_top,
                forall|x: int|
                    0 <= x < roots.len() ==> #[trigger] self.rootset@[x] == if x < r {
                        start.forward(roots[x])
                    } else {
                        roots[x]
                    },
            decreases self.rootset@.len() - r,
        {
            proof {
                assert(start.valid_ref(roots[r as int]));
                reveal(updating);
                let value = roots[r as int];
                assert(self.rootset@[r as int] == value);
                if start.moves(value) {
                    assert(self.heap.memory@.contains_key(value));
                }
                assert(self.heap@.forward(value) == start.forward(value));
            }
            self.forward_reference(Slot::Root(r));
            r += 1;
        }
        let mut j: usize = 0;
        while j < large.len()
            invariant
                j <= large.len(),
                order@ == start.order(),
                large@ == start.large_objects,
                start.wf(),
                start == (HeapView { mem: start.mem, ..self.heap@ }),
                self.heap.large_space.spec_total() == start.large_total,
                updating(start, self.heap.memory@, order@.len() + j, 0),
                self.same_frame(*old(self)),
                self.old_top == old(self).old_top,
                self.rootset@ == roots.map_values(|v: Address| start.forward(v)),
            decreases large.len() - j,
        {
            self.update_object(large[j], Ghost(start), Ghost(order@.len() + j));
            j += 1;
        }
        proof {
            lemma_updating_end(start, self.heap.memory@);
        }
    }

    /// Moves each marked object outside the large object space to the place
    /// in its forwarding slot, clears its mark there and records it in the
    /// crossing map; gives up the objects that are not marked. Returns the
    /// objects that then fill the old generation.
    fn relocate(&mut self, Ghost(base): Ghost<HeapView>) -> (placed: Ghost<Seq<Address>>)
        requires
            base.wf(),
            base.fits(),
            base.is_forwarded(),
            base.same_headers(old(self).heap.memory@),
            base == (HeapView { mem: base.mem, ..old(self).heap@ }),
            old(self).heap.tiling_ok(),
            old(self).heap.tables_ok(),
            old(self).heap.old.wf(),
        ensures
            (HeapView { mem: old(self).heap.memory@, ..base }).relocates(final(self).heap.memory@),
            tiled(final(self).heap.memory@, base.old_total.start, base.new_top(), placed@),
            forall|k: int|
                0 <= k < base.order().len() && base.mem[#[trigger] base.order()[k]].marked
                    ==> placed@.contains(base.dest(k)),
            final(self).heap.crossing_map@.len() == old(self).heap.crossing_map@.len(),
            crossing_ok(
                final(self).heap.crossing_map@,
                base.old_total.start,
                final(self).heap.memory@,
                placed@,
                base.new_top(),
            ),
            forall|c: int|
                card_of(base.old_total.start, base.new_top()) < c < old(self).heap.crossing_map@.len()
                    ==> #[trigger] final(self).heap.crossing_map@[c]
                    == old(self).heap.crossing_map@[c],
            final(self).heap.layout == old(self).heap.layout,
            final(self).heap.young == old(self).heap.young,
            final(self).heap.total == old(self).heap.total,
            final(self).heap.old == old(self).heap.old,
            final(self).heap.large_space == old(self).heap.large_space,
            final(self).heap.card_table == old(self).heap.card_table,
            final(self).heap.perm_space == old(self).heap.perm_space,
            final(self).heap.config == old(self).heap.config,
            final(self).rootset == old(self).rootset,
            final(self).old_top == old(self).old_top,
            final(self).old_limit == old(self).old_limit,
            final(self).old_committed == old(self).old_committed,
            final(self).init_old_top == old(self).init_old_top,
            final(self).verify == old(self).verify,
            final(self).reason == old(self).reason,
            final(self).min_heap_size == old(self).min_heap_size,
            final(self).max_heap_size == old(self).max_heap_size,
    {
        let ghost src = self.heap.memory@;
        let ghost mut placed: Seq<Address> = Seq::empty();
        proof {
            crate::old_gen::lemma_card_of_mono(
                self.heap.old.total.start,
                self.heap.old.total.start,
                self.heap.old.total.end,
            );
        }
        self.heap.crossing_map.set_first_object(0, 0);
        let order = self.walk_old_and_young();
        let mut i: usize = 0;
        proof {
            lemma_relocating_start(base, src);
            lemma_live_bytes_mono(base, 0, 0);
            assert(base.dest(0) == base.old_total.start);
            lemma_crossing_start(self.heap.crossing_map@, base.old_total.start, src);
            crate::old_gen::lemma_card_of_mono(
                base.old_total.start,
                base.old_total.start,
                base.old_total.start,
            );
        }
        while i < order.len()
            invariant
                i <= order.len(),
                order@ == base.order(),
                base.wf(),
                base.fits(),
                base.is_forwarded(),
                base.same_headers(src),
                base.old_total == self.heap.old.total,
                self.heap.old.total.wf(),
                card_of(self.heap.old.total.start, self.heap.old.total.end)
                    < self.heap.crossing_map@.len(),
                relocating(base, src, self.heap.memory@, i as int, placed),
                crossing_ok(
                    self.heap.crossing_map@,
                    base.old_total.start,
                    self.heap.memory@,
                    placed,
                    base.dest(i as int),
                ),
                0 <= card_of(base.old_total.start, base.dest(i as int)),
                forall|c: int|
                    card_of(base.old_total.start, base.dest(i as int)) < c
                        < self.heap.crossing_map@.len() ==> #[trigger] self.heap.crossing_map@[c]
                        == old(self).heap.crossing_map@[c],
                self.heap.crossing_map@.len() == old(self).heap.crossing_map@.len(),
                self.heap.layout == old(self).heap.layout,
                self.heap.young == old(self).heap.young,
                self.heap.total == old(self).heap.total,
                self.heap.old == old(self).heap.old,
                self.heap.large_space == old(self).heap.large_space,
                self.heap.card_table == old(self).heap.card_table,
                self.heap.perm_space == old(self).heap.perm_space,
                self.heap.config == old(self).heap.config,
                self.rootset == old(self).rootset,
                self.old_top == old(self).old_top,
                self.old_limit == old(self).old_limit,
                self.old_committed == old(self).old_committed,
                self.init_old_top == old(self).init_old_top,
                self.verify == old(self).verify,
                self.reason == old(self).reason,
                self.min_heap_size == old(self).min_heap_size,
                self.max_heap_size == old(self).max_heap_size,
            decreases order.len() - i,
        {
            let address = order[i];
            let ghost before = self.heap.memory@;
            let ghost map = self.heap.crossing_map@;
            proof {
                lemma_relocating_next(base, src, before, i as int, placed);
            }
            if self.heap.memory.is_marked(address) {
                let dest = self.heap.memory.fwdptr(address);
                let object_size = self.heap.memory.size(address);
                let next_dest = dest.offset(object_size);
                if address.0 != dest.0 {
                    self.heap.memory.copy_to(address, dest);
                }
                self.heap.memory.unmark(dest);
                let array_ref = self.heap.memory.is_array_ref(dest);
                proof {
                    let total = self.heap.old.total;
                    crate::old_gen::lemma_card_of_mono(total.start, next_dest, total.end);
                }
                self.heap.old.update_crossing(
                    &mut self.heap.crossing_map,
                    dest,
                    next_dest,
                    array_ref,
                );
                proof {
                    assert(self.heap.memory@ =~= before.remove(address).insert(
                        dest,
                        ObjView { marked: false, ..before[address] },
                    ));
                    lemma_relocating_placed(base, src, before, i as int, placed, self.heap.memory@);
                    lemma_tiled_cards(before, base.old_total.start, dest, placed);
                    crate::old_gen::lemma_card_of_mono(base.old_total.start, dest, next_dest);
                    lemma_crossing_step(
                        map,
                        base.old_total.start,
                        before,
                        placed,
                        dest,
                        self.heap.memory@,
                        next_dest,
                    );
                    lemma_relocating_move(base, src, before, i as int, placed, self.heap.memory@);
                    placed = placed.push(dest);
                }
            } else {
                self.heap.memory.remove(address);
                proof {
                    lemma_relocating_placed(base, src, before, i as int, placed, self.heap.memory@);
                    lemma_crossing_same(
                        map,
                        base.old_total.start,
                        before,
                        self.heap.memory@,
                        placed,
                        base.dest(i as int),
                    );
                    lemma_relocating_drop(base, src, before, i as int, placed, self.heap.memory@);
                }
            }
            i += 1;
        }
        proof {
            lemma_relocating_end(base, src, self.heap.memory@, placed);
        }
        Ghost(placed)
    }

    /// Sweeps the large object space: resets the cards of each large object,
    /// gives up those that are not marked, and clears the mark of the others.
    /// Returns the ranges that the space gave up.
    pub fn update_large_objects(&mut self) -> (freed: Vec<Range>)
        requires
            old(self).heap.large_space.wf(),
            old(self).heap.card_table.wf(),
            old(self).heap.card_table@.start == old(self).heap.total.start,
            old(self).heap.total.end@ <= old(self).heap.card_table@.limit(),
            old(self).heap@.large_objects.no_duplicates(),
            forall|j: int|
                0 <= j < old(self).heap@.large_objects.len() ==> old(self).heap@.object_ok(
                    #[trigger] old(self).heap@.large_objects[j],
                ),
        ensures
            sweeps(
                old(self).heap.memory@,
                old(self).heap@.large_objects,
                final(self).heap.memory@,
            ),
            final(self).heap.large_space.wf(),
            final(self).heap.large_space.spec_total() == old(self).heap.large_space.spec_total(),
            final(self).heap.large_space@.total == old(self).heap.large_space@.total,
            final(self).heap.large_space@.live == kept(
                old(self).heap.large_space@.live,
                marks_of(old(self).heap.memory@, old(self).heap@.large_objects),
            ),
            freed@ == dropped(
                old(self).heap.large_space@.live,
                marks_of(old(self).heap.memory@, old(self).heap@.large_objects),
            ),
            freed@.len() == 0 ==> final(self).heap.large_space@.free
                == old(self).heap.large_space@.free,
            freed@.len() > 0 ==> sorted_apart(final(self).heap.large_space@.free),
            forall|ptr: Address|
                covered(final(self).heap.large_space@.free, ptr) == covered(
                    old(self).heap.large_space@.free + freed@,
                    ptr,
                ),
            final(self).heap.card_table.wf(),
            final(self).heap.card_table@.start == old(self).heap.card_table@.start,
            final(self).heap.card_table@.dirty.len() == old(self).heap.card_table@.dirty.len(),
            large_cards_reset(
                old(self).heap.card_table@,
                old(self).heap.memory@,
                old(self).heap@.large_objects,
                old(self).heap@.large_objects.len() as int,
                final(self).heap.card_table@,
            ),
            final(self).heap.crossing_map == old(self).heap.crossing_map,
            final(self).heap.layout == old(self).heap.layout,
            final(self).heap.young == old(self).heap.young,
            final(self).heap.total == old(self).heap.total,
            final(self).heap.old == old(self).heap.old,
            final(self).heap.perm_space == old(self).heap.perm_space,
            final(self).heap.config == old(self).heap.config,
            final(self).rootset == old(self).rootset,
            final(self).old_top == old(self).old_top,
            final(self).old_limit == old(self).old_limit,
            final(self).old_committed == old(self).old_committed,
            final(self).init_old_top == old(self).init_old_top,
            final(self).verify == old(self).verify,
            final(self).reason == old(self).reason,
            final(self).min_heap_size == old(self).min_heap_size,
            final(self).max_heap_size == old(self).max_heap_size,
    {
        let ghost before = self.heap.memory@;
        let ghost large = self.heap@.large_objects;
        let ghost cards = self.heap.card_table@;
        let objects = self.heap.large_space.visit_objects();
        let mut keep: Vec<bool> = Vec::new();
        let mut j: usize = 0;
        proof {
            lemma_sweeping_large_start(before, large);
            reveal(large_cards_reset);
        }
        while j < objects.len()
            invariant
                j <= objects.len(),
                objects@ == large,
                large.no_duplicates(),
                forall|x: int|
                    0 <= x < large.len() ==> {
                        &&& before.contains_key(#[trigger] large[x])
                        &&& before[large[x]].size > 0
                        &&& self.heap.total.start@ <= large[x]@
                        &&& large[x]@ + before[large[x]].size <= self.heap.total.end@
                    },
                keep@ == marks_of(before, large).take(j as int),
                sweeping_large(before, large, self.heap.memory@, j as int),
                self.heap.card_table.wf(),
                cards.start == self.heap.total.start,
                self.heap.total.end@ <= cards.limit(),
                large_cards_reset(cards, before, large, j as int, self.heap.card_table@),
                self.heap.large_space == old(self).heap.large_space,
                self.heap.crossing_map == old(self).heap.crossing_map,
                self.heap.layout == old(self).heap.layout,
                self.heap.young == old(self).heap.young,
                self.heap.total == old(self).heap.total,
                self.heap.old == old(self).heap.old,
                self.heap.perm_space == old(self).heap.perm_space,
                self.heap.config == old(self).heap.config,
                self.rootset == old(self).rootset,
                self.old_top == old(self).old_top,
                self.old_limit == old(self).old_limit,
                self.old_committed == old(self).old_committed,
                self.init_old_top == old(self).init_old_top,
                self.verify == old(self).verify,
                self.reason == old(self).reason,
                self.min_heap_size == old(self).min_heap_size,
                self.max_heap_size == old(self).max_heap_size,
            decreases objects.len() - j,
        {
            let object_start = objects[j];
            let ghost mem = self.heap.memory@;
            let ghost table = self.heap.card_table@;
            proof {
                reveal(large_cards_reset);
                assert(before.contains_key(large[j as int]));
                lemma_sweeping_large_step(
                    before,
                    large,
                    mem,
                    j as int,
                    if before[large[j as int]].marked {
                        mem.insert(object_start, ObjView { marked: false, ..mem[object_start] })
                    } else {
                        mem.remove(object_start)
                    },
                );
            }
            let array_ref = self.heap.memory.is_array_ref(object_start);
            let size = self.heap.memory.size(object_start);
            if array_ref {
                let object_end = object_start.offset(size);
                self.heap.card_table.reset_region(object_start, object_end);
            } else {
                self.heap.card_table.reset_addr(object_start);
            }
            proof {
                reveal(large_cards_reset);
                let now = self.heap.card_table@;
                assert forall|c: int| 0 <= c < cards.dirty.len() implies #[trigger] now.dirty[c] == (
                cards.dirty[c] && !exists|x: int|
                    0 <= x < j + 1 && #[trigger] cards.object_card(
                        c,
                        large[x],
                        before[large[x]].size,
                        before[large[x]].array_ref,
                    )) by {
                    let hit = cards.object_card(c, large[j as int], size, array_ref);
                    assert(now.dirty[c] == (table.dirty[c] && !hit));
                    if exists|x: int|
                        0 <= x < j + 1 && #[trigger] cards.object_card(
                            c,
                            large[x],
                            before[large[x]].size,
                            before[large[x]].array_ref,
                        ) {
                        let x = choose|x: int|
                            0 <= x < j + 1 && #[trigger] cards.object_card(
                                c,
                                large[x],
                                before[large[x]].size,
                                before[large[x]].array_ref,
                            );
                        if x < j {
                            assert(cards.object_card(
                                c,
                                large[x],
                                before[large[x]].size,
                                before[large[x]].array_ref,
                            ));
                        }
                    }
                }
            }
            if !self.heap.memory.is_marked(object_start) {
                self.heap.memory.remove(object_start);
                keep.push(false);
            } else {
                self.heap.memory.unmark(object_start);
                keep.push(true);
            }
            proof {
                assert(marks_of(before, large).take(j + 1) =~= marks_of(before, large).take(
                    j as int,
                ).push(before[large[j as int]].marked));
            }
            j += 1;
        }
        proof {
            lemma_sweeping_large_end(before, large, self.heap.memory@);
            assert(marks_of(before, large).take(j as int) =~= marks_of(before, large));
            reveal(large_cards_reset);
        }
        self.heap.large_space.remove_objects(&keep)
    }

    /// Resets the cards of the old generation: for each region, those from
    /// its start up to the higher of its top and the top it had when the
    /// collection started.
    pub fn reset_cards(&mut self)
        requires
            old(self).heap.card_table.wf(),
            old(self).heap.card_table@.start == old(self).heap.total.start,
            old(self).heap.total.end@ <= old(self).heap.card_table@.limit(),
            old(self).heap.old.wf(),
            old(self).heap.old.total.within(old(self).heap.total),
            old(self).init_old_top@.len() == old(self).heap.old.protected.regions@.len(),
            forall|r: int|
                0 <= r < old(self).init_old_top@.len() ==> (#[trigger] old(self).init_old_top@[r])@
                    <= old(self).heap.old.total.end@,
        ensures
            final(self).heap.card_table.wf(),
            final(self).heap.card_table@.start == old(self).heap.card_table@.start,
            final(self).heap.card_table@.dirty.len() == old(self).heap.card_table@.dirty.len(),
            region_cards_reset(
                old(self).heap.card_table@,
                old(self).heap.old.protected.regions@,
                old(self).init_old_top@,
                old(self).init_old_top@.len() as int,
                final(self).heap.card_table@,
            ),
            final(self).heap.memory == old(self).heap.memory,
            final(self).heap.large_space == old(self).heap.large_space,
            final(self).heap.crossing_map == old(self).heap.crossing_map,
            final(self).heap.layout == old(self).heap.layout,
            final(self).heap.young == old(self).heap.young,
            final(self).heap.total == old(self).heap.total,
            final(self).heap.old == old(self).heap.old,
            final(self).heap.perm_space == old(self).heap.perm_space,
            final(self).heap.config == old(self).heap.config,
            final(self).rootset == old(self).rootset,
            final(self).old_top == old(self).old_top,
            final(self).old_limit == old(self).old_limit,
            final(self).old_committed == old(self).old_committed,
            final(self).init_old_top == old(self).init_old_top,
            final(self).verify == old(self).verify,
            final(self).reason == old(self).reason,
            final(self).min_heap_size == old(self).min_heap_size,
            final(self).max_heap_size == old(self).max_heap_size,
    {
        let ghost cards = self.heap.card_table@;
        let ghost regions = self.heap.old.protected.regions@;
        let ghost tops = self.init_old_top@;
        let count = self.init_old_top.len();
        let mut r: usize = 0;
        proof {
            reveal(region_cards_reset);
        }
        while r < count
            invariant
                r <= count,
                count == tops.len(),
                count == regions.len(),
                regions == self.heap.old.protected.regions@,
                tops == self.init_old_top@,
                self.heap.old.wf(),
                self.heap.old.total.within(self.heap.total),
                forall|x: int| 0 <= x < tops.len() ==> (#[trigger] tops[x])@ <= self.heap.old.total.end@,
                self.heap.card_table.wf(),
                cards.start == self.heap.total.start,
                self.heap.total.end@ <= cards.limit(),
                region_cards_reset(cards, regions, tops, r as int, self.heap.card_table@),
                self.heap.memory == old(self).heap.memory,
                self.heap.large_space == old(self).heap.large_space,
                self.heap.crossing_map == old(self).heap.crossing_map,
                self.heap.layout == old(self).heap.layout,
                self.heap.young == old(self).heap.young,
                self.heap.total == old(self).heap.total,
                self.heap.old == old(self).heap.old,
                self.heap.perm_space == old(self).heap.perm_space,
                self.heap.config == old(self).heap.config,
                self.rootset == old(self).rootset,
                self.old_top == old(self).old_top,
                self.old_limit == old(self).old_limit,
                self.old_committed == old(self).old_committed,
                self.init_old_top == old(self).init_old_top,
                self.verify == old(self).verify,
                self.reason == old(self).reason,
                self.min_heap_size == old(self).min_heap_size,
                self.max_heap_size == old(self).max_heap_size,
            decreases count - r,
        {
            let region = self.heap.old.protected.regions[r];
            let init_top = self.init_old_top[r];
            let top = if region.top().0 >= init_top.0 {
                region.top()
            } else {
                init_top
            };
            let ghost table = self.heap.card_table@;
            proof {
                reveal(region_cards_reset);
                assert(regions[r as int].wf());
                assert(self.heap.old.total.start@ <= regions[r as int].start@);
                assert(tops[r as int]@ <= self.heap.old.total.end@);
            }
            self.heap.card_table.reset_region(region.start(), top);
            proof {
                reveal(region_cards_reset);
                let now = self.heap.card_table@;
                assert forall|c: int| 0 <= c < cards.dirty.len() implies #[trigger] now.dirty[c] == (
                cards.dirty[c] && !exists|x: int|
                    0 <= x < r + 1 && #[trigger] cards.touches(
                        c,
                        regions[x].start,
                        higher(regions[x].top, tops[x]),
                    )) by {
                    let hit = cards.touches(
                        c,
                        regions[r as int].start,
                        higher(regions[r as int].top, tops[r as int]),
                    );
                    assert(top == higher(regions[r as int].top, tops[r as int]));
                    assert(hit == table.touches(c, regions[r as int].start, top));
                    assert(now.dirty[c] == (table.dirty[c] && !hit));
                    assert(table.dirty[c] == (cards.dirty[c] && !exists|x: int|
                        0 <= x < r && #[trigger] cards.touches(
                            c,
                            regions[x].start,
                            higher(regions[x].top, tops[x]),
                        )));
                    if exists|x: int|
                        0 <= x < r + 1 && #[trigger] cards.touches(
                            c,
                            regions[x].start,
                            higher(regions[x].top, tops[x]),
                        ) {
                        let x = choose|x: int|
                            0 <= x < r + 1 && #[trigger] cards.touches(
                                c,
                                regions[x].start,
                                higher(regions[x].top, tops[x]),
                            );
                        if x < r {
                            assert(cards.touches(
                                c,
                                regions[x].start,
                                higher(regions[x].top, tops[x]),
                            ));
                        }
                    }
                }
            }
            r += 1;
        }
    }

    /// Whether the collector is ready to collect: its heap is well formed
    /// without a marked object, the roots may stand in it, the old
    /// generation has room for what the roots reach outside the large object
    /// space, and nothing of it is taken yet.
    pub open spec fn ready(&self) -> bool {
        &&& self.heap.wf()
        &&& self.heap@.unmarked()
        &&& self.heap@.valid_refs(self.rootset@)
        &&& self.heap@.marked(self.rootset@).fits()
        &&& self.old_top == self.heap.old.total.start
        &&& self.old_limit == self.heap.old.total.end
    }

    /// The tops of the regions of the old generation.
    pub fn region_tops(&self) -> (tops: Vec<Address>)
        ensures
            tops@.len() == self.heap.old.protected.regions@.len(),
            forall|r: int| 0 <= r < tops@.len() ==> #[trigger] tops@[r] == self.heap.old.protected.regions@[r].top,
    {
        let mut tops: Vec<Address> = Vec::new();
        let mut r: usize = 0;
        while r < self.heap.old.protected.regions.len()
            invariant
                r <= self.heap.old.protected.regions@.len(),
                tops@.len() == r,
                forall|x: int| 0 <= x < r ==> #[trigger] tops@[x] == self.heap.old.protected.regions@[x].top,
            decreases self.heap.old.protected.regions@.len() - r,
        {
            tops.push(self.heap.old.protected.regions[r].top());
            r += 1;
        }
        tops
    }

    /// Whether the collector can start a collection: `ready` but for the
    /// room in the old generation.
    pub open spec fn startable(&self) -> bool {
        &&& self.heap.wf()
        &&& self.heap@.unmarked()
        &&& self.heap@.valid_refs(self.rootset@)
        &&& self.old_top == self.heap.old.total.start
        &&& self.old_limit == self.heap.old.total.end
    }

    /// Whether the collector can start a collection.
    pub fn is_startable(&self) -> (r: bool)
        requires
            self.heap.wf(),
        ensures
            r == self.startable(),
    {
        self.old_top.0 == self.heap.old.total.start.0 && self.old_limit.0
            == self.heap.old.total.end.0 && self.heap.are_valid_refs(&self.rootset)
            && self.heap.is_unmarked()
    }

    /// Whether `after` and `released` are what a collection makes of this
    /// collector:
    /// - the heap and the roots are what the collection has to make of them,
    ///   and the heap is well formed without a marked object;
    /// - the old generation is one region from its start to the new top,
    ///   with pages committed up to the page at or above that;
    /// - the young generation is empty, with the to-space protected;
    /// - the cards of each large object and of each region of the old
    ///   generation, up to the higher of its old and its new top, are clean;
    /// - `released` holds the pages of the old generation to be committed
    ///   and to be given up, and the ranges that the large object space gave up.
    pub open spec fn collected(&self, after: FullCollector, released: Released) -> bool {
        let marked = self.heap@.marked(self.rootset@);
        let limit = spec_page_align(marked.new_top()@);
        let committed = self.heap.old.protected.committed;
        &&& self.heap@.collects(self.rootset@, after.heap@, after.rootset@)
        &&& after.heap.wf()
        &&& after.heap@.unmarked()
        &&& after.heap@.valid_refs(after.rootset@)
        &&& after.old_top == marked.new_top()
        &&& after.old_limit == self.old_limit
        &&& after.old_committed == (Region { start: self.heap.old.total.start, end: after.old_top })
        &&& after.heap.old.total == self.heap.old.total
        &&& after.heap.old.protected.regions@ == seq![
            OldRegion {
                start: self.heap.old.total.start,
                top: after.old_top,
                end: self.heap.old.total.end,
            },
        ]
        &&& after.heap.old.protected.committed@ == limit
        &&& released.commit == if committed@ < limit {
            Some(Region { start: committed, end: after.heap.old.protected.committed })
        } else {
            None
        }
        &&& released.forget == if limit < committed@ {
            Some(Region { start: after.heap.old.protected.committed, end: committed })
        } else {
            None
        }
        &&& after.heap.young == (YoungGen {
            eden: Block { top: self.heap.young.eden.start, ..self.heap.young.eden },
            from: Block { top: self.heap.young.from.start, ..self.heap.young.from },
            to: Block { top: self.heap.young.to.start, ..self.heap.young.to },
            to_protected: true,
        })
        &&& after.heap.total == self.heap.total
        &&& after.heap.perm_space == self.heap.perm_space
        &&& after.heap.config == self.heap.config
        &&& after.heap.large_space.spec_total() == self.heap.large_space.spec_total()
        &&& released.large@ == dropped(
            self.heap.large_space@.live,
            marks_of(marked.mem, self.heap@.large_objects),
        )
        &&& after.heap.large_space@.live == kept(
            self.heap.large_space@.live,
            marks_of(marked.mem, self.heap@.large_objects),
        )
        &&& released.large@.len() == 0 ==> after.heap.large_space@.free
            == self.heap.large_space@.free
        &&& released.large@.len() > 0 ==> sorted_apart(after.heap.large_space@.free)
        &&& forall|ptr: Address|
            covered(after.heap.large_space@.free, ptr) == covered(
                self.heap.large_space@.free + released.large@,
                ptr,
            )
        &&& exists|cards: CardTableView|
            large_cards_reset(
                self.heap.card_table@,
                self.heap.memory@,
                self.heap@.large_objects,
                self.heap@.large_objects.len() as int,
                cards,
            ) && region_cards_reset(
                cards,
                self.heap.old.protected.regions@,
                after.init_old_top@,
                after.init_old_top@.len() as int,
                after.heap.card_table@,
            )
        &&& crossing_ok(
            after.heap.crossing_map@,
            self.heap.old.total.start,
            after.heap.memory@,
            after.heap@.old_objects,
            after.old_top,
        )
        &&& after.heap.crossing_map@.len() == self.heap.crossing_map@.len()
        &&& forall|c: int|
            card_of(self.heap.old.total.start, after.old_top) < c < self.heap.crossing_map@.len()
                ==> #[trigger] after.heap.crossing_map@[c] == self.heap.crossing_map@[c]
        &&& after.init_old_top@.len() == self.heap.old.protected.regions@.len()
        &&& forall|r: int|
            0 <= r < after.init_old_top@.len() ==> #[trigger] after.init_old_top@[r]
                == self.heap.old.protected.regions@[r].top
        &&& after.reason == self.reason
        &&& after.min_heap_size == self.min_heap_size
        &&& after.max_heap_size == self.max_heap_size
        &&& after.verify == self.verify
    }

    /// Whether the marked objects outside the large object space have room
    /// in the old generation.
    pub fn marked_fit(&self) -> (r: bool)
        requires
            self.heap.wf(),
        ensures
            r == self.heap@.fits(),
    {
        let ghost h = self.heap@;
        let order = self.walk_old_and_young();
        let limit = self.heap.old.total.end.0;
        let mut top = self.heap.old.total.start.0;
        let mut i: usize = 0;
        proof {
            reveal(HeapView::wf);
        }
        while i < order.len()
            invariant
                i <= order.len(),
                order@ == h.order(),
                h == self.heap@,
                h.wf(),
                limit == h.old_total.end@,
                top == h.old_total.start@ + h.live_bytes(i as int),
                top <= limit,
            decreases order.len() - i,
        {
            proof {
                lemma_order(h);
                assert(h.object_ok(h.order()[i as int]));
            }
            if self.heap.memory.is_marked(order[i]) {
                let size = self.heap.memory.size(order[i]);
                if size > limit - top {
                    proof {
                        lemma_live_bytes_mono(h, i + 1, order@.len() as int);
                    }
                    return false;
                }
                top += size;
            }
            i += 1;
        }
        true
    }

    /// Collects the heap: marks what the roots reach, moves the marked
    /// objects outside the large object space to the start of the old
    /// generation, in the order of the walk, with every reference and root
    /// pointing to where its object went; sweeps the large object space;
    /// resets the cards; empties the young generation. Returns what is left
    /// to be done with the memory.
    pub fn collect(&mut self) -> (released: Released)
        requires
            old(self).ready(),
        ensures
            old(self).collected(*final(self), released),
    {
        self.try_collect().unwrap()
    }

    /// Collects the heap as `collect` does, if the old generation has room
    /// for what the roots reach outside the large object space. Where it
    /// has not, the objects that the roots reach are marked, nothing else is
    /// done, and `None` is returned.
    #[verifier::rlimit(100)]
    pub fn try_collect(&mut self) -> (r: Option<Released>)
        requires
            old(self).startable(),
        ensures
            r.is_some() == old(self).heap@.marked(old(self).rootset@).fits(),
            r.is_some() ==> old(self).collected(*final(self), r.unwrap()),
            r.is_none() ==> {
                &&& final(self).heap@ == old(self).heap@.marked(old(self).rootset@)
                &&& final(self).heap.same_but_memory(old(self).heap)
                &&& final(self).heap.wf()
                &&& final(self).rootset == old(self).rootset
                &&& final(self).old_top == old(self).old_top
                &&& final(self).old_limit == old(self).old_limit
            },
    {
        let ghost pre = self.heap@;
        let ghost roots = self.rootset@;
        let ghost m = pre.marked(roots);
        let ghost live = self.heap.large_space@.live;
        proof {
            lemma_marked(pre, roots);
        }
        self.init_old_top = self.region_tops();
        self.mark_live();
        if self.verify {
            verify_marking(&self.heap);
        }
        if !self.marked_fit() {
            return None;
        }
        let ghost marked_heap = self.heap;
        let ghost committed = self.heap.old.protected.committed;
        let commit = self.compute_forward();
        let ghost forwarded = self.heap.memory@;
        let ghost forwarded_heap = self.heap;
        let ghost h2 = self.heap@;
        proof {
            lemma_forwarded_heap(marked_heap, self.heap);
            assert forall|i: int| 0 <= i < roots.len() implies h2.valid_ref(#[trigger] roots[i]) by {
                assert(m.valid_ref(roots[i]));
            }
        }
        self.update_references();
        let ghost updated = self.heap.memory@;
        proof {
            lemma_updated_heap(forwarded_heap, self.heap);
        }
        let placed = self.relocate(Ghost(h2));
        let ghost relocated = self.heap.memory@;
        proof {
            lemma_relocated_heap(forwarded_heap, updated, self.heap);
        }
        let large = self.update_large_objects();
        let ghost swept = self.heap.memory@;
        let ghost cards = self.heap.card_table@;
        proof {
            assert forall|r: int| 0 <= r < self.init_old_top@.len() implies (
            #[trigger] self.init_old_top@[r])@ <= self.heap.old.total.end@ by {
                assert(self.heap.old.protected.regions@[r].wf());
            }
        }
        self.reset_cards();
        self.heap.young.clear();
        self.heap.young.protect_to();
        proof {
            crate::compact::lemma_live_bytes_mono(m, 0, m.order().len() as int);
        }
        let forget = self.heap.old.protected.update_single_region(self.old_top);
        self.heap.layout = Ghost(
            Layout {
                old: placed@,
                first: seq![0int, placed@.len() as int],
                eden: Seq::empty(),
                from: Seq::empty(),
                to: Seq::empty(),
            },
        );
        proof {
            let post = self.heap@;
            assert(post.young_objects =~= Seq::<Address>::empty());
            assert(h2.new_top() == m.new_top());
            assert forall|k: int|
                0 <= k < m.order().len() && m.mem[#[trigger] m.order()[k]].marked implies post.old_objects.contains(
                m.dest(k),
            ) by {
                assert(h2.mem[m.order()[k]].marked);
                assert(placed@.contains(h2.dest(k)));
            }
            crate::laws::lemma_assembled(
                m,
                post,
                roots,
                forwarded,
                updated,
                relocated,
                live,
                self.rootset@,
            );
            lemma_crossing_same(
                self.heap.crossing_map@,
                m.old_total.start,
                relocated,
                self.heap.memory@,
                placed@,
                m.new_top(),
            );
            lemma_compacted(m, post);
            assert forall|i: int| 0 <= i < self.rootset@.len() implies post.valid_ref(
                #[trigger] self.rootset@[i],
            ) by {
                assert(m.valid_ref(roots[i]));
            }
            lemma_collected_heap(marked_heap, self.heap, relocated);
            assert forall|j: int| 0 <= j < m.large_objects.len() implies relocated[#[trigger] m.large_objects[j]].size
                == old(self).heap.memory@[m.large_objects[j]].size
                && relocated[m.large_objects[j]].array_ref
                == old(self).heap.memory@[m.large_objects[j]].array_ref by {
                lemma_order(m);
                assert(m.object_ok(m.large_objects[j]));
                assert(pre.mem.contains_key(m.large_objects[j]));
            }
            lemma_large_cards_same(
                old(self).heap.card_table@,
                relocated,
                old(self).heap.memory@,
                m.large_objects,
                cards,
            );
        }
        Some(Released { commit, forget, large })
    }
}

/// The heap with the forwarding slots written is well formed, gives each
/// object the place that the heap before gave it, and holds that place in
/// the forwarding slot of each marked object.
pub proof fn lemma_forwarded_heap(before: Heap, after: Heap)
    requires
        before.wf(),
        before@.fits(),
        before@.forwards(after.memory@),
        after.layout == before.layout,
        after.young == before.young,
        after.total == before.total,
        after.old.total == before.old.total,
        after.old.protected.regions == before.old.protected.regions,
        after.old.wf(),
        after.large_space == before.large_space,
        after.card_table == before.card_table,
        after.crossing_map == before.crossing_map,
        after.perm_space == before.perm_space,
    ensures
        after.wf(),
        after@.fits(),
        after@.is_forwarded(),
        forall|v: Address| #[trigger] after@.valid_ref(v) == before@.valid_ref(v),
        after@ == (HeapView { mem: after.memory@, ..before@ }),
        after@.new_top() == before@.new_top(),
        forall|k: int|
            0 <= k < before@.order().len() ==> after@.dest(k) == before@.dest(k)
                && after@.mem[#[trigger] before@.order()[k]].marked
                == before@.mem[before@.order()[k]].marked,
{
    crate::laws::lemma_forwarded(before@, after.memory@);
    crate::laws::lemma_forwards_headers(before@, after.memory@);
    lemma_order(before@);
    assert(after@.dest(before@.order().len() as int) == before@.dest(before@.order().len() as int));
    assert forall|k: int| 0 <= k < before@.order().len() implies after@.dest(k) == before@.dest(k)
        && after@.mem[#[trigger] before@.order()[k]].marked
        == before@.mem[before@.order()[k]].marked by {
        assert(before@.object_ok(before@.order()[k]));
        assert(after@.dest(k) == before@.dest(k));
    }
    assert(after@ == (HeapView { mem: after.memory@, ..before@ }));
    Heap::lemma_same_layout(before, after);
}

/// The heap with the references updated holds the objects of the heap
/// before with their headers, so that they fill its regions and blocks as
/// they did.
pub proof fn lemma_updated_heap(before: Heap, after: Heap)
    requires
        before.wf(),
        before@.updates(after.memory@),
        after.same_but_memory(before),
    ensures
        before@.same_headers(after.memory@),
        after.tiling_ok(),
        after.tables_ok(),
        after.old.wf(),
        after@ == (HeapView { mem: after.memory@, ..before@ }),
{
    reveal(HeapView::updates);
    assert forall|a: Address| #[trigger] before.memory@.contains_key(a) implies after.memory@.contains_key(
        a,
    ) && after.memory@[a].size == before.memory@[a].size by {}
    Heap::lemma_tiling_same_sizes(before, after);
}

/// In the heap with the marked objects relocated the large objects are as
/// they were: each is there, in the heap, and none occurs twice.
pub proof fn lemma_relocated_heap(before: Heap, updated: Map<Address, ObjView>, after: Heap)
    requires
        before.wf(),
        before@.same_headers(updated),
        (HeapView { mem: updated, ..before@ }).relocates(after.memory@),
        after.large_space == before.large_space,
        after.total == before.total,
    ensures
        after@.large_objects == before@.large_objects,
        after@.large_objects.no_duplicates(),
        forall|j: int|
            0 <= j < after@.large_objects.len() ==> after@.object_ok(#[trigger] after@.large_objects[j]),
        after.large_space.wf(),
        before.old.total.within(before.total),
{
    reveal(HeapView::relocates);
    let m = before@;
    lemma_order(m);
    assert forall|j: int| 0 <= j < after@.large_objects.len() implies after@.object_ok(
        #[trigger] after@.large_objects[j],
    ) by {
        let h3 = HeapView { mem: updated, ..m };
        assert(m.object_ok(m.large_objects[j]));
        assert(updated.contains_key(m.large_objects[j]));
        assert(after.memory@.contains_key(h3.large_objects[j]));
    }
    reveal(HeapView::wf);
}

/// The cards of the large objects are reset alike by memories that hold
/// them with the same size and kind.
pub proof fn lemma_large_cards_same(
    before: CardTableView,
    mem: Map<Address, ObjView>,
    other: Map<Address, ObjView>,
    large: Seq<Address>,
    after: CardTableView,
)
    requires
        large_cards_reset(before, mem, large, large.len() as int, after),
        forall|j: int|
            0 <= j < large.len() ==> mem[#[trigger] large[j]].size == other[large[j]].size
                && mem[large[j]].array_ref == other[large[j]].array_ref,
    ensures
        large_cards_reset(before, other, large, large.len() as int, after),
{
    reveal(large_cards_reset);
    assert forall|c: int| 0 <= c < before.dirty.len() implies #[trigger] after.dirty[c] == (
    before.dirty[c] && !exists|j: int|
        0 <= j < large.len() && #[trigger] before.object_card(
            c,
            large[j],
            other[large[j]].size,
            other[large[j]].array_ref,
        )) by {
        if exists|j: int|
            0 <= j < large.len() && #[trigger] before.object_card(
                c,
                large[j],
                other[large[j]].size,
                other[large[j]].array_ref,
            ) {
            let j = choose|j: int|
                0 <= j < large.len() && #[trigger] before.object_card(
                    c,
                    large[j],
                    other[large[j]].size,
                    other[large[j]].array_ref,
                );
            assert(mem[large[j]].size == other[large[j]].size);
            assert(before.object_card(c, large[j], mem[large[j]].size, mem[large[j]].array_ref));
        }
        if exists|j: int|
            0 <= j < large.len() && #[trigger] before.object_card(
                c,
                large[j],
                mem[large[j]].size,
                mem[large[j]].array_ref,
            ) {
            let j = choose|j: int|
                0 <= j < large.len() && #[trigger] before.object_card(
                    c,
                    large[j],
                    mem[large[j]].size,
                    mem[large[j]].array_ref,
                );
            assert(mem[large[j]].size == other[large[j]].size);
            assert(before.object_card(
                c,
                large[j],
                other[large[j]].size,
                other[large[j]].array_ref,
            ));
        }
    }
}

/// The heap that a collection leaves is well formed where what it holds is
/// what compaction has to make of the heap before.
pub proof fn lemma_collected_heap(marked: Heap, after: Heap, relocated: Map<Address, ObjView>)
    requires
        marked.wf(),
        marked@.fits(),
        after@.wf(),
        marked@.compacts(after@),
        marks_of(relocated, marked@.large_objects) == marks_of(
            marked@.mem,
            marked@.large_objects,
        ),
        after.layout@ == (Layout {
            old: after.layout@.old,
            first: seq![0int, after.layout@.old.len() as int],
            eden: Seq::empty(),
            from: Seq::empty(),
            to: Seq::empty(),
        }),
        after.young == (YoungGen {
            eden: Block { top: marked.young.eden.start, ..marked.young.eden },
            from: Block { top: marked.young.from.start, ..marked.young.from },
            to: Block { top: marked.young.to.start, ..marked.young.to },
            to_protected: true,
        }),
        after.total == marked.total,
        after.old.total == marked.old.total,
        after.old.wf(),
        after.old.protected.regions@ == seq![
            OldRegion {
                start: marked.old.total.start,
                top: marked@.new_top(),
                end: marked.old.total.end,
            },
        ],
        after.large_space.wf(),
        after.large_space.spec_total() == marked.large_space.spec_total(),
        after.large_space@.total == marked.large_space@.total,
        after.large_space@.live == kept(
            marked.large_space@.live,
            marks_of(relocated, marked@.large_objects),
        ),
        after.card_table.wf(),
        after.card_table@.start == marked.card_table@.start,
        after.card_table@.dirty.len() == marked.card_table@.dirty.len(),
        after.crossing_map@.len() == marked.crossing_map@.len(),
        after.perm_space == marked.perm_space,
    ensures
        after.wf(),
{
    let m = marked@;
    let large = m.large_objects;
    let live = marked.large_space@.live;
    let swept = after.memory@;
    assert(after.tiling_ok()) by {
        reveal(tiled);
        reveal(HeapView::compacts);
        let layout = after.layout@;
        assert(layout.region(0) =~= layout.old);
    }
    assert(after.young_ranges_ok());
    assert(after.tables_ok());
    assert(after.large_ok()) by {
        reveal(HeapView::wf);
        reveal(HeapView::compacts);
        lemma_order(m);
        let kept_live = after.large_space@.live;
        lemma_kept_members(live, marks_of(m.mem, large));
        assert forall|i: int| 0 <= i < kept_live.len() implies (#[trigger] kept_live[i]).start@
            + LARGE_ALLOC_SIZE + swept[Address((kept_live[i].start@ + LARGE_ALLOC_SIZE) as usize)].size
            <= kept_live[i].end@ by {
            assert(crate::large::flagged(live, marks_of(m.mem, large), kept_live[i]));
            let j = choose|j: int|
                0 <= j < live.len() && #[trigger] live[j] == kept_live[i] && marks_of(m.mem, large)[j];
            let obj = large[j];
            assert(obj == Address((live[j].start@ + LARGE_ALLOC_SIZE) as usize));
            assert(m.object_ok(large[j]));
            assert(!m.moves(obj));
            assert(swept[m.target(obj)] == m.survivor(obj));
        }
    }
}

/// After a collection the cards of every region that the old generation
/// had, from its start to its top, are clean, and so are the cards of every
/// large object that there was: the card that it starts in, and all its
/// cards if it is an array of references. Where no other card was dirty,
/// no card is dirty after the collection.
pub proof fn lemma_cards_clean_after(before: FullCollector, after: FullCollector, released: Released)
    requires
        before.collected(after, released),
    ensures
        forall|r: int|
            0 <= r < before.heap.old.protected.regions@.len() ==> after.heap.card_table@.clean(
                (#[trigger] before.heap.old.protected.regions@[r]).start,
                before.heap.old.protected.regions@[r].top,
            ),
        forall|j: int, c: int|
            0 <= j < before.heap@.large_objects.len() && 0 <= c
                < after.heap.card_table@.dirty.len() && #[trigger] before.heap.card_table@.object_card(
                c,
                before.heap@.large_objects[j],
                before.heap.memory@[before.heap@.large_objects[j]].size,
                before.heap.memory@[before.heap@.large_objects[j]].array_ref,
            ) ==> !after.heap.card_table@.dirty[c],
        (forall|c: int|
            0 <= c < before.heap.card_table@.dirty.len() && #[trigger] before.heap.card_table@.dirty[c]
                ==> (exists|r: int|
                0 <= r < before.heap.old.protected.regions@.len()
                    && #[trigger] before.heap.card_table@.touches(
                    c,
                    before.heap.old.protected.regions@[r].start,
                    before.heap.old.protected.regions@[r].top,
                )) || (exists|j: int|
                0 <= j < before.heap@.large_objects.len()
                    && #[trigger] before.heap.card_table@.object_card(
                    c,
                    before.heap@.large_objects[j],
                    before.heap.memory@[before.heap@.large_objects[j]].size,
                    before.heap.memory@[before.heap@.large_objects[j]].array_ref,
                ))) ==> forall|c: int|
            0 <= c < after.heap.card_table@.dirty.len() ==> !#[trigger] after.heap.card_table@.dirty[c],
{
    reveal(large_cards_reset);
    reveal(region_cards_reset);
    let start = before.heap.card_table@;
    let end = after.heap.card_table@;
    let regions = before.heap.old.protected.regions@;
    let tops = after.init_old_top@;
    let large = before.heap@.large_objects;
    let mem = before.heap.memory@;
    let cards = choose|cards: CardTableView|
        large_cards_reset(start, mem, large, large.len() as int, cards) && region_cards_reset(
            cards,
            regions,
            tops,
            tops.len() as int,
            end,
        );
    assert forall|r: int, c: int|
        0 <= r < regions.len() && 0 <= c < end.dirty.len() && #[trigger] start.touches(
            c,
            regions[r].start,
            regions[r].top,
        ) implies !end.dirty[c] by {
        assert(higher(regions[r].top, tops[r]) == regions[r].top);
        assert(cards.touches(c, regions[r].start, higher(regions[r].top, tops[r])));
    }
    assert forall|r: int| 0 <= r < regions.len() implies end.clean(
        (#[trigger] regions[r]).start,
        regions[r].top,
    ) by {
        assert forall|c: int|
            0 <= c < end.dirty.len() && end.touches(c, regions[r].start, regions[r].top) implies !#[trigger] end.dirty[c] by {
            assert(start.touches(c, regions[r].start, regions[r].top));
        }
    }
    assert forall|j: int, c: int|
        0 <= j < large.len() && 0 <= c < end.dirty.len() && #[trigger] start.object_card(
            c,
            large[j],
            mem[large[j]].size,
            mem[large[j]].array_ref,
        ) implies !end.dirty[c] by {
        assert(!cards.dirty[c]);
    }
}

} // verus!
