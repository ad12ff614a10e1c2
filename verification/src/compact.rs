//! Compaction, as a matter of arithmetic: where each marked object goes, and
//! what the walk order of the heap gives for the proof that it can go there.

use crate::address::Address;
use crate::crossing::CrossingEntry;
use crate::heap::HeapView;
use crate::object::ObjView;
use crate::old_gen::{card_of, filler, first_object, lemma_card_of_mono, spec_update_crossing};
use vstd::prelude::*;

verus! {

impl HeapView {
    /// The bytes of the marked objects among the first `upto` of the walk order.
    pub open spec fn live_bytes(self, upto: int) -> int
        decreases upto,
    {
        if upto <= 0 {
            0
        } else {
            let addr = self.order()[upto - 1];
            self.live_bytes(upto - 1) + if self.mem[addr].marked {
                self.mem[addr].size as int
            } else {
                0
            }
        }
    }

    /// The bytes of the first `upto` objects of the walk order.
    pub open spec fn used_bytes(self, upto: int) -> int
        decreases upto,
    {
        if upto <= 0 {
            0
        } else {
            self.used_bytes(upto - 1) + self.mem[self.order()[upto - 1]].size
        }
    }

    /// Where object `i` of the walk order goes if it is marked: behind the
    /// marked objects before it, from the start of the old generation.
    pub open spec fn dest(self, i: int) -> Address {
        Address((self.old_total.start@ + self.live_bytes(i)) as usize)
    }

    /// The end of the old generation after compaction.
    pub open spec fn new_top(self) -> Address {
        self.dest(self.order().len() as int)
    }

    /// Whether the old generation has room for all marked objects outside
    /// the large object space.
    pub open spec fn fits(self) -> bool {
        self.old_total.start@ + self.live_bytes(self.order().len() as int) <= self.old_total.end@
    }

    /// Whether `value` points to an object that compaction moves: into the
    /// heap, but not into the large object space.
    pub open spec fn moves(self, value: Address) -> bool {
        self.heap.spec_contains(value) && !self.large_total.spec_contains(value)
    }

    /// What a reference `value` becomes: the content of the forwarding slot
    /// of its object where compaction moves that, and `value` otherwise.
    pub open spec fn forward(self, value: Address) -> Address {
        if self.moves(value) {
            self.mem[value].fwdptr
        } else {
            value
        }
    }

    /// What a reference `value` becomes: where its object goes where
    /// compaction moves that, and `value` otherwise.
    pub open spec fn target(self, value: Address) -> Address {
        if self.moves(value) {
            self.dest(self.order().index_of(value))
        } else {
            value
        }
    }
}

impl HeapView {
    /// Whether `after` is the memory with the forwarding slots written: it
    /// holds the objects of this heap; each marked object of the walk order
    /// has in its forwarding slot the place it goes to; nothing else differs.
    #[verifier::opaque]
    pub open spec fn forwards(self, after: Map<Address, ObjView>) -> bool {
        &&& forall|a: Address| #[trigger] after.contains_key(a) <==> self.mem.contains_key(a)
        &&& forall|k: int|
            0 <= k < self.order().len() ==> after[#[trigger] self.order()[k]] == if self.mem[self.order()[k]].marked {
                ObjView { fwdptr: self.dest(k), ..self.mem[self.order()[k]] }
            } else {
                self.mem[self.order()[k]]
            }
        &&& forall|j: int|
            0 <= j < self.large_objects.len() ==> after[#[trigger] self.large_objects[j]]
                == self.mem[self.large_objects[j]]
    }

    /// What the object at `addr` is once its references are forwarded.
    pub open spec fn forwarded(self, addr: Address) -> ObjView {
        ObjView {
            fields: self.mem[addr].fields.map_values(|v: Address| self.forward(v)),
            ..self.mem[addr]
        }
    }

    /// Whether `after` is the memory with the references updated: it holds
    /// the objects of this heap; in each marked object every reference is
    /// forwarded; nothing else differs.
    #[verifier::opaque]
    pub open spec fn updates(self, after: Map<Address, ObjView>) -> bool {
        &&& forall|a: Address| #[trigger] after.contains_key(a) <==> self.mem.contains_key(a)
        &&& forall|a: Address| #[trigger]
            self.mem.contains_key(a) ==> after[a] == if self.mem[a].marked {
                self.forwarded(a)
            } else {
                self.mem[a]
            }
    }

    /// Whether `after` is the memory with the marked objects relocated: each
    /// marked object of the walk order is at the place it goes to, with its
    /// mark cleared; the large objects are as they were; nothing else is there.
    #[verifier::opaque]
    pub open spec fn relocates(self, after: Map<Address, ObjView>) -> bool {
        &&& forall|k: int|
            0 <= k < self.order().len() && self.mem[#[trigger] self.order()[k]].marked
                ==> after.contains_key(self.dest(k)) && after[self.dest(k)] == (ObjView {
                marked: false,
                ..self.mem[self.order()[k]]
            })
        &&& forall|j: int|
            0 <= j < self.large_objects.len() ==> after.contains_key(
                #[trigger] self.large_objects[j],
            ) && after[self.large_objects[j]] == self.mem[self.large_objects[j]]
        &&& forall|d: Address| #[trigger]
            after.contains_key(d) ==> self.large_objects.contains(d) || exists|k: int|
                0 <= k < self.order().len() && self.mem[#[trigger] self.order()[k]].marked
                    && self.dest(k) == d
    }
}

/// What a well-formed heap gives for its walk order and its large objects:
/// each is an object that lies in the heap, none occurs twice or in both,
/// every object is one of them, the objects of the walk order lie outside
/// the large object space and the large objects inside it.
pub proof fn lemma_order(h: HeapView)
    requires
        h.wf(),
    ensures
        forall|k: int|
            0 <= k < h.order().len() ==> {
                &&& h.object_ok(#[trigger] h.order()[k])
                &&& h.moves(h.order()[k])
            },
        h.order().no_duplicates(),
        forall|j: int|
            0 <= j < h.large_objects.len() ==> {
                &&& h.object_ok(#[trigger] h.large_objects[j])
                &&& !h.moves(h.large_objects[j])
                &&& h.heap.spec_contains(h.large_objects[j])
                &&& h.apart(h.large_objects[j], h.old_total)
            },
        h.large_objects.no_duplicates(),
        forall|addr: Address| #[trigger]
            h.mem.contains_key(addr) ==> h.order().contains(addr) || h.large_objects.contains(addr),
        forall|addr: Address| #[trigger]
            h.mem.contains_key(addr) ==> h.object_ok(addr) && (h.moves(addr) <==> h.order().contains(
                addr,
            )),
{
    reveal(HeapView::wf);
    let order = h.order();
    let split = h.old_objects.len() as int;
    assert forall|k: int| 0 <= k < order.len() implies {
        &&& h.object_ok(#[trigger] order[k])
        &&& h.moves(order[k])
    } by {
        if k < split {
            assert(h.object_ok(h.old_objects[k]));
        } else {
            assert(h.object_ok(h.young_objects[k - split]));
        }
    }
    assert forall|k: int, l: int| 0 <= k < order.len() && 0 <= l < order.len() && k != l implies order[k]
        != order[l] by {
        let a = if k < l { k } else { l };
        let b = if k < l { l } else { k };
        if b < split {
            assert(h.object_ok(h.old_objects[a]));
            assert(h.old_objects[a]@ + h.mem[h.old_objects[a]].size <= h.old_objects[b]@);
        } else if a < split {
            assert(h.object_ok(h.old_objects[a]));
            assert(h.object_ok(h.young_objects[b - split]));
        } else {
            assert(h.young_objects[a - split] != h.young_objects[b - split]);
        }
    }
    assert forall|j: int| 0 <= j < h.large_objects.len() implies {
        &&& h.object_ok(#[trigger] h.large_objects[j])
        &&& !h.moves(h.large_objects[j])
        &&& h.heap.spec_contains(h.large_objects[j])
        &&& h.apart(h.large_objects[j], h.old_total)
    } by {}
    assert forall|addr: Address| #[trigger] h.mem.contains_key(addr) implies (h.order().contains(addr)
        || h.large_objects.contains(addr)) && h.object_ok(addr) && (h.moves(addr)
        <==> h.order().contains(addr)) by {
        if h.old_objects.contains(addr) {
            let i = choose|i: int| 0 <= i < h.old_objects.len() && h.old_objects[i] == addr;
            assert(order[i] == addr);
        }
        if h.young_objects.contains(addr) {
            let i = choose|i: int| 0 <= i < h.young_objects.len() && h.young_objects[i] == addr;
            assert(order[split + i] == addr);
        }
        if h.large_objects.contains(addr) {
            let j = choose|j: int| 0 <= j < h.large_objects.len() && h.large_objects[j] == addr;
            assert(h.object_ok(h.large_objects[j]));
        }
        if h.order().contains(addr) {
            let k = choose|k: int| 0 <= k < order.len() && order[k] == addr;
            assert(h.object_ok(order[k]));
        }
    }
}

/// The index of an object in the walk order of a well-formed heap.
pub proof fn lemma_index_of(h: HeapView, k: int)
    requires
        h.wf(),
        0 <= k < h.order().len(),
    ensures
        h.order().index_of(h.order()[k]) == k,
{
    lemma_order(h);
    let order = h.order();
    let i = order.index_of(order[k]);
    assert(0 <= i < order.len() && order[i] == order[k]);
}

/// The marked bytes grow with the number of objects counted.
pub proof fn lemma_live_bytes_mono(h: HeapView, i: int, j: int)
    requires
        i <= j,
    ensures
        h.live_bytes(i) <= h.live_bytes(j),
        0 <= h.live_bytes(i),
    decreases j - i, j,
{
    if i < j {
        lemma_live_bytes_mono(h, i, j - 1);
    } else if i > 0 {
        lemma_live_bytes_mono(h, i - 1, i - 1);
    }
}

/// The marked bytes are not more than the bytes of all objects counted.
pub proof fn lemma_live_bytes_used(h: HeapView, upto: int)
    ensures
        h.live_bytes(upto) <= h.used_bytes(upto),
    decreases upto,
{
    if upto > 0 {
        lemma_live_bytes_used(h, upto - 1);
    }
}

/// The marked bytes of heaps that agree in the marks and sizes of the
/// objects of their walk order, which they share.
pub proof fn lemma_live_bytes_same(h: HeapView, g: HeapView, upto: int)
    requires
        h.order() == g.order(),
        upto <= h.order().len(),
        forall|k: int|
            0 <= k < h.order().len() ==> h.mem[#[trigger] h.order()[k]].marked
                == g.mem[h.order()[k]].marked && h.mem[h.order()[k]].size
                == g.mem[h.order()[k]].size,
    ensures
        h.live_bytes(upto) == g.live_bytes(upto),
    decreases upto,
{
    if upto > 0 {
        lemma_live_bytes_same(h, g, upto - 1);
        assert(h.mem[h.order()[upto - 1]].marked == g.mem[h.order()[upto - 1]].marked);
    }
}

/// An object of the old generation does not start below the place that
/// the bytes of the objects before it take from the start of the generation.
pub proof fn lemma_used_below(h: HeapView, k: int)
    requires
        h.wf(),
        0 <= k < h.old_objects.len(),
    ensures
        h.old_total.start@ + h.used_bytes(k) <= h.order()[k]@,
    decreases k,
{
    reveal(HeapView::wf);
    assert(h.object_ok(h.old_objects[k]));
    if k > 0 {
        lemma_used_below(h, k - 1);
        assert(h.old_objects[k - 1]@ + h.mem[h.old_objects[k - 1]].size <= h.old_objects[k]@);
        assert(h.order()[k - 1] == h.old_objects[k - 1]);
    }
}

/// Where a marked object goes lies in the old generation, at or below the
/// object itself if that is in the old generation, and behind the places of
/// the marked objects before it.
pub proof fn lemma_dest(h: HeapView, k: int)
    requires
        h.wf(),
        h.fits(),
        0 <= k < h.order().len(),
        h.mem[h.order()[k]].marked,
    ensures
        h.old_total.start@ <= h.dest(k)@,
        h.dest(k)@ + h.mem[h.order()[k]].size == h.dest(k + 1)@,
        h.dest(k + 1)@ <= h.new_top()@ <= h.old_total.end@,
        k < h.old_objects.len() ==> h.dest(k)@ <= h.order()[k]@,
        h.dest(k)@ == h.old_total.start@ + h.live_bytes(k),
{
    lemma_live_bytes_mono(h, 0, k);
    lemma_live_bytes_mono(h, k + 1, h.order().len() as int);
    if k < h.old_objects.len() {
        lemma_used_below(h, k);
        lemma_live_bytes_used(h, k);
    }
}

/// Where the marked objects go ascends: an earlier one ends at or below the
/// place of a later one.
pub proof fn lemma_dest_ascends(h: HeapView, k: int, l: int)
    requires
        h.wf(),
        h.fits(),
        0 <= k < l <= h.order().len(),
        h.mem[h.order()[k]].marked,
    ensures
        h.dest(k)@ + h.mem[h.order()[k]].size <= h.dest(l)@,
        h.dest(l)@ == h.old_total.start@ + h.live_bytes(l),
{
    lemma_dest(h, k);
    lemma_live_bytes_mono(h, k + 1, l);
    lemma_live_bytes_mono(h, l, h.order().len() as int);
    lemma_live_bytes_mono(h, 0, l);
}

/// What lies in the way of a marked object that moves: nothing. An object
/// of the walk order behind it starts at or above the end of the place it
/// goes to, or ends below that place, and so does every large object.
pub proof fn lemma_way_is_free(h: HeapView, k: int, other: Address)
    requires
        h.wf(),
        h.fits(),
        0 <= k < h.order().len(),
        h.mem[h.order()[k]].marked,
        h.large_objects.contains(other) || exists|l: int|
            k < l < h.order().len() && h.order()[l] == other,
    ensures
        other@ + h.mem[other].size <= h.dest(k)@ || h.dest(k)@ + h.mem[h.order()[k]].size
            <= other@,
{
    lemma_dest(h, k);
    lemma_order(h);
    reveal(HeapView::wf);
    let split = h.old_objects.len() as int;
    if h.large_objects.contains(other) {
        let j = choose|j: int| 0 <= j < h.large_objects.len() && h.large_objects[j] == other;
        assert(h.object_ok(h.large_objects[j]));
    } else {
        let l = choose|l: int| k < l < h.order().len() && h.order()[l] == other;
        if l < split {
            assert(h.old_objects[k]@ + h.mem[h.old_objects[k]].size <= h.old_objects[l]@);
        } else {
            assert(h.object_ok(h.young_objects[l - split]));
        }
    }
}

/// An object that is left behind does not start where a marked object
/// before it went.
pub proof fn lemma_left_behind(h: HeapView, k: int, l: int)
    requires
        h.wf(),
        h.fits(),
        0 <= k < l < h.order().len(),
        h.mem[h.order()[k]].marked,
    ensures
        h.dest(k) != h.order()[l],
        forall|j: int| 0 <= j < h.large_objects.len() ==> h.dest(k) != #[trigger] h.large_objects[j],
{
    lemma_dest(h, k);
    lemma_dest_ascends(h, k, l);
    lemma_order(h);
    reveal(HeapView::wf);
    let split = h.old_objects.len() as int;
    assert(h.object_ok(h.order()[k]));
    if l < split {
        lemma_used_below(h, l);
        lemma_live_bytes_used(h, l);
    } else {
        assert(h.object_ok(h.young_objects[l - split]));
    }
    assert forall|j: int| 0 <= j < h.large_objects.len() implies h.dest(k) != #[trigger] h.large_objects[j] by {
        assert(h.object_ok(h.large_objects[j]));
    }
}

/// What holds while the forwarding slots are written, with the first `done`
/// objects of the walk order seen: the memory `mem` holds the objects of the
/// heap `h`; each marked object among those seen has in its forwarding slot
/// the place it goes to; nothing else differs.
#[verifier::opaque]
pub open spec fn forwarding(h: HeapView, mem: Map<Address, ObjView>, done: int) -> bool {
    &&& 0 <= done <= h.order().len()
    &&& forall|a: Address| #[trigger] mem.contains_key(a) <==> h.mem.contains_key(a)
    &&& forall|k: int|
        0 <= k < done ==> mem[#[trigger] h.order()[k]] == if h.mem[h.order()[k]].marked {
            ObjView { fwdptr: h.dest(k), ..h.mem[h.order()[k]] }
        } else {
            h.mem[h.order()[k]]
        }
    &&& forall|k: int|
        done <= k < h.order().len() ==> mem[#[trigger] h.order()[k]] == h.mem[h.order()[k]]
    &&& forall|j: int|
        0 <= j < h.large_objects.len() ==> mem[#[trigger] h.large_objects[j]]
            == h.mem[h.large_objects[j]]
}

/// Writing the forwarding slots starts with the memory of the heap.
pub proof fn lemma_forwarding_start(h: HeapView)
    ensures
        forwarding(h, h.mem, 0),
{
    reveal(forwarding);
}

/// The next object to be seen is in the memory as it is in the heap, and
/// has room in the old generation if it is marked.
pub proof fn lemma_forwarding_next(h: HeapView, mem: Map<Address, ObjView>, done: int)
    requires
        h.wf(),
        h.fits(),
        forwarding(h, mem, done),
        done < h.order().len(),
    ensures
        mem.contains_key(h.order()[done]),
        mem[h.order()[done]] == h.mem[h.order()[done]],
        h.mem[h.order()[done]].marked ==> h.dest(done)@ + h.mem[h.order()[done]].size == h.dest(
            done + 1,
        )@ && h.dest(done + 1)@ <= h.old_total.end@,
        !h.mem[h.order()[done]].marked ==> h.dest(done + 1) == h.dest(done),
{
    reveal(forwarding);
    lemma_order(h);
    assert(h.object_ok(h.order()[done]));
    if h.mem[h.order()[done]].marked {
        lemma_dest(h, done);
    }
}

/// Writing the forwarding slots goes on where the next object is seen: its
/// slot is written if it is marked.
pub proof fn lemma_forwarding_step(
    h: HeapView,
    mem: Map<Address, ObjView>,
    done: int,
    after: Map<Address, ObjView>,
)
    requires
        h.wf(),
        forwarding(h, mem, done),
        done < h.order().len(),
        after == if h.mem[h.order()[done]].marked {
            mem.insert(h.order()[done], ObjView { fwdptr: h.dest(done), ..mem[h.order()[done]] })
        } else {
            mem
        },
    ensures
        forwarding(h, after, done + 1),
{
    reveal(forwarding);
    lemma_order(h);
    let addr = h.order()[done];
    assert(h.object_ok(h.order()[done]));
    assert forall|k: int| 0 <= k < done + 1 implies after[#[trigger] h.order()[k]] == if h.mem[h.order()[k]].marked {
        ObjView { fwdptr: h.dest(k), ..h.mem[h.order()[k]] }
    } else {
        h.mem[h.order()[k]]
    } by {
        if k < done {
            assert(h.order()[k] != addr);
        }
    }
    assert forall|k: int| done + 1 <= k < h.order().len() implies after[#[trigger] h.order()[k]]
        == h.mem[h.order()[k]] by {
        assert(h.order()[k] != addr);
    }
    assert forall|j: int| 0 <= j < h.large_objects.len() implies after[#[trigger] h.large_objects[j]]
        == h.mem[h.large_objects[j]] by {
        assert(!h.moves(h.large_objects[j]));
        assert(h.moves(h.order()[done]));
    }
}

/// Where all objects of the walk order were seen, the forwarding slots are written.
pub proof fn lemma_forwarding_end(h: HeapView, mem: Map<Address, ObjView>)
    requires
        forwarding(h, mem, h.order().len() as int),
    ensures
        h.forwards(mem),
{
    reveal(forwarding);
    reveal(HeapView::forwards);
}

impl HeapView {
    /// The objects of the heap: those of the walk order, then the large objects.
    pub open spec fn objects(self) -> Seq<Address> {
        self.order() + self.large_objects
    }

    /// The reference fields of the object at `addr` with the first `done`
    /// of them forwarded.
    pub open spec fn partly_forwarded(self, addr: Address, done: int) -> Seq<Address> {
        Seq::new(
            self.mem[addr].fields.len(),
            |f: int|
                if f < done {
                    self.forward(self.mem[addr].fields[f])
                } else {
                    self.mem[addr].fields[f]
                },
        )
    }
}

/// What holds while the references are updated, with the first `done`
/// objects of the heap seen and the first `fields` fields of the next one
/// forwarded: the memory `mem` holds the objects of the heap `h`, changed in
/// their reference fields only; in each marked object among those seen every
/// reference is forwarded; the objects behind the next one are as they were.
#[verifier::opaque]
pub open spec fn updating(h: HeapView, mem: Map<Address, ObjView>, done: int, fields: int) -> bool {
    &&& 0 <= done <= h.objects().len()
    &&& forall|a: Address| #[trigger] mem.contains_key(a) <==> h.mem.contains_key(a)
    &&& forall|a: Address| #[trigger]
        mem.contains_key(a) ==> mem[a] == (ObjView { fields: mem[a].fields, ..h.mem[a] })
            && mem[a].fields.len() == h.mem[a].fields.len()
    &&& forall|k: int|
        0 <= k < done ==> mem[#[trigger] h.objects()[k]] == if h.mem[h.objects()[k]].marked {
            h.forwarded(h.objects()[k])
        } else {
            h.mem[h.objects()[k]]
        }
    &&& forall|k: int|
        done < k < h.objects().len() ==> mem[#[trigger] h.objects()[k]] == h.mem[h.objects()[k]]
    &&& done < h.objects().len() ==> mem[h.objects()[done]].fields == h.partly_forwarded(
        h.objects()[done],
        fields,
    )
}

/// What a well-formed heap gives for its objects: each is in the memory,
/// none occurs twice, and every object of the memory is one of them.
pub proof fn lemma_objects(h: HeapView)
    requires
        h.wf(),
    ensures
        forall|k: int| 0 <= k < h.objects().len() ==> h.object_ok(#[trigger] h.objects()[k]),
        h.objects().no_duplicates(),
        forall|a: Address| #[trigger] h.mem.contains_key(a) ==> h.objects().contains(a),
{
    lemma_order(h);
    let all = h.objects();
    let n = h.order().len() as int;
    assert forall|k: int| 0 <= k < all.len() implies h.object_ok(#[trigger] all[k]) by {
        if k < n {
            assert(h.object_ok(h.order()[k]));
        } else {
            assert(h.object_ok(h.large_objects[k - n]));
        }
    }
    assert forall|k: int, l: int| 0 <= k < all.len() && 0 <= l < all.len() && k != l implies all[k]
        != all[l] by {
        if k < n && l < n {
            assert(h.order()[k] != h.order()[l]);
        } else if k >= n && l >= n {
            assert(h.large_objects[k - n] != h.large_objects[l - n]);
        } else if k < n {
            assert(h.moves(h.order()[k]));
            assert(!h.moves(h.large_objects[l - n]));
        } else {
            assert(h.moves(h.order()[l]));
            assert(!h.moves(h.large_objects[k - n]));
        }
    }
    assert forall|a: Address| #[trigger] h.mem.contains_key(a) implies all.contains(a) by {
        if h.order().contains(a) {
            let k = choose|k: int| 0 <= k < h.order().len() && h.order()[k] == a;
            assert(all[k] == a);
        } else {
            let j = choose|j: int| 0 <= j < h.large_objects.len() && h.large_objects[j] == a;
            assert(all[n + j] == a);
        }
    }
}

/// Updating the references starts with the memory of the heap.
pub proof fn lemma_updating_start(h: HeapView)
    ensures
        updating(h, h.mem, 0, 0),
{
    reveal(updating);
    if 0 < h.objects().len() {
        assert(h.mem[h.objects()[0]].fields =~= h.partly_forwarded(h.objects()[0], 0));
    }
}

/// The object whose fields are looked at next is in the memory, with the
/// header that it has in the heap and as many fields; the next field holds
/// what it holds in the heap, and where that points to an object that
/// moves, the object is in the memory with the forwarding slot it has in
/// the heap.
pub proof fn lemma_updating_next(h: HeapView, mem: Map<Address, ObjView>, done: int, fields: int)
    requires
        h.wf(),
        updating(h, mem, done, fields),
        done < h.objects().len(),
    ensures
        mem.contains_key(h.objects()[done]),
        mem[h.objects()[done]].marked == h.mem[h.objects()[done]].marked,
        mem[h.objects()[done]].fields.len() == h.mem[h.objects()[done]].fields.len(),
        0 <= fields < h.mem[h.objects()[done]].fields.len() ==> {
            let value = h.mem[h.objects()[done]].fields[fields];
            &&& mem[h.objects()[done]].fields[fields] == value
            &&& h.moves(value) ==> mem.contains_key(value) && mem[value].fwdptr
                == h.mem[value].fwdptr
        },
{
    reveal(updating);
    lemma_objects(h);
    let addr = h.objects()[done];
    assert(h.object_ok(addr));
    assert(mem.contains_key(addr));
    if 0 <= fields < h.mem[addr].fields.len() {
        let value = h.mem[addr].fields[fields];
        if h.moves(value) {
            reveal(HeapView::wf);
            assert(h.valid_refs(h.mem[addr].fields));
            assert(h.valid_ref(h.mem[addr].fields[fields]));
            assert(mem.contains_key(value));
        }
    }
}

/// Updating the references goes on where the next field of the object that
/// is looked at is forwarded.
pub proof fn lemma_updating_field(
    h: HeapView,
    mem: Map<Address, ObjView>,
    done: int,
    fields: int,
    after: Map<Address, ObjView>,
)
    requires
        h.wf(),
        updating(h, mem, done, fields),
        done < h.objects().len(),
        0 <= fields < h.mem[h.objects()[done]].fields.len(),
        after == mem.insert(
            h.objects()[done],
            ObjView {
                fields: mem[h.objects()[done]].fields.update(
                    fields,
                    h.forward(h.mem[h.objects()[done]].fields[fields]),
                ),
                ..mem[h.objects()[done]]
            },
        ),
    ensures
        updating(h, after, done, fields + 1),
{
    reveal(updating);
    lemma_objects(h);
    let all = h.objects();
    let addr = all[done];
    assert(h.object_ok(addr));
    assert(mem.contains_key(addr));
    assert(after[addr].fields =~= h.partly_forwarded(addr, fields + 1));
    assert forall|k: int| 0 <= k < done implies after[#[trigger] all[k]] == if h.mem[all[k]].marked {
        h.forwarded(all[k])
    } else {
        h.mem[all[k]]
    } by {
        assert(all[k] != addr);
    }
    assert forall|k: int| done < k < all.len() implies after[#[trigger] all[k]] == h.mem[all[k]] by {
        assert(all[k] != addr);
    }
}

/// Updating the references goes on to the next object where the object
/// that is looked at is not marked, or all its fields are forwarded.
pub proof fn lemma_updating_object(h: HeapView, mem: Map<Address, ObjView>, done: int, fields: int)
    requires
        h.wf(),
        updating(h, mem, done, fields),
        done < h.objects().len(),
        if h.mem[h.objects()[done]].marked {
            fields == h.mem[h.objects()[done]].fields.len()
        } else {
            fields == 0
        },
    ensures
        updating(h, mem, done + 1, 0),
{
    reveal(updating);
    lemma_objects(h);
    let all = h.objects();
    let addr = all[done];
    assert(h.object_ok(addr));
    assert(mem.contains_key(addr));
    if h.mem[addr].marked {
        assert(mem[addr].fields =~= h.forwarded(addr).fields);
    } else {
        assert(mem[addr].fields =~= h.mem[addr].fields);
    }
    if done + 1 < all.len() {
        assert(mem[all[done + 1]].fields =~= h.partly_forwarded(all[done + 1], 0));
    }
}

/// Where all objects were seen, the references are updated.
pub proof fn lemma_updating_end(h: HeapView, mem: Map<Address, ObjView>)
    requires
        h.wf(),
        updating(h, mem, h.objects().len() as int, 0),
    ensures
        h.updates(mem),
{
    reveal(updating);
    reveal(HeapView::updates);
    lemma_objects(h);
    assert forall|a: Address| #[trigger] h.mem.contains_key(a) implies mem[a] == if h.mem[a].marked {
        h.forwarded(a)
    } else {
        h.mem[a]
    } by {
        let k = choose|k: int| 0 <= k < h.objects().len() && h.objects()[k] == a;
        assert(mem[h.objects()[k]] == if h.mem[h.objects()[k]].marked {
            h.forwarded(h.objects()[k])
        } else {
            h.mem[h.objects()[k]]
        });
    }
}

impl HeapView {
    /// Whether `mem` holds the objects of this heap, changed in their
    /// reference fields only.
    pub open spec fn same_headers(self, mem: Map<Address, ObjView>) -> bool {
        &&& forall|a: Address| #[trigger] mem.contains_key(a) <==> self.mem.contains_key(a)
        &&& forall|a: Address| #[trigger]
            mem.contains_key(a) ==> mem[a] == (ObjView { fields: mem[a].fields, ..self.mem[a] })
    }

    /// Whether each marked object of the walk order has in its forwarding
    /// slot the place it goes to.
    pub open spec fn is_forwarded(self) -> bool {
        forall|k: int|
            0 <= k < self.order().len() && self.mem[#[trigger] self.order()[k]].marked
                ==> self.mem[self.order()[k]].fwdptr == self.dest(k)
    }
}

/// What holds while the marked objects are relocated, with the first `done`
/// objects of the walk order seen: of the objects that the memory `src` held
/// for the heap `base`, `mem` holds each marked one among those seen at the
/// place it goes to, with its mark cleared, those not yet seen and the large
/// objects as they were, and nothing else; the objects `placed` fill the old
/// generation, in ascending order, up to the place where the next one goes.
#[verifier::opaque]
pub open spec fn relocating(
    base: HeapView,
    src: Map<Address, ObjView>,
    mem: Map<Address, ObjView>,
    done: int,
    placed: Seq<Address>,
) -> bool {
    let order = base.order();
    &&& 0 <= done <= order.len()
    &&& forall|k: int|
        0 <= k < done && base.mem[#[trigger] order[k]].marked ==> mem.contains_key(base.dest(k))
            && mem[base.dest(k)] == (ObjView { marked: false, ..src[order[k]] })
    &&& forall|k: int|
        done <= k < order.len() ==> mem.contains_key(#[trigger] order[k]) && mem[order[k]]
            == src[order[k]]
    &&& forall|j: int|
        0 <= j < base.large_objects.len() ==> mem.contains_key(#[trigger] base.large_objects[j])
            && mem[base.large_objects[j]] == src[base.large_objects[j]]
    &&& forall|d: Address| #[trigger]
        mem.contains_key(d) ==> {
            ||| base.large_objects.contains(d)
            ||| exists|k: int|
                0 <= k < done && base.mem[#[trigger] order[k]].marked && base.dest(k) == d
            ||| exists|k: int| done <= k < order.len() && #[trigger] order[k] == d
        }
    &&& crate::heap::tiled(mem, base.old_total.start, base.dest(done), placed)
    &&& forall|x: int, y: int|
        0 <= x < y < placed.len() ==> (#[trigger] placed[x])@ + mem[placed[x]].size <= (
        #[trigger] placed[y])@
    &&& forall|x: int|
        0 <= x < placed.len() ==> exists|k: int|
            0 <= k < done && base.mem[#[trigger] order[k]].marked && base.dest(k)
                == #[trigger] placed[x]
    &&& forall|k: int|
        0 <= k < done && base.mem[#[trigger] order[k]].marked ==> placed.contains(base.dest(k))
}

/// Relocation starts with the memory as it is and nothing placed.
pub proof fn lemma_relocating_start(base: HeapView, src: Map<Address, ObjView>)
    requires
        base.wf(),
        base.same_headers(src),
    ensures
        relocating(base, src, src, 0, Seq::empty()),
{
    reveal(relocating);
    reveal(crate::heap::tiled);
    lemma_order(base);
    reveal(HeapView::wf);
    assert forall|k: int| 0 <= k < base.order().len() implies src.contains_key(
        #[trigger] base.order()[k],
    ) by {
        assert(base.object_ok(base.order()[k]));
    }
    assert forall|j: int| 0 <= j < base.large_objects.len() implies src.contains_key(
        #[trigger] base.large_objects[j],
    ) by {
        assert(base.object_ok(base.large_objects[j]));
    }
    assert forall|d: Address| #[trigger] src.contains_key(d) implies {
        ||| base.large_objects.contains(d)
        ||| exists|k: int|
            0 <= k < 0 && base.mem[#[trigger] base.order()[k]].marked && base.dest(k) == d
        ||| exists|k: int| 0 <= k < base.order().len() && #[trigger] base.order()[k] == d
    } by {
        assert(base.mem.contains_key(d));
        if base.order().contains(d) {
            let k = choose|k: int| 0 <= k < base.order().len() && base.order()[k] == d;
            assert(base.order()[k] == d);
        }
    }
}

/// The next object to be seen is in the memory as it was; if it is marked,
/// its forwarding slot holds the place it goes to, which lies in the old
/// generation, and no other object of the memory lies in the way.
pub proof fn lemma_relocating_next(
    base: HeapView,
    src: Map<Address, ObjView>,
    mem: Map<Address, ObjView>,
    done: int,
    placed: Seq<Address>,
)
    requires
        base.wf(),
        base.fits(),
        base.is_forwarded(),
        base.same_headers(src),
        relocating(base, src, mem, done, placed),
        done < base.order().len(),
    ensures
        mem.contains_key(base.order()[done]),
        mem[base.order()[done]] == src[base.order()[done]],
        mem[base.order()[done]].marked == base.mem[base.order()[done]].marked,
        mem[base.order()[done]].size == base.mem[base.order()[done]].size,
        mem[base.order()[done]].size > 0,
        base.mem[base.order()[done]].marked ==> {
            let addr = base.order()[done];
            let dest = base.dest(done);
            &&& mem[addr].fwdptr == dest
            &&& base.old_total.start@ <= dest@
            &&& dest@ + mem[addr].size == base.dest(done + 1)@
            &&& base.dest(done + 1)@ <= base.old_total.end@
            &&& dest@ <= addr@ || addr@ + mem[addr].size <= dest@
            &&& forall|other: Address| #[trigger]
                mem.contains_key(other) && other != addr ==> other@ + mem[other].size <= dest@
                    || dest@ + mem[addr].size <= other@
        },
        !base.mem[base.order()[done]].marked ==> base.dest(done + 1) == base.dest(done),
{
    reveal(relocating);
    lemma_order(base);
    let order = base.order();
    let addr = order[done];
    assert(base.object_ok(order[done]));
    assert(src.contains_key(addr));
    if base.mem[addr].marked {
        lemma_dest(base, done);
        let dest = base.dest(done);
        assert(dest@ <= addr@ || addr@ + mem[addr].size <= dest@) by {
            reveal(HeapView::wf);
            let split = base.old_objects.len() as int;
            if done >= split {
                assert(base.object_ok(base.young_objects[done - split]));
            }
        }
        assert forall|other: Address| #[trigger] mem.contains_key(other) && other != addr implies other@
            + mem[other].size <= dest@ || dest@ + mem[addr].size <= other@ by {
            if base.large_objects.contains(other) {
                let j = choose|j: int|
                    0 <= j < base.large_objects.len() && base.large_objects[j] == other;
                assert(mem[base.large_objects[j]] == src[base.large_objects[j]]);
                assert(base.object_ok(base.large_objects[j]));
                assert(src.contains_key(other));
                lemma_way_is_free(base, done, other);
            } else if exists|k: int|
                0 <= k < done && base.mem[#[trigger] order[k]].marked && base.dest(k) == other {
                let k = choose|k: int|
                    0 <= k < done && base.mem[#[trigger] order[k]].marked && base.dest(k) == other;
                lemma_dest_ascends(base, k, done);
                assert(base.object_ok(order[k]));
                assert(src.contains_key(order[k]));
            } else {
                let k = choose|k: int| done <= k < order.len() && #[trigger] order[k] == other;
                assert(mem[order[k]] == src[order[k]]);
                assert(base.object_ok(order[k]));
                assert(src.contains_key(other));
                lemma_way_is_free(base, done, other);
            }
        }
    }
}

/// Relocation goes on where the next object, which is marked, is moved to
/// the place it goes to and its mark is cleared.
pub proof fn lemma_relocating_move(
    base: HeapView,
    src: Map<Address, ObjView>,
    mem: Map<Address, ObjView>,
    done: int,
    placed: Seq<Address>,
    after: Map<Address, ObjView>,
)
    requires
        base.wf(),
        base.fits(),
        base.is_forwarded(),
        base.same_headers(src),
        relocating(base, src, mem, done, placed),
        done < base.order().len(),
        base.mem[base.order()[done]].marked,
        after == mem.remove(base.order()[done]).insert(
            base.dest(done),
            ObjView { marked: false, ..mem[base.order()[done]] },
        ),
    ensures
        relocating(base, src, after, done + 1, placed.push(base.dest(done))),
{
    lemma_relocating_next(base, src, mem, done, placed);
    reveal(relocating);
    lemma_order(base);
    lemma_dest(base, done);
    let order = base.order();
    let addr = order[done];
    let dest = base.dest(done);
    let more = placed.push(dest);
    assert(base.object_ok(order[done]));
    assert forall|k: int| 0 <= k < done + 1 && base.mem[#[trigger] order[k]].marked implies after.contains_key(
        base.dest(k),
    ) && after[base.dest(k)] == (ObjView { marked: false, ..src[order[k]] }) by {
        if k < done {
            lemma_left_behind(base, k, done);
            lemma_dest_ascends(base, k, done);
            assert(base.object_ok(order[k]));
        }
    }
    assert forall|k: int| done + 1 <= k < order.len() implies after.contains_key(#[trigger] order[k])
        && after[order[k]] == src[order[k]] by {
        lemma_left_behind(base, done, k);
        assert(order[k] != addr);
    }
    assert forall|j: int| 0 <= j < base.large_objects.len() implies after.contains_key(
        #[trigger] base.large_objects[j],
    ) && after[base.large_objects[j]] == src[base.large_objects[j]] by {
        assert(!base.moves(base.large_objects[j]));
        assert(base.moves(order[done]));
        lemma_large_not_dest(base, done, j);
    }
    assert forall|d: Address| #[trigger] after.contains_key(d) implies {
        ||| base.large_objects.contains(d)
        ||| exists|k: int|
            0 <= k < done + 1 && base.mem[#[trigger] order[k]].marked && base.dest(k) == d
        ||| exists|k: int| done + 1 <= k < order.len() && #[trigger] order[k] == d
    } by {
        if d == dest {
            assert(base.mem[order[done]].marked && base.dest(done) == d);
        } else {
            assert(mem.contains_key(d));
            if base.large_objects.contains(d) {
            } else if exists|k: int|
                0 <= k < done && base.mem[#[trigger] order[k]].marked && base.dest(k) == d {
                let k = choose|k: int|
                    0 <= k < done && base.mem[#[trigger] order[k]].marked && base.dest(k) == d;
                assert(0 <= k < done + 1 && base.mem[order[k]].marked && base.dest(k) == d);
            } else {
                let k = choose|k: int| done <= k < order.len() && #[trigger] order[k] == d;
                assert(k != done);
                assert(done + 1 <= k < order.len() && order[k] == d);
            }
        }
    }
    assert forall|x: int| 0 <= x < placed.len() implies after.contains_key(#[trigger] placed[x])
        && after[placed[x]].size == mem[placed[x]].size by {
        let k = choose|k: int|
            0 <= k < done && base.mem[#[trigger] order[k]].marked && base.dest(k) == placed[x];
        lemma_left_behind(base, k, done);
        lemma_dest_ascends(base, k, done);
        assert(base.object_ok(order[k]));
    }
    crate::heap::lemma_tiled_same_sizes(mem, after, base.old_total.start, dest, placed);
    crate::heap::lemma_tiled_extend(after, base.old_total.start, dest, placed);
    assert forall|x: int, y: int| 0 <= x < y < more.len() implies (#[trigger] more[x])@
        + after[more[x]].size <= (#[trigger] more[y])@ by {
        if y < placed.len() {
            assert(placed[x]@ + mem[placed[x]].size <= placed[y]@);
        }
    }
    assert forall|k: int| 0 <= k < done + 1 && base.mem[#[trigger] order[k]].marked implies more.contains(
        base.dest(k),
    ) by {
        if k < done {
            assert(placed.contains(base.dest(k)));
            let x = choose|x: int| 0 <= x < placed.len() && placed[x] == base.dest(k);
            assert(more[x] == base.dest(k));
        } else {
            assert(more[placed.len() as int] == base.dest(k));
        }
    }
    assert forall|x: int| 0 <= x < more.len() implies exists|k: int|
        0 <= k < done + 1 && base.mem[#[trigger] order[k]].marked && base.dest(k)
            == #[trigger] more[x] by {
        if x < placed.len() {
            let k = choose|k: int|
                0 <= k < done && base.mem[#[trigger] order[k]].marked && base.dest(k) == placed[x];
            assert(0 <= k < done + 1 && base.mem[order[k]].marked && base.dest(k) == more[x]);
        } else {
            assert(base.mem[order[done]].marked && base.dest(done) == more[x]);
        }
    }
}

/// What relocation says of the objects placed: they fill the old
/// generation up to the place where the next object goes, and the next
/// step, which moves or gives up the next object, leaves them as they are.
pub proof fn lemma_relocating_placed(
    base: HeapView,
    src: Map<Address, ObjView>,
    mem: Map<Address, ObjView>,
    done: int,
    placed: Seq<Address>,
    after: Map<Address, ObjView>,
)
    requires
        base.wf(),
        base.fits(),
        base.is_forwarded(),
        base.same_headers(src),
        relocating(base, src, mem, done, placed),
        done < base.order().len(),
        after == if base.mem[base.order()[done]].marked {
            mem.remove(base.order()[done]).insert(
                base.dest(done),
                ObjView { marked: false, ..mem[base.order()[done]] },
            )
        } else {
            mem.remove(base.order()[done])
        },
    ensures
        crate::heap::tiled(mem, base.old_total.start, base.dest(done), placed),
        forall|x: int|
            0 <= x < placed.len() ==> after.contains_key(#[trigger] placed[x]) && after[placed[x]]
                == mem[placed[x]],
{
    reveal(relocating);
    lemma_order(base);
    let order = base.order();
    assert forall|x: int| 0 <= x < placed.len() implies after.contains_key(#[trigger] placed[x])
        && after[placed[x]] == mem[placed[x]] by {
        let k = choose|k: int|
            0 <= k < done && base.mem[#[trigger] order[k]].marked && base.dest(k) == placed[x];
        lemma_left_behind(base, k, done);
        assert(base.object_ok(order[k]));
        if base.mem[order[done]].marked {
            lemma_dest_ascends(base, k, done);
        }
    }
}

/// No large object starts where a marked object goes.
pub proof fn lemma_large_not_dest(h: HeapView, k: int, j: int)
    requires
        h.wf(),
        h.fits(),
        0 <= k < h.order().len(),
        h.mem[h.order()[k]].marked,
        0 <= j < h.large_objects.len(),
    ensures
        h.dest(k) != h.large_objects[j],
{
    lemma_dest(h, k);
    lemma_order(h);
    assert(h.object_ok(h.large_objects[j]));
    assert(h.object_ok(h.order()[k]));
}

/// Relocation goes on where the next object, which is not marked, is given up.
pub proof fn lemma_relocating_drop(
    base: HeapView,
    src: Map<Address, ObjView>,
    mem: Map<Address, ObjView>,
    done: int,
    placed: Seq<Address>,
    after: Map<Address, ObjView>,
)
    requires
        base.wf(),
        base.fits(),
        base.is_forwarded(),
        base.same_headers(src),
        relocating(base, src, mem, done, placed),
        done < base.order().len(),
        !base.mem[base.order()[done]].marked,
        after == mem.remove(base.order()[done]),
    ensures
        relocating(base, src, after, done + 1, placed),
{
    lemma_relocating_next(base, src, mem, done, placed);
    reveal(relocating);
    lemma_order(base);
    let order = base.order();
    let addr = order[done];
    assert forall|k: int| 0 <= k < done + 1 && base.mem[#[trigger] order[k]].marked implies after.contains_key(
        base.dest(k),
    ) && after[base.dest(k)] == (ObjView { marked: false, ..src[order[k]] }) by {
        lemma_left_behind(base, k, done);
    }
    assert forall|k: int| done + 1 <= k < order.len() implies after.contains_key(#[trigger] order[k])
        && after[order[k]] == src[order[k]] by {
        assert(order[k] != addr);
    }
    assert forall|j: int| 0 <= j < base.large_objects.len() implies after.contains_key(
        #[trigger] base.large_objects[j],
    ) && after[base.large_objects[j]] == src[base.large_objects[j]] by {
        assert(!base.moves(base.large_objects[j]));
        assert(base.moves(order[done]));
    }
    assert forall|d: Address| #[trigger] after.contains_key(d) implies {
        ||| base.large_objects.contains(d)
        ||| exists|k: int|
            0 <= k < done + 1 && base.mem[#[trigger] order[k]].marked && base.dest(k) == d
        ||| exists|k: int| done + 1 <= k < order.len() && #[trigger] order[k] == d
    } by {
        assert(mem.contains_key(d));
        if base.large_objects.contains(d) {
        } else if exists|k: int|
            0 <= k < done && base.mem[#[trigger] order[k]].marked && base.dest(k) == d {
            let k = choose|k: int|
                0 <= k < done && base.mem[#[trigger] order[k]].marked && base.dest(k) == d;
            assert(0 <= k < done + 1 && base.mem[order[k]].marked && base.dest(k) == d);
        } else {
            let k = choose|k: int| done <= k < order.len() && #[trigger] order[k] == d;
            assert(k != done);
            assert(done + 1 <= k < order.len() && order[k] == d);
        }
    }
    assert forall|x: int| 0 <= x < placed.len() implies after.contains_key(#[trigger] placed[x])
        && after[placed[x]].size == mem[placed[x]].size by {
        let k = choose|k: int|
            0 <= k < done && base.mem[#[trigger] order[k]].marked && base.dest(k) == placed[x];
        lemma_left_behind(base, k, done);
    }
    crate::heap::lemma_tiled_same_sizes(mem, after, base.old_total.start, base.dest(done), placed);
    assert forall|x: int, y: int| 0 <= x < y < placed.len() implies (#[trigger] placed[x])@
        + after[placed[x]].size <= (#[trigger] placed[y])@ by {
        assert(placed[x]@ + mem[placed[x]].size <= placed[y]@);
    }
    assert forall|x: int| 0 <= x < placed.len() implies exists|k: int|
        0 <= k < done + 1 && base.mem[#[trigger] order[k]].marked && base.dest(k)
            == #[trigger] placed[x] by {
        let k = choose|k: int|
            0 <= k < done && base.mem[#[trigger] order[k]].marked && base.dest(k) == placed[x];
        assert(0 <= k < done + 1 && base.mem[order[k]].marked && base.dest(k) == placed[x]);
    }
}

/// Where all objects of the walk order were seen, the marked objects are
/// relocated, and the objects placed fill the old generation up to its new
/// top in ascending order.
pub proof fn lemma_relocating_end(
    base: HeapView,
    src: Map<Address, ObjView>,
    mem: Map<Address, ObjView>,
    placed: Seq<Address>,
)
    requires
        base.wf(),
        base.same_headers(src),
        relocating(base, src, mem, base.order().len() as int, placed),
    ensures
        (HeapView { mem: src, ..base }).relocates(mem),
        crate::heap::tiled(mem, base.old_total.start, base.new_top(), placed),
        forall|x: int, y: int|
            0 <= x < y < placed.len() ==> (#[trigger] placed[x])@ + mem[placed[x]].size <= (
            #[trigger] placed[y])@,
        forall|k: int|
            0 <= k < base.order().len() && base.mem[#[trigger] base.order()[k]].marked
                ==> placed.contains(base.dest(k)),
{
    reveal(relocating);
    reveal(HeapView::relocates);
    let h = HeapView { mem: src, ..base };
    let order = base.order();
    assert(h.order() == order);
    assert forall|k: int| 0 <= k <= order.len() implies #[trigger] h.dest(k) == base.dest(k) by {
        lemma_same_headers_bytes(base, src, k);
    }
    assert forall|d: Address| #[trigger] mem.contains_key(d) implies h.large_objects.contains(d)
        || exists|k: int|
        0 <= k < h.order().len() && h.mem[#[trigger] h.order()[k]].marked && h.dest(k) == d by {
        if !base.large_objects.contains(d) {
            let k = choose|k: int|
                0 <= k < order.len() && base.mem[#[trigger] order[k]].marked && base.dest(k) == d;
            assert(h.dest(k) == base.dest(k));
            lemma_order(base);
            assert(base.object_ok(order[k]));
            lemma_same_headers_mark(base, src, k);
        }
    }
    assert forall|k: int|
        0 <= k < h.order().len() && h.mem[#[trigger] h.order()[k]].marked implies mem.contains_key(
        h.dest(k),
    ) && mem[h.dest(k)] == (ObjView { marked: false, ..h.mem[h.order()[k]] }) by {
        assert(h.dest(k) == base.dest(k));
        lemma_order(base);
        assert(base.object_ok(order[k]));
        lemma_same_headers_mark(base, src, k);
    }
}

/// In a memory that holds the objects of a heap changed in their fields
/// only, an object of the walk order has the mark it has in the heap,
/// provided it is in the heap.
pub proof fn lemma_same_headers_mark(base: HeapView, src: Map<Address, ObjView>, k: int)
    requires
        base.same_headers(src),
        0 <= k < base.order().len(),
    ensures
        base.mem.contains_key(base.order()[k]) ==> src[base.order()[k]].marked
            == base.mem[base.order()[k]].marked && src[base.order()[k]].size
            == base.mem[base.order()[k]].size,
{
    let a = base.order()[k];
    if base.mem.contains_key(a) {
        assert(src.contains_key(a));
    }
}

/// A memory that holds the objects of a well-formed heap changed in their
/// fields only gives each object the same place to go to.
pub proof fn lemma_same_headers_bytes(base: HeapView, src: Map<Address, ObjView>, upto: int)
    requires
        base.wf(),
        base.same_headers(src),
        upto <= base.order().len(),
    ensures
        (HeapView { mem: src, ..base }).live_bytes(upto) == base.live_bytes(upto),
        (HeapView { mem: src, ..base }).dest(upto) == base.dest(upto),
{
    let h = HeapView { mem: src, ..base };
    lemma_order(base);
    assert(h.order() == base.order());
    assert forall|k: int| 0 <= k < base.order().len() implies base.mem[#[trigger] base.order()[k]].marked
        == h.mem[base.order()[k]].marked && base.mem[base.order()[k]].size
        == h.mem[base.order()[k]].size by {
        assert(base.object_ok(base.order()[k]));
        assert(src.contains_key(base.order()[k]));
    }
    lemma_live_bytes_same(base, h, upto);
}

/// Whether `after` is the memory `before` with the large objects swept:
/// the large objects `large` that are not marked are gone, those that are
/// marked have their mark cleared, and nothing else differs.
#[verifier::opaque]
pub open spec fn sweeps(
    before: Map<Address, ObjView>,
    large: Seq<Address>,
    after: Map<Address, ObjView>,
) -> bool {
    &&& forall|a: Address| #[trigger]
        after.contains_key(a) <==> before.contains_key(a) && !(large.contains(a)
            && !before[a].marked)
    &&& forall|a: Address| #[trigger]
        after.contains_key(a) ==> after[a] == if large.contains(a) {
            ObjView { marked: false, ..before[a] }
        } else {
            before[a]
        }
}

/// For each of `objs`, whether it is marked in `mem`.
pub open spec fn marks_of(mem: Map<Address, ObjView>, objs: Seq<Address>) -> Seq<bool> {
    Seq::new(objs.len(), |j: int| mem[objs[j]].marked)
}

/// What holds while the large objects are swept, with the first `done` of
/// them seen: those among them that were not marked are gone from the
/// memory, those that were have their mark cleared, and nothing else differs.
#[verifier::opaque]
pub open spec fn sweeping_large(
    before: Map<Address, ObjView>,
    large: Seq<Address>,
    mem: Map<Address, ObjView>,
    done: int,
) -> bool {
    &&& 0 <= done <= large.len()
    &&& forall|a: Address| #[trigger]
        mem.contains_key(a) <==> before.contains_key(a) && !(large.take(done).contains(a)
            && !before[a].marked)
    &&& forall|a: Address| #[trigger]
        mem.contains_key(a) ==> mem[a] == if large.take(done).contains(a) {
            ObjView { marked: false, ..before[a] }
        } else {
            before[a]
        }
}

/// Sweeping the large objects goes on where the next one is given up if it
/// is not marked, and has its mark cleared if it is.
pub proof fn lemma_sweeping_large_step(
    before: Map<Address, ObjView>,
    large: Seq<Address>,
    mem: Map<Address, ObjView>,
    done: int,
    after: Map<Address, ObjView>,
)
    requires
        sweeping_large(before, large, mem, done),
        done < large.len(),
        large.no_duplicates(),
        before.contains_key(large[done]),
        after == if before[large[done]].marked {
            mem.insert(large[done], ObjView { marked: false, ..mem[large[done]] })
        } else {
            mem.remove(large[done])
        },
    ensures
        mem.contains_key(large[done]),
        mem[large[done]] == before[large[done]],
        sweeping_large(before, large, after, done + 1),
{
    reveal(sweeping_large);
    let addr = large[done];
    let seen = large.take(done);
    let more = large.take(done + 1);
    assert(more =~= seen.push(addr));
    assert(!seen.contains(addr)) by {
        if seen.contains(addr) {
            let x = choose|x: int| 0 <= x < seen.len() && seen[x] == addr;
            assert(large[x] == large[done]);
        }
    }
    assert forall|a: Address| more.contains(a) <==> seen.contains(a) || a == addr by {
        if more.contains(a) {
            let x = choose|x: int| 0 <= x < more.len() && more[x] == a;
            if x < done {
                assert(seen[x] == a);
            }
        }
        if seen.contains(a) {
            let x = choose|x: int| 0 <= x < seen.len() && seen[x] == a;
            assert(more[x] == a);
        }
        if a == addr {
            assert(more[done] == a);
        }
    }
    assert(mem.contains_key(addr));
}

/// Where all large objects were seen, they are swept.
pub proof fn lemma_sweeping_large_end(
    before: Map<Address, ObjView>,
    large: Seq<Address>,
    mem: Map<Address, ObjView>,
)
    requires
        sweeping_large(before, large, mem, large.len() as int),
    ensures
        sweeps(before, large, mem),
{
    reveal(sweeping_large);
    reveal(sweeps);
    assert(large.take(large.len() as int) =~= large);
}

/// Sweeping the large objects starts with the memory as it is.
pub proof fn lemma_sweeping_large_start(before: Map<Address, ObjView>, large: Seq<Address>)
    ensures
        sweeping_large(before, large, before, 0),
{
    reveal(sweeping_large);
    assert(large.take(0) =~= Seq::<Address>::empty());
}

/// Where the object behind the object at place `x` of `objs` starts, or
/// would start: at the next of `objs`, or at `top` behind the last.
pub open spec fn start_behind(objs: Seq<Address>, top: Address, x: int) -> Address {
    if x + 1 < objs.len() {
        objs[x + 1]
    } else {
        top
    }
}

/// Whether the crossing map `map` describes the objects `objs` that fill
/// the old generation from `base` to `top`: of each card up to that of
/// `top`, it gives the place where the first object starts in it, `top`
/// counting as the start of the object to come; and of a card in which
/// none starts, whether the object that it lies in is an array of
/// references.
pub open spec fn crossing_ok(
    map: Seq<CrossingEntry>,
    base: Address,
    mem: Map<Address, ObjView>,
    objs: Seq<Address>,
    top: Address,
) -> bool {
    &&& card_of(base, top) < map.len()
    &&& forall|x: int|
        0 <= x < objs.len() && (x == 0 || card_of(base, objs[x - 1]) < card_of(base, objs[x]))
            ==> map[card_of(base, #[trigger] objs[x])] == first_object(base, objs[x])
    &&& (objs.len() == 0 || card_of(base, objs.last()) < card_of(base, top)) ==> map[card_of(
        base,
        top,
    )] == first_object(base, top)
    &&& forall|x: int, c: int|
        0 <= x < objs.len() && card_of(base, objs[x]) < c < card_of(
            base,
            start_behind(objs, top, x),
        ) ==> #[trigger] map[c] == filler(#[trigger] mem[objs[x]].array_ref)
}

/// The crossing map of an old generation with no object yet says that the
/// first object starts at its start.
pub proof fn lemma_crossing_start(map: Seq<CrossingEntry>, base: Address, mem: Map<Address, ObjView>)
    requires
        0 < map.len(),
        map[0] == CrossingEntry::FirstObject(0),
    ensures
        crossing_ok(map, base, mem, Seq::empty(), base),
{
    reveal(card_of);
    reveal(first_object);
}

/// The cards of objects that fill a range from `base` do not lie above the
/// card of the end of the range.
pub proof fn lemma_tiled_cards(
    mem: Map<Address, ObjView>,
    base: Address,
    top: Address,
    objs: Seq<Address>,
)
    requires
        crate::heap::tiled(mem, base, top, objs),
    ensures
        0 <= card_of(base, top),
        forall|x: int| 0 <= x < objs.len() ==> 0 <= card_of(base, #[trigger] objs[x]) <= card_of(base, top),
{
    reveal(crate::heap::tiled);
    lemma_card_of_mono(base, base, top);
    assert forall|x: int| 0 <= x < objs.len() implies 0 <= card_of(base, #[trigger] objs[x])
        <= card_of(base, top) by {
        assert(mem.contains_key(objs[x]));
        lemma_card_of_mono(base, objs[x], top);
    }
}

/// The crossing map describes the objects of the old generation with one
/// more object placed at the top, once that object is recorded in it.
pub proof fn lemma_crossing_step(
    map: Seq<CrossingEntry>,
    base: Address,
    mem: Map<Address, ObjView>,
    objs: Seq<Address>,
    top: Address,
    after: Map<Address, ObjView>,
    next: Address,
)
    requires
        crossing_ok(map, base, mem, objs, top),
        forall|x: int| 0 <= x < objs.len() ==> 0 <= card_of(base, #[trigger] objs[x]) <= card_of(base, top),
        0 <= card_of(base, top) <= card_of(base, next) < map.len(),
        forall|x: int| 0 <= x < objs.len() ==> after[#[trigger] objs[x]].array_ref == mem[objs[x]].array_ref,
    ensures
        crossing_ok(
            spec_update_crossing(map, base, top, next, after[top].array_ref),
            base,
            after,
            objs.push(top),
            next,
        ),
{
    let more = objs.push(top);
    let updated = spec_update_crossing(map, base, top, next, after[top].array_ref);
    let here = card_of(base, top);
    let there = card_of(base, next);
    assert forall|c: int| 0 <= c <= here implies #[trigger] updated[c] == map[c] by {}
    assert forall|x: int|
        0 <= x < more.len() && (x == 0 || card_of(base, more[x - 1]) < card_of(base, more[x])) implies updated[card_of(
        base,
        #[trigger] more[x],
    )] == first_object(base, more[x]) by {
        if x < objs.len() {
            assert(more[x] == objs[x]);
            if x > 0 {
                assert(more[x - 1] == objs[x - 1]);
            }
            assert(0 <= card_of(base, objs[x]) <= here);
            assert(map[card_of(base, objs[x])] == first_object(base, objs[x]));
        } else {
            assert(more[x] == top);
            if objs.len() > 0 {
                assert(more[x - 1] == objs.last());
            }
            assert(updated[here] == map[here]);
        }
    }
    assert forall|x: int, c: int|
        0 <= x < more.len() && card_of(base, more[x]) < c < card_of(
            base,
            start_behind(more, next, x),
        ) implies #[trigger] updated[c] == filler(#[trigger] after[more[x]].array_ref) by {
        if x < objs.len() {
            assert(more[x] == objs[x]);
            assert(start_behind(more, next, x) == start_behind(objs, top, x));
            if x + 1 < objs.len() {
                assert(card_of(base, objs[x + 1]) <= here);
            }
            assert(0 <= card_of(base, objs[x]));
            assert(updated[c] == map[c]);
            assert(map[c] == filler(mem[objs[x]].array_ref));
        } else {
            assert(more[x] == top);
        }
    }
}

/// The crossing map describes the objects of the old generation alike in
/// memories that agree in the kind of these objects.
pub proof fn lemma_crossing_same(
    map: Seq<CrossingEntry>,
    base: Address,
    mem: Map<Address, ObjView>,
    other: Map<Address, ObjView>,
    objs: Seq<Address>,
    top: Address,
)
    requires
        crossing_ok(map, base, mem, objs, top),
        forall|x: int| 0 <= x < objs.len() ==> other[#[trigger] objs[x]].array_ref == mem[objs[x]].array_ref,
    ensures
        crossing_ok(map, base, other, objs, top),
{
    assert forall|x: int, c: int|
        0 <= x < objs.len() && card_of(base, objs[x]) < c < card_of(
            base,
            start_behind(objs, top, x),
        ) implies #[trigger] map[c] == filler(#[trigger] other[objs[x]].array_ref) by {
        assert(map[c] == filler(mem[objs[x]].array_ref));
    }
}

} // verus!
