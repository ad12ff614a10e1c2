//! What a full collection makes of a heap, and what follows from it.

use crate::address::Address;
use crate::compact::{
    lemma_dest, lemma_index_of, lemma_large_not_dest, lemma_live_bytes_same, lemma_live_bytes_used,
    lemma_order, marks_of, sweeps,
};
use crate::heap::{HeapView, lemma_same_shape, tiled};
use crate::large::{Range, kept, object_addresses};
use crate::mark::lemma_field_reachable;
use crate::object::ObjView;
use vstd::prelude::*;

verus! {

/// The objects of `objs` whose flag in `keep` is set, in their order.
pub open spec fn retained(objs: Seq<Address>, keep: Seq<bool>) -> Seq<Address>
    decreases objs.len(),
{
    if objs.len() == 0 || keep.len() == 0 {
        Seq::empty()
    } else if keep.last() {
        retained(objs.drop_last(), keep.drop_last()).push(objs.last())
    } else {
        retained(objs.drop_last(), keep.drop_last())
    }
}

impl HeapView {
    /// What the marked object at `addr` is after the collection: its mark is
    /// cleared, its references point to where their objects went, and its
    /// forwarding slot holds where it went itself, if it moved.
    pub open spec fn survivor(self, addr: Address) -> ObjView {
        ObjView {
            marked: false,
            fwdptr: if self.moves(addr) {
                self.target(addr)
            } else {
                self.mem[addr].fwdptr
            },
            fields: self.mem[addr].fields.map_values(|v: Address| self.target(v)),
            ..self.mem[addr]
        }
    }

    /// Whether `post` is what compaction makes of this heap, in which the
    /// objects to be kept are marked: `post` holds each marked object at the
    /// place it went to, and nothing else; these objects fill the old
    /// generation from its start; the young generation is empty; the large
    /// objects are those that were marked, in their order.
    #[verifier::opaque]
    pub open spec fn compacts(self, post: HeapView) -> bool {
        &&& post.heap == self.heap
        &&& post.old_total == self.old_total
        &&& post.large_total == self.large_total
        &&& post.perm == self.perm
        &&& forall|a: Address| #[trigger]
            self.mem.contains_key(a) && self.mem[a].marked ==> post.mem.contains_key(
                self.target(a),
            ) && post.mem[self.target(a)] == self.survivor(a)
        &&& forall|d: Address| #[trigger]
            post.mem.contains_key(d) ==> exists|a: Address|
                self.mem.contains_key(a) && self.mem[a].marked && #[trigger] self.target(a) == d
        &&& tiled(post.mem, self.old_total.start, self.new_top(), post.old_objects)
        &&& forall|a: Address| #[trigger]
            self.mem.contains_key(a) && self.mem[a].marked && self.moves(a)
                ==> post.old_objects.contains(self.target(a))
        &&& post.young_objects == Seq::<Address>::empty()
        &&& post.large_objects == retained(
            self.large_objects,
            marks_of(self.mem, self.large_objects),
        )
    }

    /// Whether `post` and `post_roots` are what a collection makes of this
    /// heap with the roots `roots`: what compaction makes of the heap in
    /// which the objects that the roots reach are marked, with each root
    /// pointing to where its object went.
    pub open spec fn collects(
        self,
        roots: Seq<Address>,
        post: HeapView,
        post_roots: Seq<Address>,
    ) -> bool {
        &&& self.marked(roots).compacts(post)
        &&& post_roots == roots.map_values(|v: Address| self.marked(roots).target(v))
    }
}

/// The heap in which the objects that the roots reach are marked is well
/// formed where the heap is, its marks are closed under references, and the
/// roots may stand there as they did.
pub proof fn lemma_marked(h: HeapView, roots: Seq<Address>)
    requires
        h.wf(),
        h.valid_refs(roots),
    ensures
        h.marked(roots).wf(),
        h.marked(roots).marks_closed(),
        h.marked(roots).valid_refs(roots),
        h.marked(roots).order() == h.order(),
        forall|i: int|
            0 <= i < roots.len() && h.heap.spec_contains(#[trigger] roots[i]) ==> h.marked(
                roots,
            ).mem[roots[i]].marked,
{
    let m = h.marked(roots);
    assert forall|i: int| 0 <= i < roots.len() && h.heap.spec_contains(#[trigger] roots[i]) implies m.mem[roots[i]].marked by {
        crate::mark::lemma_root_reachable(h, roots, i);
        assert(h.valid_ref(roots[i]));
    }
    assert forall|a: Address| #[trigger] m.mem.contains_key(a) implies m.valid_refs(m.mem[a].fields) by {
        reveal(HeapView::wf);
        assert(h.mem.contains_key(a));
        assert(h.valid_refs(h.mem[a].fields));
        assert forall|k: int| 0 <= k < m.mem[a].fields.len() implies m.valid_ref(
            #[trigger] m.mem[a].fields[k],
        ) by {
            assert(h.valid_ref(h.mem[a].fields[k]));
        }
    }
    lemma_same_shape(h, m);
    assert forall|addr: Address, k: int|
        m.mem.contains_key(addr) && m.mem[addr].marked && 0 <= k < m.mem[addr].fields.len()
            && m.heap.spec_contains(#[trigger] m.mem[addr].fields[k]) implies m.mem[m.mem[addr].fields[k]].marked by {
        lemma_field_reachable(h, roots, addr, k);
        reveal(HeapView::wf);
        assert(h.valid_refs(h.mem[addr].fields));
        assert(h.valid_ref(h.mem[addr].fields[k]));
    }
    assert forall|i: int| 0 <= i < roots.len() implies m.valid_ref(#[trigger] roots[i]) by {
        assert(h.valid_ref(roots[i]));
    }
}

/// What the phases of compaction make of a heap in which the objects to be
/// kept are marked: the memory holds each marked object at the place it went
/// to, and nothing else.
pub proof fn lemma_phases(
    m: HeapView,
    forwarded: Map<Address, ObjView>,
    updated: Map<Address, ObjView>,
    relocated: Map<Address, ObjView>,
    swept: Map<Address, ObjView>,
)
    requires
        m.wf(),
        m.fits(),
        m.marks_closed(),
        m.forwards(forwarded),
        (HeapView { mem: forwarded, ..m }).updates(updated),
        (HeapView { mem: updated, ..m }).relocates(relocated),
        sweeps(relocated, m.large_objects, swept),
    ensures
        forall|a: Address| #[trigger]
            m.mem.contains_key(a) && m.mem[a].marked ==> swept.contains_key(m.target(a))
                && swept[m.target(a)] == m.survivor(a),
        forall|d: Address| #[trigger]
            swept.contains_key(d) ==> exists|a: Address|
                m.mem.contains_key(a) && m.mem[a].marked && #[trigger] m.target(a) == d,
{
    reveal(HeapView::forwards);
    reveal(HeapView::updates);
    reveal(HeapView::relocates);
    reveal(sweeps);
    let h2 = HeapView { mem: forwarded, ..m };
    let h3 = HeapView { mem: updated, ..m };
    let order = m.order();
    lemma_order(m);
    assert(h2.order() == order && h3.order() == order);
    // the forwarding slots, as the references see them
    assert forall|a: Address, i: int|
        m.mem.contains_key(a) && m.mem[a].marked && 0 <= i < m.mem[a].fields.len() implies h2.forward(
        #[trigger] m.mem[a].fields[i],
    ) == m.target(m.mem[a].fields[i]) by {
        let v = m.mem[a].fields[i];
        if m.moves(v) {
            reveal(HeapView::wf);
            assert(m.valid_refs(m.mem[a].fields));
            assert(m.valid_ref(m.mem[a].fields[i]));
            assert(m.mem[m.mem[a].fields[i]].marked);
            assert(m.order().contains(v));
            let k = m.order().index_of(v);
            assert(forwarded[order[k]] == (ObjView { fwdptr: m.dest(k), ..m.mem[order[k]] }));
        }
    }
    // the headers of the three memories before relocation
    assert forall|a: Address| #[trigger] m.mem.contains_key(a) implies {
        &&& forwarded.contains_key(a) && updated.contains_key(a)
        &&& forwarded[a].marked == m.mem[a].marked && updated[a].marked == m.mem[a].marked
        &&& forwarded[a].size == m.mem[a].size && updated[a].size == m.mem[a].size
        &&& forwarded[a].fields == m.mem[a].fields
        &&& updated[a].fwdptr == forwarded[a].fwdptr
        &&& updated[a].array_ref == m.mem[a].array_ref
    } by {
        assert(forwarded.contains_key(a));
        if order.contains(a) {
            let k = choose|k: int| 0 <= k < order.len() && order[k] == a;
            assert(forwarded[order[k]].size == m.mem[order[k]].size);
        } else {
            let j = choose|j: int| 0 <= j < m.large_objects.len() && m.large_objects[j] == a;
            assert(forwarded[m.large_objects[j]] == m.mem[m.large_objects[j]]);
        }
        assert(h2.mem.contains_key(a));
        assert(updated.contains_key(a));
        assert(forwarded[a].marked == m.mem[a].marked);
        assert(updated[a].marked == m.mem[a].marked);
        assert(forwarded[a].size == m.mem[a].size);
        assert(updated[a].size == m.mem[a].size);
        assert(forwarded[a].fields == m.mem[a].fields);
        assert(updated[a].fwdptr == forwarded[a].fwdptr);
        assert(updated[a].array_ref == m.mem[a].array_ref);
    }
    assert forall|k: int| 0 <= k <= order.len() implies h3.dest(k) == #[trigger] m.dest(k) by {
        assert forall|x: int| 0 <= x < order.len() implies m.mem[#[trigger] m.order()[x]].marked
            == h3.mem[m.order()[x]].marked && m.mem[m.order()[x]].size
            == h3.mem[m.order()[x]].size by {
            assert(m.object_ok(order[x]));
        }
        lemma_live_bytes_same(m, h3, k);
    }
    assert forall|a: Address| #[trigger] m.mem.contains_key(a) && m.mem[a].marked implies swept.contains_key(
        m.target(a),
    ) && swept[m.target(a)] == m.survivor(a) by {
        assert(updated[a] == h2.forwarded(a));
        assert(updated[a].fields =~= m.survivor(a).fields);
        if m.moves(a) {
            assert(order.contains(a));
            let k = order.index_of(a);
            assert(forwarded[order[k]] == (ObjView { fwdptr: m.dest(k), ..m.mem[order[k]] }));
            assert(h3.mem[order[k]].marked);
            assert(h3.dest(k) == m.dest(k));
            assert(relocated.contains_key(h3.dest(k)));
            assert forall|j: int| 0 <= j < m.large_objects.len() implies m.dest(k)
                != #[trigger] m.large_objects[j] by {
                lemma_large_not_dest(m, k, j);
            }
            assert(!m.large_objects.contains(m.dest(k)));
            assert(swept.contains_key(m.dest(k)));
        } else {
            assert(m.large_objects.contains(a));
            let j = choose|j: int| 0 <= j < m.large_objects.len() && m.large_objects[j] == a;
            assert(forwarded[m.large_objects[j]] == m.mem[m.large_objects[j]]);
            assert(relocated[m.large_objects[j]] == updated[m.large_objects[j]]);
            assert(swept.contains_key(a));
        }
    }
    assert forall|d: Address| #[trigger] swept.contains_key(d) implies exists|a: Address|
        m.mem.contains_key(a) && m.mem[a].marked && #[trigger] m.target(a) == d by {
        assert(relocated.contains_key(d));
        if m.large_objects.contains(d) {
            let j = choose|j: int| 0 <= j < m.large_objects.len() && m.large_objects[j] == d;
            assert(relocated[m.large_objects[j]] == updated[m.large_objects[j]]);
            assert(m.object_ok(m.large_objects[j]));
            assert(!m.moves(d));
            assert(m.mem.contains_key(d) && m.mem[d].marked && m.target(d) == d);
        } else {
            let k = choose|k: int|
                0 <= k < h3.order().len() && h3.mem[#[trigger] h3.order()[k]].marked && h3.dest(k)
                    == d;
            assert(m.object_ok(order[k]));
            lemma_index_of(m, k);
            assert(m.moves(order[k]));
            assert(m.mem.contains_key(order[k]) && m.mem[order[k]].marked && m.target(order[k])
                == d);
        }
    }
}

/// What is retained of a sequence without duplicates: the objects whose
/// flag is set, none of them twice.
pub proof fn lemma_retained(objs: Seq<Address>, keep: Seq<bool>)
    requires
        keep.len() == objs.len(),
        objs.no_duplicates(),
    ensures
        forall|x: Address| #[trigger]
            retained(objs, keep).contains(x) <==> exists|j: int|
                0 <= j < objs.len() && #[trigger] objs[j] == x && keep[j],
        retained(objs, keep).no_duplicates(),
        retained(objs, keep).len() <= objs.len(),
    decreases objs.len(),
{
    let r = retained(objs, keep);
    if objs.len() > 0 {
        let front = objs.drop_last();
        let flags = keep.drop_last();
        let rest = retained(front, flags);
        lemma_retained(front, flags);
        let n = objs.len() - 1;
        assert forall|x: Address| #[trigger] r.contains(x) <==> exists|j: int|
            0 <= j < objs.len() && #[trigger] objs[j] == x && keep[j] by {
            if r.contains(x) {
                let i = choose|i: int| 0 <= i < r.len() && r[i] == x;
                if keep.last() && i == rest.len() {
                    assert(objs[n] == x && keep[n]);
                } else {
                    assert(rest[i] == x);
                    assert(rest.contains(x));
                    let j = choose|j: int| 0 <= j < front.len() && #[trigger] front[j] == x && flags[j];
                    assert(objs[j] == x && keep[j]);
                }
            }
            if exists|j: int| 0 <= j < objs.len() && #[trigger] objs[j] == x && keep[j] {
                let j = choose|j: int| 0 <= j < objs.len() && #[trigger] objs[j] == x && keep[j];
                if j == n {
                    assert(r[rest.len() as int] == x);
                } else {
                    assert(front[j] == x && flags[j]);
                    assert(rest.contains(x));
                    let i = choose|i: int| 0 <= i < rest.len() && rest[i] == x;
                    assert(r[i] == x);
                }
            }
        }
        assert forall|a: int, b: int| 0 <= a < r.len() && 0 <= b < r.len() && a != b implies r[a]
            != r[b] by {
            if keep.last() && (a == rest.len() || b == rest.len()) {
                let other = if a == rest.len() { b } else { a };
                assert(rest[other] == r[other]);
                assert(rest.contains(rest[other]));
                let j = choose|j: int|
                    0 <= j < front.len() && #[trigger] front[j] == rest[other] && flags[j];
                assert(objs[j] != objs[n]);
            } else {
                assert(rest[a] == r[a] && rest[b] == r[b]);
            }
        }
    }
}

/// The objects of the allocations that a sweep keeps are the objects
/// retained of the objects of all allocations.
pub proof fn lemma_kept_objects(live: Seq<Range>, keep: Seq<bool>)
    requires
        keep.len() == live.len(),
    ensures
        object_addresses(kept(live, keep)) == retained(object_addresses(live), keep),
    decreases live.len(),
{
    if live.len() > 0 {
        lemma_kept_objects(live.drop_last(), keep.drop_last());
        assert(object_addresses(live).drop_last() =~= object_addresses(live.drop_last()));
        assert(object_addresses(kept(live, keep)) =~= retained(object_addresses(live), keep));
    } else {
        assert(object_addresses(kept(live, keep)) =~= retained(object_addresses(live), keep));
    }
}

/// Objects that fill a range ascend: an earlier one ends at or below the
/// start of a later one.
pub proof fn lemma_tiled_ascends(
    mem: Map<Address, ObjView>,
    start: Address,
    top: Address,
    objs: Seq<Address>,
    i: int,
    j: int,
)
    requires
        tiled(mem, start, top, objs),
        0 <= i < j < objs.len(),
    ensures
        objs[i]@ + mem[objs[i]].size <= objs[j]@,
    decreases j - i,
{
    reveal(tiled);
    assert(objs[i]@ + mem[objs[i]].size == objs[i + 1]@);
    if i + 1 < j {
        assert(mem.contains_key(objs[i + 1]));
        lemma_tiled_ascends(mem, start, top, objs, i + 1, j);
    }
}

/// Where a marked object goes lies in the heap, as the object did.
pub proof fn lemma_target_in_heap(m: HeapView, a: Address)
    requires
        m.wf(),
        m.fits(),
        m.mem.contains_key(a),
        m.mem[a].marked,
    ensures
        m.heap.spec_contains(m.target(a)),
        m.heap.start@ <= m.target(a)@,
        m.target(a)@ + m.mem[a].size <= m.heap.end@,
        m.mem[a].size > 0,
        m.moves(a) ==> m.old_total.start@ <= m.target(a)@ && m.target(a)@ + m.mem[a].size
            <= m.new_top()@ && m.new_top()@ <= m.old_total.end@ && !m.large_total.spec_contains(
            m.target(a),
        ),
        !m.moves(a) ==> m.target(a) == a && m.large_objects.contains(a),
{
    lemma_order(m);
    assert(m.object_ok(a));
    if m.moves(a) {
        assert(m.order().contains(a));
        let k = m.order().index_of(a);
        lemma_dest(m, k);
        reveal(HeapView::wf);
    }
}

/// What compaction makes of a well-formed heap, in which the objects to be
/// kept are marked and the marks are closed under references, is a
/// well-formed heap without marks, in which the references that were
/// forwarded may stand.
pub proof fn lemma_compacted(m: HeapView, post: HeapView)
    requires
        m.wf(),
        m.fits(),
        m.marks_closed(),
        m.compacts(post),
    ensures
        post.wf(),
        post.unmarked(),
        forall|v: Address| m.valid_ref(v) && (m.heap.spec_contains(v) ==> m.mem[v].marked)
            ==> post.valid_ref(#[trigger] m.target(v)),
{
    reveal(HeapView::compacts);
    lemma_order(m);
    let large = m.large_objects;
    let keep = marks_of(m.mem, large);
    lemma_retained(large, keep);
    assert forall|v: Address| m.valid_ref(v) && (m.heap.spec_contains(v) ==> m.mem[v].marked) implies post.valid_ref(
        #[trigger] m.target(v),
    ) by {
        if m.heap.spec_contains(v) {
            lemma_target_in_heap(m, v);
        }
    }
    assert forall|d: Address| #[trigger] post.mem.contains_key(d) implies !post.mem[d].marked
        && post.valid_refs(post.mem[d].fields) && post.object_ok(d) && (
    post.old_objects.contains(d) || post.large_objects.contains(d)) by {
        let a = choose|a: Address|
            m.mem.contains_key(a) && m.mem[a].marked && #[trigger] m.target(a) == d;
        assert(post.mem[m.target(a)] == m.survivor(a));
        lemma_target_in_heap(m, a);
        assert(m.object_ok(a));
        assert forall|i: int| 0 <= i < post.mem[d].fields.len() implies post.valid_ref(
            #[trigger] post.mem[d].fields[i],
        ) by {
            let v = m.mem[a].fields[i];
            assert(post.mem[d].fields[i] == m.target(v));
            reveal(HeapView::wf);
            assert(m.valid_refs(m.mem[a].fields));
            assert(m.valid_ref(m.mem[a].fields[i]));
            if m.heap.spec_contains(v) {
                assert(m.mem[m.mem[a].fields[i]].marked);
            }
        }
        if !m.moves(a) {
            let j = choose|j: int| 0 <= j < large.len() && large[j] == a;
            assert(large[j] == a && keep[j]);
            assert(post.large_objects.contains(d));
        } else {
            assert(post.old_objects.contains(d));
        }
        assert(!post.mem[d].marked);
        assert(post.object_ok(d));
        assert(post.valid_refs(post.mem[d].fields));
    }
    assert(post.wf()) by {
        reveal(HeapView::wf);
        reveal(tiled);
        assert forall|i: int| 0 <= i < post.old_objects.len() implies {
            &&& post.object_ok(#[trigger] post.old_objects[i])
            &&& post.old_total.start@ <= post.old_objects[i]@
            &&& post.old_objects[i]@ + post.mem[post.old_objects[i]].size <= post.old_total.end@
        } by {
            assert(post.mem.contains_key(post.old_objects[i]));
            lemma_live_bytes_used(m, 0);
            crate::compact::lemma_live_bytes_mono(m, 0, m.order().len() as int);
        }
        assert forall|i: int, j: int| 0 <= i < j < post.old_objects.len() implies (
        #[trigger] post.old_objects[i])@ + post.mem[post.old_objects[i]].size <= (
        #[trigger] post.old_objects[j])@ by {
            lemma_tiled_ascends(
                post.mem,
                m.old_total.start,
                m.new_top(),
                post.old_objects,
                i,
                j,
            );
        }
        assert forall|i: int| 0 <= i < post.large_objects.len() implies {
            &&& post.object_ok(#[trigger] post.large_objects[i])
            &&& post.large_total.start@ <= post.large_objects[i]@
            &&& post.large_objects[i]@ + post.mem[post.large_objects[i]].size
                <= post.large_total.end@
        } by {
            let x = post.large_objects[i];
            assert(retained(large, keep).contains(x));
            let j = choose|j: int| 0 <= j < large.len() && #[trigger] large[j] == x && keep[j];
            assert(m.object_ok(large[j]));
            assert(m.mem.contains_key(x) && m.mem[x].marked);
            assert(!m.moves(x));
            assert(post.mem[m.target(x)] == m.survivor(x));
        }
    }
}

/// The memory with the forwarding slots written holds the objects of the
/// heap, changed in their forwarding slots only.
pub proof fn lemma_forwards_headers(m: HeapView, mem: Map<Address, ObjView>)
    requires
        m.wf(),
        m.forwards(mem),
    ensures
        forall|a: Address| #[trigger] mem.contains_key(a) <==> m.mem.contains_key(a),
        forall|a: Address| #[trigger]
            m.mem.contains_key(a) ==> mem[a] == (ObjView { fwdptr: mem[a].fwdptr, ..m.mem[a] }),
{
    reveal(HeapView::forwards);
    lemma_order(m);
    assert forall|a: Address| #[trigger] m.mem.contains_key(a) implies mem[a] == (ObjView {
        fwdptr: mem[a].fwdptr,
        ..m.mem[a]
    }) by {
        if m.order().contains(a) {
            let k = choose|k: int| 0 <= k < m.order().len() && m.order()[k] == a;
            assert(mem[m.order()[k]].size == m.mem[m.order()[k]].size);
        } else {
            let j = choose|j: int| 0 <= j < m.large_objects.len() && m.large_objects[j] == a;
            assert(mem[m.large_objects[j]] == m.mem[m.large_objects[j]]);
        }
    }
}

/// The heap with the forwarding slots written is well formed, gives each
/// object the place that the heap before gave it, and holds that place in
/// the forwarding slot of each marked object.
pub proof fn lemma_forwarded(m: HeapView, mem: Map<Address, ObjView>)
    requires
        m.wf(),
        m.fits(),
        m.forwards(mem),
    ensures
        (HeapView { mem, ..m }).wf(),
        (HeapView { mem, ..m }).fits(),
        (HeapView { mem, ..m }).is_forwarded(),
        forall|k: int|
            0 <= k <= m.order().len() ==> (HeapView { mem, ..m }).dest(k) == #[trigger] m.dest(k),
        forall|v: Address| #[trigger] (HeapView { mem, ..m }).valid_ref(v) == m.valid_ref(v),
        forall|a: Address| #[trigger]
            m.mem.contains_key(a) ==> mem.contains_key(a) && mem[a].size == m.mem[a].size,
{
    let h = HeapView { mem, ..m };
    lemma_forwards_headers(m, mem);
    assert(h.wf()) by {
        assert forall|a: Address| #[trigger] h.mem.contains_key(a) implies h.valid_refs(
            h.mem[a].fields,
        ) by {
            reveal(HeapView::wf);
            assert(m.mem.contains_key(a));
            assert(m.valid_refs(m.mem[a].fields));
            assert forall|k: int| 0 <= k < h.mem[a].fields.len() implies h.valid_ref(
                #[trigger] h.mem[a].fields[k],
            ) by {
                assert(m.valid_ref(m.mem[a].fields[k]));
            }
        }
        lemma_same_shape(m, h);
    }
    assert forall|k: int| 0 <= k <= m.order().len() implies h.dest(k) == #[trigger] m.dest(k) by {
        lemma_forwards_bytes(m, mem, k);
    }
    lemma_forwards_bytes(m, mem, m.order().len() as int);
    assert(h.order() == m.order());
    assert(h.fits());
    assert(h.is_forwarded()) by {
        reveal(HeapView::forwards);
        assert forall|k: int|
            0 <= k < h.order().len() && h.mem[#[trigger] h.order()[k]].marked implies h.mem[h.order()[k]].fwdptr
            == h.dest(k) by {
            assert(h.dest(k) == m.dest(k));
            assert(mem[m.order()[k]] == if m.mem[m.order()[k]].marked {
                ObjView { fwdptr: m.dest(k), ..m.mem[m.order()[k]] }
            } else {
                m.mem[m.order()[k]]
            });
        }
    }
}

/// The memory with the forwarding slots written gives each object the
/// place that the heap gives it.
pub proof fn lemma_forwards_bytes(m: HeapView, mem: Map<Address, ObjView>, k: int)
    requires
        m.wf(),
        m.forwards(mem),
        0 <= k <= m.order().len(),
    ensures
        (HeapView { mem, ..m }).dest(k) == m.dest(k),
        (HeapView { mem, ..m }).live_bytes(k) == m.live_bytes(k),
{
    let h = HeapView { mem, ..m };
    lemma_forwards_headers(m, mem);
    lemma_order(m);
    assert forall|x: int| 0 <= x < m.order().len() implies m.mem[#[trigger] m.order()[x]].marked
        == h.mem[m.order()[x]].marked && m.mem[m.order()[x]].size == h.mem[m.order()[x]].size by {
        assert(m.object_ok(m.order()[x]));
    }
    lemma_live_bytes_same(m, h, k);
}

/// A large object has after relocation the mark, the size and the kind
/// that it had in the heap.
pub proof fn lemma_large_headers(
    m: HeapView,
    forwarded: Map<Address, ObjView>,
    updated: Map<Address, ObjView>,
    relocated: Map<Address, ObjView>,
    j: int,
)
    requires
        m.wf(),
        m.forwards(forwarded),
        (HeapView { mem: forwarded, ..m }).updates(updated),
        (HeapView { mem: updated, ..m }).relocates(relocated),
        0 <= j < m.large_objects.len(),
    ensures
        relocated.contains_key(m.large_objects[j]),
        relocated[m.large_objects[j]].marked == m.mem[m.large_objects[j]].marked,
        relocated[m.large_objects[j]].size == m.mem[m.large_objects[j]].size,
        relocated[m.large_objects[j]].array_ref == m.mem[m.large_objects[j]].array_ref,
{
    let a = m.large_objects[j];
    let h2 = HeapView { mem: forwarded, ..m };
    let h3 = HeapView { mem: updated, ..m };
    lemma_order(m);
    assert(m.object_ok(m.large_objects[j]));
    assert(forwarded.contains_key(a) && forwarded[a] == m.mem[a]) by {
        reveal(HeapView::forwards);
        assert(forwarded[m.large_objects[j]] == m.mem[m.large_objects[j]]);
    }
    assert(updated[a].marked == forwarded[a].marked && updated[a].size == forwarded[a].size
        && updated[a].array_ref == forwarded[a].array_ref) by {
        reveal(HeapView::updates);
        assert(h2.mem.contains_key(a));
    }
    assert(relocated.contains_key(a) && relocated[a] == updated[a]) by {
        reveal(HeapView::relocates);
        assert(relocated[h3.large_objects[j]] == h3.mem[h3.large_objects[j]]);
    }
}

/// What the phases of a collection leave is what compaction has to make of
/// the heap, with each root pointing to where its object went.
pub proof fn lemma_assembled(
    m: HeapView,
    post: HeapView,
    roots: Seq<Address>,
    forwarded: Map<Address, ObjView>,
    updated: Map<Address, ObjView>,
    relocated: Map<Address, ObjView>,
    live: Seq<Range>,
    after_roots: Seq<Address>,
)
    requires
        m.wf(),
        m.fits(),
        m.marks_closed(),
        m.valid_refs(roots),
        forall|i: int|
            0 <= i < roots.len() && m.heap.spec_contains(#[trigger] roots[i]) ==> m.mem[roots[i]].marked,
        m.forwards(forwarded),
        (HeapView { mem: forwarded, ..m }).updates(updated),
        (HeapView { mem: updated, ..m }).relocates(relocated),
        sweeps(relocated, m.large_objects, post.mem),
        tiled(relocated, m.old_total.start, m.new_top(), post.old_objects),
        forall|k: int|
            0 <= k < m.order().len() && m.mem[#[trigger] m.order()[k]].marked
                ==> post.old_objects.contains(m.dest(k)),
        after_roots == roots.map_values(|v: Address| (HeapView { mem: forwarded, ..m }).forward(v)),
        post.young_objects == Seq::<Address>::empty(),
        m.large_objects == object_addresses(live),
        post.large_objects == object_addresses(kept(live, marks_of(relocated, m.large_objects))),
        post.heap == m.heap,
        post.old_total == m.old_total,
        post.large_total == m.large_total,
        post.perm == m.perm,
    ensures
        m.compacts(post),
        after_roots == roots.map_values(|v: Address| m.target(v)),
        marks_of(relocated, m.large_objects) == marks_of(m.mem, m.large_objects),
        forall|j: int|
            0 <= j < m.large_objects.len() ==> relocated[#[trigger] m.large_objects[j]].size
                == m.mem[m.large_objects[j]].size && relocated[m.large_objects[j]].array_ref
                == m.mem[m.large_objects[j]].array_ref,
        forall|x: int|
            0 <= x < post.old_objects.len() ==> post.mem[#[trigger] post.old_objects[x]].array_ref
                == relocated[post.old_objects[x]].array_ref,
{
    let h2 = HeapView { mem: forwarded, ..m };
    let large = m.large_objects;
    let swept = post.mem;
    lemma_order(m);
    lemma_phases(m, forwarded, updated, relocated, swept);
    assert forall|j: int| 0 <= j < large.len() implies relocated[#[trigger] large[j]].marked
        == m.mem[large[j]].marked && relocated[large[j]].size == m.mem[large[j]].size
        && relocated[large[j]].array_ref == m.mem[large[j]].array_ref by {
        lemma_large_headers(m, forwarded, updated, relocated, j);
    }
    assert(marks_of(relocated, large) =~= marks_of(m.mem, large));
    lemma_kept_objects(live, marks_of(m.mem, large));
    let placed = post.old_objects;
    assert forall|x: int| 0 <= x < placed.len() implies swept.contains_key(#[trigger] placed[x])
        && swept[placed[x]].size == relocated[placed[x]].size && swept[placed[x]].array_ref
        == relocated[placed[x]].array_ref by {
        reveal(tiled);
        reveal(sweeps);
        assert(relocated.contains_key(placed[x]));
        assert(relocated[placed[x]].size > 0);
        assert(m.old_total.start@ <= placed[x]@);
        assert(placed[x]@ + relocated[placed[x]].size <= m.new_top()@);
        crate::compact::lemma_live_bytes_mono(m, 0, m.order().len() as int);
        assert(m.new_top()@ <= m.old_total.end@);
        if large.contains(placed[x]) {
            let j = choose|j: int| 0 <= j < large.len() && large[j] == placed[x];
            assert(m.object_ok(large[j]));
            assert(m.apart(large[j], m.old_total));
            assert(false);
        }
        assert(swept.contains_key(placed[x]));
        assert(swept[placed[x]].size == relocated[placed[x]].size);
        assert(swept[placed[x]].array_ref == relocated[placed[x]].array_ref);
    }
    assert(tiled(swept, m.old_total.start, m.new_top(), post.old_objects)) by {
        crate::heap::lemma_tiled_same_sizes(
            relocated,
            swept,
            m.old_total.start,
            m.new_top(),
            placed,
        );
    }
    assert forall|a: Address| #[trigger]
        m.mem.contains_key(a) && m.mem[a].marked && m.moves(a) implies post.old_objects.contains(
        m.target(a),
    ) by {
        assert(m.order().contains(a));
        let k = m.order().index_of(a);
        assert(m.mem[m.order()[k]].marked);
    }
    assert(m.compacts(post)) by {
        reveal(HeapView::compacts);
    }
    assert(after_roots =~= roots.map_values(|v: Address| m.target(v))) by {
        reveal(HeapView::forwards);
        assert forall|i: int| 0 <= i < roots.len() implies h2.forward(#[trigger] roots[i]) == m.target(
            roots[i],
        ) by {
            let v = roots[i];
            if m.moves(v) {
                assert(m.valid_ref(roots[i]));
                assert(m.order().contains(v));
                let k = m.order().index_of(v);
                assert(forwarded[m.order()[k]] == (ObjView {
                    fwdptr: m.dest(k),
                    ..m.mem[m.order()[k]]
                }));
            }
        }
    }
}

/// An object that can be reached in a well-formed heap is an object of
/// that heap.
pub proof fn lemma_reachable_object(h: HeapView, roots: Seq<Address>, a: Address)
    requires
        h.wf(),
        h.valid_refs(roots),
        h.reachable(roots, a),
    ensures
        h.mem.contains_key(a),
{
    let path = choose|path: Seq<Address>| #[trigger] h.is_path(roots, path) && path.last() == a;
    if path.len() == 1 {
        let r = choose|r: int| 0 <= r < roots.len() && roots[r] == path[0];
        assert(h.valid_ref(roots[r]));
    } else {
        let from = path[path.len() - 2];
        assert(h.edge(path[path.len() - 2], path[path.len() - 2 + 1]));
        let k = choose|k: int| 0 <= k < h.mem[from].fields.len() && h.mem[from].fields[k] == a;
        reveal(HeapView::wf);
        assert(h.valid_refs(h.mem[from].fields));
        assert(h.valid_ref(h.mem[from].fields[k]));
    }
}

/// Every object that could be reached before a collection can be reached
/// after it, at the place it went to, and is there what it was, with its
/// references pointing to where their objects went.
pub proof fn lemma_reachable_after(
    pre: HeapView,
    roots: Seq<Address>,
    post: HeapView,
    post_roots: Seq<Address>,
    a: Address,
)
    requires
        pre.wf(),
        pre.valid_refs(roots),
        pre.marked(roots).fits(),
        pre.collects(roots, post, post_roots),
        pre.reachable(roots, a),
    ensures
        post.reachable(post_roots, pre.marked(roots).target(a)),
        post.mem.contains_key(pre.marked(roots).target(a)),
        post.mem[pre.marked(roots).target(a)] == pre.marked(roots).survivor(a),
{
    let m = pre.marked(roots);
    lemma_marked(pre, roots);
    reveal(HeapView::compacts);
    lemma_reachable_object(pre, roots, a);
    let path = choose|path: Seq<Address>| #[trigger] pre.is_path(roots, path) && path.last() == a;
    let image = path.map_values(|v: Address| m.target(v));
    let r = choose|r: int| 0 <= r < roots.len() && roots[r] == path[0];
    assert(post_roots[r] == image[0]);
    assert forall|i: int| 0 <= i < image.len() - 1 implies post.edge(
        #[trigger] image[i],
        image[i + 1],
    ) by {
        let from = path[i];
        assert(pre.edge(path[i], path[i + 1]));
        let k = choose|k: int| 0 <= k < pre.mem[from].fields.len() && pre.mem[from].fields[k] == path[i
            + 1];
        // the start of the path leads to `from`
        let front = path.take(i + 1);
        assert(front[0] == path[0]);
        assert forall|x: int| 0 <= x < front.len() - 1 implies pre.edge(#[trigger] front[x], front[x + 1]) by {
            assert(pre.edge(path[x], path[x + 1]));
        }
        assert(pre.is_path(roots, front) && front.last() == from);
        assert(pre.heap.spec_contains(from)) by {
            lemma_order(pre);
            assert(pre.object_ok(from));
        }
        assert(pre.reachable(roots, from));
        assert(m.mem.contains_key(from) && m.mem[from].marked);
        assert(post.mem[m.target(from)] == m.survivor(from));
        assert(m.survivor(from).fields[k] == m.target(path[i + 1]));
    }
    assert(post.is_path(post_roots, image));
    assert(image.last() == m.target(a));
    assert(m.mem.contains_key(a) && m.mem[a].marked);
    lemma_target_in_heap(m, a);
}

/// After a collection every reference field of every object holds null, an
/// address of the perm space, the address of a large object that was kept,
/// or the address of an object in the part of the old generation that is
/// in use.
pub proof fn lemma_fields_after(pre: HeapView, roots: Seq<Address>, post: HeapView, post_roots: Seq<Address>)
    requires
        pre.wf(),
        pre.valid_refs(roots),
        pre.marked(roots).fits(),
        pre.collects(roots, post, post_roots),
    ensures
        forall|d: Address, k: int|
            post.mem.contains_key(d) && 0 <= k < post.mem[d].fields.len() ==> {
                let value = #[trigger] post.mem[d].fields[k];
                ||| value@ == 0
                ||| post.perm.spec_contains(value)
                ||| post.large_objects.contains(value)
                ||| post.mem.contains_key(value) && post.old_total.start@ <= value@
                    < pre.marked(roots).new_top()@
            },
{
    let m = pre.marked(roots);
    lemma_marked(pre, roots);
    lemma_compacted(m, post);
    assert forall|d: Address, k: int|
        post.mem.contains_key(d) && 0 <= k < post.mem[d].fields.len() implies {
        let value = #[trigger] post.mem[d].fields[k];
        ||| value@ == 0
        ||| post.perm.spec_contains(value)
        ||| post.large_objects.contains(value)
        ||| post.mem.contains_key(value) && post.old_total.start@ <= value@ < m.new_top()@
    } by {
        let value = post.mem[d].fields[k];
        reveal(HeapView::wf);
        reveal(HeapView::compacts);
        reveal(tiled);
        assert(post.valid_refs(post.mem[d].fields));
        assert(post.valid_ref(post.mem[d].fields[k]));
        if post.heap.spec_contains(value) {
            assert(post.mem.contains_key(value));
            if post.old_objects.contains(value) {
                let i = choose|i: int| 0 <= i < post.old_objects.len() && post.old_objects[i] == value;
                assert(post.mem.contains_key(post.old_objects[i]));
            }
        }
    }
}

/// The sizes of ranges that a sweep keeps are in all not more than the
/// sizes of the ranges swept.
pub proof fn lemma_kept_total(live: Seq<Range>, keep: Seq<bool>)
    requires
        keep.len() == live.len(),
        forall|i: int| 0 <= i < live.len() ==> (#[trigger] live[i]).start@ <= live[i].end@,
    ensures
        crate::large::ranges_total(kept(live, keep)) <= crate::large::ranges_total(live),
    decreases live.len(),
{
    if live.len() > 0 {
        lemma_kept_total(live.drop_last(), keep.drop_last());
        if keep.last() {
            crate::large::lemma_total_push(kept(live.drop_last(), keep.drop_last()), live.last());
        }
    }
}

/// A collection does not grow what is in use: the part of the old
/// generation in use after it is not larger than all objects outside the
/// large object space were before.
pub proof fn lemma_collection_shrinks(pre: HeapView, roots: Seq<Address>)
    requires
        pre.wf(),
        pre.marked(roots).fits(),
    ensures
        pre.marked(roots).new_top()@ - pre.old_total.start@ <= pre.used_bytes(
            pre.order().len() as int,
        ),
        pre.marked(roots).new_top()@ - pre.old_total.start@ == pre.marked(roots).live_bytes(
            pre.order().len() as int,
        ),
{
    let m = pre.marked(roots);
    let n = pre.order().len() as int;
    lemma_live_bytes_used(m, n);
    crate::compact::lemma_live_bytes_mono(m, 0, n);
    lemma_order(pre);
    assert forall|k: int| 0 <= k < pre.order().len() implies pre.mem[#[trigger] pre.order()[k]].size
        == m.mem[pre.order()[k]].size by {
        assert(pre.object_ok(pre.order()[k]));
    }
    lemma_used_same(pre, m, n);
}

/// The bytes of the objects of the walk order do not depend on the marks.
pub proof fn lemma_used_same(h: HeapView, g: HeapView, upto: int)
    requires
        h.order() == g.order(),
        upto <= h.order().len(),
        forall|k: int|
            0 <= k < h.order().len() ==> h.mem[#[trigger] h.order()[k]].size
                == g.mem[h.order()[k]].size,
    ensures
        h.used_bytes(upto) == g.used_bytes(upto),
    decreases upto,
{
    if upto > 0 {
        lemma_used_same(h, g, upto - 1);
        assert(h.mem[h.order()[upto - 1]].size == g.mem[h.order()[upto - 1]].size);
    }
}

/// Forwarding a reference to a marked object gives the place where the
/// collection puts the object.
pub proof fn lemma_forward_is_target(m: HeapView, forwarded: Map<Address, ObjView>, a: Address)
    requires
        m.wf(),
        m.forwards(forwarded),
        m.mem.contains_key(a),
        m.mem[a].marked,
    ensures
        (HeapView { mem: forwarded, ..m }).forward(a) == m.target(a),
{
    reveal(HeapView::forwards);
    lemma_order(m);
    if m.moves(a) {
        assert(m.order().contains(a));
        let k = m.order().index_of(a);
        assert(forwarded[m.order()[k]] == (ObjView { fwdptr: m.dest(k), ..m.mem[m.order()[k]] }));
    }
}

/// After a collection every object can be reached from the roots.
pub proof fn lemma_all_reachable_after(
    pre: HeapView,
    roots: Seq<Address>,
    post: HeapView,
    post_roots: Seq<Address>,
)
    requires
        pre.wf(),
        pre.valid_refs(roots),
        pre.marked(roots).fits(),
        pre.collects(roots, post, post_roots),
    ensures
        forall|d: Address| #[trigger] post.mem.contains_key(d) ==> post.reachable(post_roots, d),
{
    let m = pre.marked(roots);
    assert forall|d: Address| #[trigger] post.mem.contains_key(d) implies post.reachable(
        post_roots,
        d,
    ) by {
        reveal(HeapView::compacts);
        let a = choose|a: Address|
            m.mem.contains_key(a) && m.mem[a].marked && #[trigger] m.target(a) == d;
        lemma_reachable_after(pre, roots, post, post_roots, a);
    }
}

/// Where every object of the walk order is marked, the marked bytes are
/// the bytes of all objects counted.
pub proof fn lemma_live_is_used(h: HeapView, upto: int)
    requires
        upto <= h.order().len(),
        forall|k: int| 0 <= k < h.order().len() ==> h.mem[#[trigger] h.order()[k]].marked,
    ensures
        h.live_bytes(upto) == h.used_bytes(upto),
    decreases upto,
{
    if upto > 0 {
        lemma_live_is_used(h, upto - 1);
        assert(h.mem[h.order()[upto - 1]].marked);
    }
}

/// Objects that fill a range from the start of the old generation, and are
/// the walk order of the heap, start where the bytes of the objects before
/// them end.
pub proof fn lemma_tiled_used(h: HeapView, top: Address, upto: int)
    requires
        tiled(h.mem, h.old_total.start, top, h.order()),
        0 <= upto <= h.order().len(),
    ensures
        h.old_total.start@ + h.used_bytes(upto) == if upto < h.order().len() {
            h.order()[upto]@
        } else {
            top@
        },
    decreases upto,
{
    reveal(tiled);
    let order = h.order();
    if upto > 0 {
        lemma_tiled_used(h, top, upto - 1);
        if upto < order.len() {
            assert(order[upto - 1]@ + h.mem[order[upto - 1]].size == order[upto]@);
        } else {
            assert(order.last() == order[upto - 1]);
        }
    }
}

/// After a collection the objects outside the large object space fill the
/// old generation from its start to its new top: the young generation is
/// empty, each of these objects lies between the start and the top, and the
/// top is the start plus the sizes of all of them.
pub proof fn lemma_survivors_fill_old(
    pre: HeapView,
    roots: Seq<Address>,
    post: HeapView,
    post_roots: Seq<Address>,
)
    requires
        pre.wf(),
        pre.valid_refs(roots),
        pre.marked(roots).fits(),
        pre.collects(roots, post, post_roots),
    ensures
        post.young_objects.len() == 0,
        post.order() == post.old_objects,
        pre.marked(roots).new_top()@ == pre.old_total.start@ + post.used_bytes(
            post.old_objects.len() as int,
        ),
        forall|a: Address|
            post.moves(a) && #[trigger] post.mem.contains_key(a) ==> pre.old_total.start@ <= a@
                && a@ + post.mem[a].size <= pre.marked(roots).new_top()@,
{
    let m = pre.marked(roots);
    lemma_marked(pre, roots);
    lemma_compacted(m, post);
    reveal(HeapView::compacts);
    assert(post.order() =~= post.old_objects);
    lemma_tiled_used(post, m.new_top(), post.order().len() as int);
    lemma_order(post);
    assert forall|a: Address| post.moves(a) && #[trigger] post.mem.contains_key(a) implies
        pre.old_total.start@ <= a@ && a@ + post.mem[a].size <= m.new_top()@ by {
        assert(post.order().contains(a));
        let x = choose|x: int| 0 <= x < post.order().len() && post.order()[x] == a;
        reveal(tiled);
        assert(post.mem.contains_key(post.old_objects[x]));
    }
}

/// Retaining the objects whose flags are all set retains all.
pub proof fn lemma_retained_all(objs: Seq<Address>, keep: Seq<bool>)
    requires
        keep.len() == objs.len(),
        forall|j: int| 0 <= j < keep.len() ==> #[trigger] keep[j],
    ensures
        retained(objs, keep) == objs,
    decreases objs.len(),
{
    if objs.len() > 0 {
        lemma_retained_all(objs.drop_last(), keep.drop_last());
        assert(keep.last());
        assert(objs.drop_last().push(objs.last()) =~= objs);
    } else {
        assert(retained(objs, keep) =~= objs);
    }
}

/// A second collection, with nothing done to the heap since the first,
/// leaves the heap and the roots as the first left them: the same objects
/// at the same places, and the same top of the old generation.
pub proof fn lemma_collect_twice(
    pre: HeapView,
    roots: Seq<Address>,
    post: HeapView,
    post_roots: Seq<Address>,
    again: HeapView,
    again_roots: Seq<Address>,
)
    requires
        pre.wf(),
        pre.valid_refs(roots),
        pre.marked(roots).fits(),
        pre.collects(roots, post, post_roots),
        post.collects(post_roots, again, again_roots),
    ensures
        post.marked(post_roots).fits(),
        post.marked(post_roots).new_top() == pre.marked(roots).new_top(),
        again.mem == post.mem,
        again.old_objects == post.old_objects,
        again.young_objects == post.young_objects,
        again.large_objects == post.large_objects,
        again_roots == post_roots,
{
    let m = pre.marked(roots);
    let m2 = post.marked(post_roots);
    lemma_marked(pre, roots);
    lemma_compacted(m, post);
    assert(post.valid_refs(post_roots)) by {
        assert forall|i: int| 0 <= i < post_roots.len() implies post.valid_ref(
            #[trigger] post_roots[i],
        ) by {
            assert(m.valid_ref(roots[i]));
        }
    }
    lemma_marked(post, post_roots);
    lemma_all_reachable_after(pre, roots, post, post_roots);
    lemma_order(post);
    lemma_order(m2);
    let order = post.order();
    let n = order.len() as int;
    let top = m.new_top();
    assert(order =~= post.old_objects) by {
        reveal(HeapView::compacts);
    }
    assert(tiled(post.mem, post.old_total.start, top, order)) by {
        reveal(HeapView::compacts);
    }
    assert(tiled(m2.mem, m2.old_total.start, top, m2.order())) by {
        assert forall|i: int| 0 <= i < order.len() implies m2.mem.contains_key(#[trigger] order[i])
            && m2.mem[order[i]].size == post.mem[order[i]].size by {
            assert(post.object_ok(order[i]));
        }
        crate::heap::lemma_tiled_same_sizes(post.mem, m2.mem, post.old_total.start, top, order);
    }
    assert forall|k: int| 0 <= k < m2.order().len() implies m2.mem[#[trigger] m2.order()[k]].marked by {
        assert(post.object_ok(order[k]));
    }
    // where the objects go the second time: where they are
    assert forall|k: int| 0 <= k <= n implies m2.dest(k)@ == if k < n {
        order[k]@
    } else {
        top@
    } by {
        lemma_live_is_used(m2, k);
        lemma_tiled_used(m2, top, k);
    }
    assert(m2.new_top() == top);
    assert(m2.fits()) by {
        lemma_live_is_used(m2, n);
        lemma_tiled_used(m2, top, n);
        crate::compact::lemma_live_bytes_mono(m, 0, m.order().len() as int);
        assert(m.fits());
        assert(top@ == m.old_total.start@ + m.live_bytes(m.order().len() as int));
        assert(m2.order().len() == n);
        assert(m2.old_total.start@ + m2.live_bytes(n) == top@);
        assert(m2.old_total == m.old_total) by {
            reveal(HeapView::compacts);
        }
    }
    assert forall|v: Address| post.valid_ref(v) implies #[trigger] m2.target(v) == v by {
        if m2.moves(v) {
            assert(post.mem.contains_key(v));
            assert(m2.mem.contains_key(v));
            assert(m2.order().contains(v));
            let k = m2.order().index_of(v);
            assert(m2.dest(k)@ == order[k]@);
        }
    }
    assert forall|d: Address| #[trigger] post.mem.contains_key(d) implies m2.mem.contains_key(d)
        && m2.mem[d].marked && m2.target(d) == d && m2.survivor(d) == post.mem[d] by {
        assert(post.object_ok(d));
        assert(post.reachable(post_roots, d));
        assert(post.valid_ref(d));
        assert(m2.target(d) == d);
        assert(m2.survivor(d).fields =~= post.mem[d].fields) by {
            reveal(HeapView::wf);
            assert(post.valid_refs(post.mem[d].fields));
            assert forall|i: int| 0 <= i < post.mem[d].fields.len() implies m2.target(
                post.mem[d].fields[i],
            ) == post.mem[d].fields[i] by {
                assert(post.valid_ref(post.mem[d].fields[i]));
            }
        }
        assert(!post.mem[d].marked);
        if m2.moves(d) {
            // it went to `d` the first time, and wrote that into its slot
            reveal(HeapView::compacts);
            let a = choose|a: Address|
                m.mem.contains_key(a) && m.mem[a].marked && #[trigger] m.target(a) == d;
            assert(post.mem[m.target(a)] == m.survivor(a));
            lemma_target_in_heap(m, a);
        }
    }
    assert(again.mem =~= post.mem) by {
        reveal(HeapView::compacts);
        assert forall|d: Address| post.mem.contains_key(d) implies again.mem.contains_key(d)
            && again.mem[d] == post.mem[d] by {
            assert(again.mem[m2.target(d)] == m2.survivor(d));
        }
        assert forall|d: Address| again.mem.contains_key(d) implies post.mem.contains_key(d) by {
            let a = choose|a: Address|
                m2.mem.contains_key(a) && m2.mem[a].marked && #[trigger] m2.target(a) == d;
            assert(post.mem.contains_key(a));
        }
    }
    assert(again_roots =~= post_roots) by {
        assert forall|i: int| 0 <= i < post_roots.len() implies m2.target(#[trigger] post_roots[i])
            == post_roots[i] by {
            assert(post.valid_ref(post_roots[i]));
        }
    }
    assert(again.old_objects == post.old_objects) by {
        reveal(HeapView::compacts);
        crate::heap::lemma_tiled_unique(
            post.mem,
            post.old_total.start,
            top,
            again.old_objects,
            post.old_objects,
        );
    }
    assert(again.large_objects == post.large_objects) by {
        reveal(HeapView::compacts);
        let keep = marks_of(m2.mem, m2.large_objects);
        assert forall|j: int| 0 <= j < keep.len() implies #[trigger] keep[j] by {
            assert(post.object_ok(post.large_objects[j]));
        }
        lemma_retained_all(m2.large_objects, keep);
    }
    assert(again.young_objects == post.young_objects) by {
        reveal(HeapView::compacts);
    }
}

} // verus!
