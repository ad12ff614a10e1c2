//! The heap as the full collector sees it: the memory with its objects, the
//! generations and the large object space that they lie in, and the tables
//! kept for the old generation.

use crate::address::{Address, Region};
use crate::card::{CARD_SIZE, CardTable};
use crate::controller::HeapConfig;
use crate::crossing::CrossingMap;
use crate::large::{
    LARGE_ALLOC_SIZE, LargeSpace, LargeSpaceView, Range, lemma_live_ranges, object_addresses,
};
use crate::mem::{is_page_aligned, lemma_page_align, spec_page_align};
use crate::object::{Memory, Obj, ObjView};
use crate::old_gen::{OldGen, OldRegion, card_of};
use crate::young_gen::{Block, YoungGen};
use vstd::prelude::*;

verus! {

/// What the heap holds, as far as a collection depends on it.
pub ghost struct HeapView {
    /// The objects, each under the address at which it starts.
    pub mem: Map<Address, ObjView>,
    /// The objects of the old generation, in ascending order.
    pub old_objects: Seq<Address>,
    /// The objects of the young generation: those of eden, of the from-space
    /// and of the to-space, each in ascending order.
    pub young_objects: Seq<Address>,
    /// The objects of the large object space, from the head of its list.
    pub large_objects: Seq<Address>,
    /// The range of the whole heap.
    pub heap: Region,
    /// The range of the old generation.
    pub old_total: Region,
    /// The range of the large object space.
    pub large_total: Region,
    /// The range of the perm space, which lies outside the heap.
    pub perm: Region,
}

impl HeapView {
    /// The objects outside the large object space in the order in which a
    /// collection walks them: the old generation first, then the young.
    pub open spec fn order(self) -> Seq<Address> {
        self.old_objects + self.young_objects
    }

    /// Whether `value` may stand in a root or a reference field: it is null,
    /// points into the perm space, or is the address of an object.
    pub open spec fn valid_ref(self, value: Address) -> bool {
        if self.heap.spec_contains(value) {
            self.mem.contains_key(value)
        } else {
            value@ == 0 || self.perm.spec_contains(value)
        }
    }

    /// Whether every value of `refs` may stand in a root or a reference field.
    pub open spec fn valid_refs(self, refs: Seq<Address>) -> bool {
        forall|i: int| 0 <= i < refs.len() ==> self.valid_ref(#[trigger] refs[i])
    }

    /// Whether the ranges are laid out as they must be: the old generation
    /// and the large object space lie in the heap and share no address, and
    /// neither null nor the perm space is part of the heap.
    pub open spec fn ranges_ok(self) -> bool {
        &&& 0 < self.heap.start@ <= self.heap.end@
        &&& self.old_total.wf() && self.old_total.within(self.heap)
        &&& self.large_total.wf() && self.large_total.within(self.heap)
        &&& self.old_total.disjoint(self.large_total)
        &&& self.perm.wf() && self.perm.disjoint(self.heap)
    }

    /// Whether the object at `addr` lies in the heap, with a size that is not zero.
    pub open spec fn object_ok(self, addr: Address) -> bool {
        &&& self.mem.contains_key(addr)
        &&& self.mem[addr].size > 0
        &&& self.heap.start@ <= addr@
        &&& addr@ + self.mem[addr].size <= self.heap.end@
    }

    /// Whether the object at `addr` shares no address with `region`.
    pub open spec fn apart(self, addr: Address, region: Region) -> bool {
        addr@ + self.mem[addr].size <= region.start@ || region.end@ <= addr@
    }

    /// Whether the heap is well formed:
    /// - the ranges are laid out as they must be;
    /// - the objects are those of the three sequences, none of them twice;
    /// - the old objects ascend without overlap inside the old generation;
    /// - the young objects lie outside the old generation and the large
    ///   object space, and the large objects inside the latter;
    /// - every reference field is null, points into the perm space, or holds
    ///   the address of an object.
    #[verifier::opaque]
    pub open spec fn wf(self) -> bool {
        &&& self.ranges_ok()
        &&& forall|i: int|
            0 <= i < self.old_objects.len() ==> {
                &&& self.object_ok(#[trigger] self.old_objects[i])
                &&& self.old_total.start@ <= self.old_objects[i]@
                &&& self.old_objects[i]@ + self.mem[self.old_objects[i]].size
                    <= self.old_total.end@
            }
        &&& forall|i: int, j: int|
            0 <= i < j < self.old_objects.len() ==> (#[trigger] self.old_objects[i])@
                + self.mem[self.old_objects[i]].size <= (#[trigger] self.old_objects[j])@
        &&& forall|i: int|
            0 <= i < self.young_objects.len() ==> {
                &&& self.object_ok(#[trigger] self.young_objects[i])
                &&& self.apart(self.young_objects[i], self.old_total)
                &&& self.apart(self.young_objects[i], self.large_total)
            }
        &&& self.young_objects.no_duplicates()
        &&& forall|i: int|
            0 <= i < self.large_objects.len() ==> {
                &&& self.object_ok(#[trigger] self.large_objects[i])
                &&& self.large_total.start@ <= self.large_objects[i]@
                &&& self.large_objects[i]@ + self.mem[self.large_objects[i]].size
                    <= self.large_total.end@
            }
        &&& self.large_objects.no_duplicates()
        &&& forall|addr: Address| #[trigger]
            self.mem.contains_key(addr) ==> self.old_objects.contains(addr)
                || self.young_objects.contains(addr) || self.large_objects.contains(addr)
        &&& forall|addr: Address| #[trigger]
            self.mem.contains_key(addr) ==> self.valid_refs(self.mem[addr].fields)
    }

    /// Whether no object is marked.
    pub open spec fn unmarked(self) -> bool {
        forall|addr: Address| #[trigger] self.mem.contains_key(addr) ==> !self.mem[addr].marked
    }

    /// Whether the object at `from` holds a reference to `to`.
    pub open spec fn edge(self, from: Address, to: Address) -> bool {
        self.mem.contains_key(from) && self.mem[from].fields.contains(to)
    }

    /// Whether `path` leads from one of `roots` along references.
    pub open spec fn is_path(self, roots: Seq<Address>, path: Seq<Address>) -> bool {
        &&& path.len() > 0
        &&& roots.contains(path[0])
        &&& forall|i: int| 0 <= i < path.len() - 1 ==> self.edge(#[trigger] path[i], path[i + 1])
    }

    /// Whether `addr` lies in the heap and a path leads to it from one of `roots`.
    pub open spec fn reachable(self, roots: Seq<Address>, addr: Address) -> bool {
        &&& self.heap.spec_contains(addr)
        &&& exists|path: Seq<Address>| #[trigger] self.is_path(roots, path) && path.last() == addr
    }

    /// The heap in which exactly the objects are marked that can be reached
    /// from `roots`.
    pub open spec fn marked(self, roots: Seq<Address>) -> HeapView {
        HeapView {
            mem: Map::new(
                |addr: Address| self.mem.contains_key(addr),
                |addr: Address| ObjView { marked: self.reachable(roots, addr), ..self.mem[addr] },
            ),
            ..self
        }
    }

    /// Whether the marks are closed under references: no marked object holds
    /// a reference to an object of the heap that is not marked.
    pub open spec fn marks_closed(self) -> bool {
        forall|addr: Address, k: int|
            self.mem.contains_key(addr) && self.mem[addr].marked && 0 <= k
                < self.mem[addr].fields.len() && self.heap.spec_contains(
                #[trigger] self.mem[addr].fields[k],
            ) ==> self.mem[self.mem[addr].fields[k]].marked
    }
}

/// Whether the objects `objs` fill `[start, top)` without a gap: the first
/// starts at `start`, each next one where the one before ends, and the last
/// ends at `top`.
#[verifier::opaque]
pub open spec fn tiled(
    mem: Map<Address, ObjView>,
    start: Address,
    top: Address,
    objs: Seq<Address>,
) -> bool {
    &&& start@ <= top@
    &&& objs.len() == 0 ==> start == top
    &&& objs.len() > 0 ==> objs[0] == start && objs.last()@ + mem[objs.last()].size == top@
    &&& forall|i: int|
        0 <= i < objs.len() ==> {
            &&& mem.contains_key(#[trigger] objs[i])
            &&& mem[objs[i]].size > 0
            &&& start@ <= objs[i]@
            &&& objs[i]@ + mem[objs[i]].size <= top@
        }
    &&& forall|i: int|
        0 <= i < objs.len() - 1 ==> (#[trigger] objs[i])@ + mem[objs[i]].size == objs[i + 1]@
}

/// Two sequences of objects that fill the same range agree up to `i`.
proof fn lemma_tiled_prefix(
    mem: Map<Address, ObjView>,
    start: Address,
    top: Address,
    a: Seq<Address>,
    b: Seq<Address>,
    i: int,
)
    requires
        tiled(mem, start, top, a),
        tiled(mem, start, top, b),
        0 <= i < a.len(),
    ensures
        i < b.len(),
        a[i] == b[i],
    decreases i,
{
    reveal(tiled);
    if i == 0 {
        assert(mem.contains_key(a[0]));
    } else {
        lemma_tiled_prefix(mem, start, top, a, b, i - 1);
        assert(a[i - 1]@ + mem[a[i - 1]].size == a[i]@);
        assert(mem.contains_key(a[i]));
        if i - 1 == b.len() - 1 {
            assert(b.last() == b[i - 1]);
        } else {
            assert(b[i - 1]@ + mem[b[i - 1]].size == b[i]@);
        }
    }
}

/// A range is filled by the objects of a memory in one way only.
pub proof fn lemma_tiled_unique(
    mem: Map<Address, ObjView>,
    start: Address,
    top: Address,
    a: Seq<Address>,
    b: Seq<Address>,
)
    requires
        tiled(mem, start, top, a),
        tiled(mem, start, top, b),
    ensures
        a == b,
{
    reveal(tiled);
    if a.len() > 0 {
        lemma_tiled_prefix(mem, start, top, a, b, a.len() - 1);
    }
    if b.len() > 0 {
        lemma_tiled_prefix(mem, start, top, b, a, b.len() - 1);
    }
    assert forall|i: int| 0 <= i < a.len() implies a[i] == b[i] by {
        lemma_tiled_prefix(mem, start, top, a, b, i);
    }
    assert(a =~= b);
}

/// The objects that fill `region`, in ascending order: the walk starts at
/// the start of the region and goes on, from each object, by its size.
pub fn walk_region(memory: &Memory, region: Region) -> (r: Vec<Address>)
    requires
        exists|objs: Seq<Address>| tiled(memory@, region.start, region.end, objs),
    ensures
        tiled(memory@, region.start, region.end, r@),
{
    let ghost objs = choose|objs: Seq<Address>| tiled(memory@, region.start, region.end, objs);
    let mut out: Vec<Address> = Vec::new();
    let mut cur = region.start;
    let ghost mut i: int = 0;
    proof {
        reveal(tiled);
    }
    while cur.0 < region.end.0
        invariant
            0 <= i <= objs.len(),
            tiled(memory@, region.start, region.end, objs),
            out@ == objs.take(i),
            i < objs.len() ==> cur == objs[i],
            i == objs.len() ==> cur == region.end,
        decreases objs.len() - i,
    {
        proof {
            reveal(tiled);
        }
        assert(memory@.contains_key(objs[i]));
        let size = memory.size(cur);
        out.push(cur);
        proof {
            assert(objs.take(i + 1) =~= objs.take(i).push(objs[i]));
            if i < objs.len() - 1 {
                assert(objs[i]@ + memory@[objs[i]].size == objs[i + 1]@);
            } else {
                assert(objs.last() == objs[i]);
            }
        }
        cur = cur.offset(size);
        proof {
            i = i + 1;
        }
    }
    proof {
        reveal(tiled);
        if i < objs.len() {
            assert(memory@.contains_key(objs[i]));
        }
        assert(objs.take(i) =~= objs);
    }
    out
}

/// Where the objects of the generations lie: those of the old generation in
/// ascending order, with the index at which each region's objects begin, and
/// those of each block of the young generation.
pub ghost struct Layout {
    pub old: Seq<Address>,
    pub first: Seq<int>,
    pub eden: Seq<Address>,
    pub from: Seq<Address>,
    pub to: Seq<Address>,
}

impl Layout {
    /// The objects of region `r` of the old generation.
    pub open spec fn region(self, r: int) -> Seq<Address> {
        self.old.subrange(self.first[r], self.first[r + 1])
    }

    /// Whether `first` divides the old objects among `regions` regions.
    pub open spec fn first_ok(self, regions: int) -> bool {
        &&& self.first.len() == regions + 1
        &&& self.first[0] == 0
        &&& self.first[regions] == self.old.len()
        &&& forall|r: int, s: int|
            0 <= r <= s <= regions ==> #[trigger] self.first[r] <= #[trigger] self.first[s]
    }
}

/// A heap stays well formed where an object without references is put at
/// an address that held none, and joins the young or the large objects.
pub proof fn lemma_add_object(h: HeapView, g: HeapView, addr: Address, obj: ObjView)
    requires
        h.wf(),
        !h.mem.contains_key(addr),
        g.mem == h.mem.insert(addr, obj),
        g.object_ok(addr),
        forall|k: int| 0 <= k < obj.fields.len() ==> (#[trigger] obj.fields[k])@ == 0,
        g.heap == h.heap && g.old_total == h.old_total && g.large_total == h.large_total && g.perm
            == h.perm,
        g.old_objects == h.old_objects,
        ({
            ||| {
                &&& g.large_objects == h.large_objects
                &&& g.apart(addr, h.old_total) && g.apart(addr, h.large_total)
                &&& g.young_objects.no_duplicates()
                &&& forall|i: int|
                    0 <= i < g.young_objects.len() ==> #[trigger] g.young_objects[i] == addr
                        || h.young_objects.contains(g.young_objects[i])
                &&& g.young_objects.contains(addr)
                &&& forall|i: int|
                    0 <= i < h.young_objects.len() ==> g.young_objects.contains(
                        #[trigger] h.young_objects[i],
                    )
            }
            ||| {
                &&& g.young_objects == h.young_objects
                &&& h.large_total.start@ <= addr@ && addr@ + obj.size <= h.large_total.end@
                &&& g.large_objects == seq![addr] + h.large_objects
            }
        }),
    ensures
        g.wf(),
{
    reveal(HeapView::wf);
    assert forall|i: int| 0 <= i < g.old_objects.len() implies {
        &&& g.object_ok(#[trigger] g.old_objects[i])
        &&& g.old_total.start@ <= g.old_objects[i]@
        &&& g.old_objects[i]@ + g.mem[g.old_objects[i]].size <= g.old_total.end@
    } by {
        assert(h.object_ok(h.old_objects[i]));
    }
    assert forall|i: int, j: int| 0 <= i < j < g.old_objects.len() implies (#[trigger] g.old_objects[i])@
        + g.mem[g.old_objects[i]].size <= (#[trigger] g.old_objects[j])@ by {
        assert(h.object_ok(h.old_objects[i]));
        assert(h.old_objects[i]@ + h.mem[h.old_objects[i]].size <= h.old_objects[j]@);
    }
    assert forall|i: int| 0 <= i < g.young_objects.len() implies {
        &&& g.object_ok(#[trigger] g.young_objects[i])
        &&& g.apart(g.young_objects[i], g.old_total)
        &&& g.apart(g.young_objects[i], g.large_total)
    } by {
        let x = g.young_objects[i];
        if x != addr {
            assert(h.young_objects.contains(x));
            let j = choose|j: int| 0 <= j < h.young_objects.len() && h.young_objects[j] == x;
            assert(h.object_ok(h.young_objects[j]));
        } else {
            assert(g.young_objects != h.young_objects) by {
                if g.young_objects == h.young_objects {
                    assert(h.object_ok(h.young_objects[i]));
                }
            }
        }
    }
    assert forall|i: int| 0 <= i < g.large_objects.len() implies {
        &&& g.object_ok(#[trigger] g.large_objects[i])
        &&& g.large_total.start@ <= g.large_objects[i]@
        &&& g.large_objects[i]@ + g.mem[g.large_objects[i]].size <= g.large_total.end@
    } by {
        if g.large_objects == h.large_objects {
            assert(h.object_ok(h.large_objects[i]));
        } else if i > 0 {
            assert(g.large_objects[i] == h.large_objects[i - 1]);
            assert(h.object_ok(h.large_objects[i - 1]));
        }
    }
    assert(g.large_objects.no_duplicates()) by {
        if g.large_objects != h.large_objects {
            assert forall|i: int, j: int|
                0 <= i < g.large_objects.len() && 0 <= j < g.large_objects.len() && i
                    != j implies g.large_objects[i] != g.large_objects[j] by {
                if i > 0 {
                    assert(g.large_objects[i] == h.large_objects[i - 1]);
                    assert(h.object_ok(h.large_objects[i - 1]));
                }
                if j > 0 {
                    assert(g.large_objects[j] == h.large_objects[j - 1]);
                    assert(h.object_ok(h.large_objects[j - 1]));
                }
            }
        }
    }
    assert forall|a: Address| #[trigger] g.mem.contains_key(a) implies g.old_objects.contains(a)
        || g.young_objects.contains(a) || g.large_objects.contains(a) by {
        if a == addr {
            if g.large_objects != h.large_objects {
                assert(g.large_objects[0] == addr);
            }
        } else {
            assert(h.mem.contains_key(a));
            if h.young_objects.contains(a) {
                let j = choose|j: int| 0 <= j < h.young_objects.len() && h.young_objects[j] == a;
                if g.young_objects != h.young_objects {
                    assert(g.young_objects.contains(h.young_objects[j]));
                }
            }
            if h.large_objects.contains(a) {
                let j = choose|j: int| 0 <= j < h.large_objects.len() && h.large_objects[j] == a;
                if g.large_objects != h.large_objects {
                    assert(g.large_objects[j + 1] == a);
                }
            }
        }
    }
    assert forall|a: Address| #[trigger] g.mem.contains_key(a) implies g.valid_refs(
        g.mem[a].fields,
    ) by {
        if a != addr {
            assert(h.mem.contains_key(a));
            assert(h.valid_refs(h.mem[a].fields));
            assert forall|k: int| 0 <= k < g.mem[a].fields.len() implies g.valid_ref(
                #[trigger] g.mem[a].fields[k],
            ) by {
                assert(h.valid_ref(h.mem[a].fields[k]));
            }
        }
    }
}

/// Objects that fill a range still fill it where an object is put at an
/// address that held none.
pub proof fn lemma_tiled_insert(
    mem: Map<Address, ObjView>,
    addr: Address,
    obj: ObjView,
    start: Address,
    top: Address,
    objs: Seq<Address>,
)
    requires
        tiled(mem, start, top, objs),
        !mem.contains_key(addr),
    ensures
        tiled(mem.insert(addr, obj), start, top, objs),
{
    reveal(tiled);
    let after = mem.insert(addr, obj);
    assert forall|i: int| 0 <= i < objs.len() implies after.contains_key(#[trigger] objs[i])
        && after[objs[i]] == mem[objs[i]] by {
        assert(mem.contains_key(objs[i]));
    }
    if objs.len() > 0 {
        assert(objs.last() == objs[objs.len() - 1]);
    }
    assert forall|i: int| 0 <= i < objs.len() - 1 implies (#[trigger] objs[i])@ + after[objs[i]].size
        == objs[i + 1]@ by {
        assert(objs[i]@ + mem[objs[i]].size == objs[i + 1]@);
    }
}

/// Objects that fill a range up to `top`, with one more object put at
/// `top`, fill the range up to the end of that object.
pub proof fn lemma_tiled_push(
    mem: Map<Address, ObjView>,
    obj: ObjView,
    start: Address,
    top: Address,
    objs: Seq<Address>,
)
    requires
        tiled(mem, start, top, objs),
        !mem.contains_key(top),
        obj.size > 0,
        top@ + obj.size <= usize::MAX,
    ensures
        tiled(mem.insert(top, obj), start, Address((top@ + obj.size) as usize), objs.push(top)),
{
    reveal(tiled);
    let after = mem.insert(top, obj);
    let more = objs.push(top);
    lemma_tiled_insert(mem, top, obj, start, top, objs);
    assert forall|i: int| 0 <= i < more.len() - 1 implies (#[trigger] more[i])@ + after[more[i]].size
        == more[i + 1]@ by {
        if i < objs.len() - 1 {
            assert(objs[i]@ + after[objs[i]].size == objs[i + 1]@);
        } else {
            assert(objs.last() == objs[i]);
        }
    }
    assert forall|i: int| 0 <= i < more.len() implies {
        &&& after.contains_key(#[trigger] more[i])
        &&& after[more[i]].size > 0
        &&& start@ <= more[i]@
        &&& more[i]@ + after[more[i]].size <= top@ + obj.size
    } by {
        if i < objs.len() {
            assert(after.contains_key(objs[i]));
        }
    }
    if objs.len() > 0 {
        assert(more[0] == objs[0]);
    }
}

/// Objects that fill a range up to `top`, with the object that lies at
/// `top`, fill the range up to the end of that object.
pub proof fn lemma_tiled_extend(
    mem: Map<Address, ObjView>,
    start: Address,
    top: Address,
    objs: Seq<Address>,
)
    requires
        tiled(mem, start, top, objs),
        mem.contains_key(top),
        mem[top].size > 0,
        top@ + mem[top].size <= usize::MAX,
    ensures
        tiled(mem, start, Address((top@ + mem[top].size) as usize), objs.push(top)),
        forall|i: int| 0 <= i < objs.len() ==> (#[trigger] objs[i])@ + mem[objs[i]].size <= top@,
{
    reveal(tiled);
    let more = objs.push(top);
    assert forall|i: int| 0 <= i < more.len() - 1 implies (#[trigger] more[i])@ + mem[more[i]].size
        == more[i + 1]@ by {
        if i < objs.len() - 1 {
            assert(objs[i]@ + mem[objs[i]].size == objs[i + 1]@);
        } else {
            assert(objs.last() == objs[i]);
        }
    }
    assert forall|i: int| 0 <= i < more.len() implies {
        &&& mem.contains_key(#[trigger] more[i])
        &&& mem[more[i]].size > 0
        &&& start@ <= more[i]@
        &&& more[i]@ + mem[more[i]].size <= top@ + mem[top].size
    } by {
        if i < objs.len() {
            assert(mem.contains_key(objs[i]));
        }
    }
    if objs.len() > 0 {
        assert(more[0] == objs[0]);
    }
}

/// Objects that fill a range of one memory fill it in any memory that
/// holds the objects of the first with their sizes.
pub proof fn lemma_tiled_same_sizes(
    mem: Map<Address, ObjView>,
    other: Map<Address, ObjView>,
    start: Address,
    top: Address,
    objs: Seq<Address>,
)
    requires
        tiled(mem, start, top, objs),
        forall|i: int|
            0 <= i < objs.len() ==> other.contains_key(#[trigger] objs[i]) && other[objs[i]].size
                == mem[objs[i]].size,
    ensures
        tiled(other, start, top, objs),
{
    reveal(tiled);
    if objs.len() > 0 {
        assert(objs.last() == objs[objs.len() - 1]);
    }
    assert forall|i: int| 0 <= i < objs.len() - 1 implies (#[trigger] objs[i])@ + other[objs[i]].size
        == objs[i + 1]@ by {
        assert(objs[i]@ + mem[objs[i]].size == objs[i + 1]@);
    }
    assert forall|i: int| 0 <= i < objs.len() implies {
        &&& other.contains_key(#[trigger] objs[i])
        &&& other[objs[i]].size > 0
        &&& start@ <= objs[i]@
        &&& objs[i]@ + other[objs[i]].size <= top@
    } by {
        assert(mem.contains_key(objs[i]));
    }
}

/// A heap stays well formed where its objects keep their place and size,
/// and their reference fields hold values that may stand there.
pub proof fn lemma_same_shape(h: HeapView, g: HeapView)
    requires
        h.wf(),
        g == (HeapView { mem: g.mem, ..h }),
        forall|addr: Address| h.mem.contains_key(addr) <==> g.mem.contains_key(addr),
        forall|addr: Address| #[trigger]
            h.mem.contains_key(addr) ==> g.mem[addr].size == h.mem[addr].size,
        forall|addr: Address| #[trigger]
            g.mem.contains_key(addr) ==> g.valid_refs(g.mem[addr].fields),
    ensures
        g.wf(),
{
    reveal(HeapView::wf);
    assert forall|i: int| 0 <= i < g.old_objects.len() implies {
        &&& g.object_ok(#[trigger] g.old_objects[i])
        &&& g.old_total.start@ <= g.old_objects[i]@
        &&& g.old_objects[i]@ + g.mem[g.old_objects[i]].size <= g.old_total.end@
    } by {
        assert(h.object_ok(h.old_objects[i]));
    }
    assert forall|i: int, j: int| 0 <= i < j < g.old_objects.len() implies (#[trigger] g.old_objects[i])@
        + g.mem[g.old_objects[i]].size <= (#[trigger] g.old_objects[j])@ by {
        assert(h.object_ok(h.old_objects[i]));
        assert(h.old_objects[i]@ + h.mem[h.old_objects[i]].size <= h.old_objects[j]@);
    }
    assert forall|i: int| 0 <= i < g.young_objects.len() implies {
        &&& g.object_ok(#[trigger] g.young_objects[i])
        &&& g.apart(g.young_objects[i], g.old_total)
        &&& g.apart(g.young_objects[i], g.large_total)
    } by {
        assert(h.object_ok(h.young_objects[i]));
    }
    assert forall|i: int| 0 <= i < g.large_objects.len() implies {
        &&& g.object_ok(#[trigger] g.large_objects[i])
        &&& g.large_total.start@ <= g.large_objects[i]@
        &&& g.large_objects[i]@ + g.mem[g.large_objects[i]].size <= g.large_total.end@
    } by {
        assert(h.object_ok(h.large_objects[i]));
    }
    assert forall|a: Address| #[trigger] g.mem.contains_key(a) implies g.old_objects.contains(a)
        || g.young_objects.contains(a) || g.large_objects.contains(a) by {
        assert(h.mem.contains_key(a));
    }
}

/// A heap stays well formed where an object without references is put
/// behind the objects of the old generation, inside the old generation.
pub proof fn lemma_add_old_object(h: HeapView, g: HeapView, addr: Address, obj: ObjView)
    requires
        h.wf(),
        !h.mem.contains_key(addr),
        g == (HeapView { mem: h.mem.insert(addr, obj), old_objects: h.old_objects.push(addr), ..h }),
        obj.size > 0,
        h.old_total.start@ <= addr@,
        addr@ + obj.size <= h.old_total.end@,
        forall|k: int| 0 <= k < obj.fields.len() ==> (#[trigger] obj.fields[k])@ == 0,
        forall|i: int|
            0 <= i < h.old_objects.len() ==> (#[trigger] h.old_objects[i])@
                + h.mem[h.old_objects[i]].size <= addr@,
    ensures
        g.wf(),
{
    reveal(HeapView::wf);
    assert forall|i: int| 0 <= i < g.old_objects.len() implies {
        &&& g.object_ok(#[trigger] g.old_objects[i])
        &&& g.old_total.start@ <= g.old_objects[i]@
        &&& g.old_objects[i]@ + g.mem[g.old_objects[i]].size <= g.old_total.end@
    } by {
        if i < h.old_objects.len() {
            assert(h.object_ok(h.old_objects[i]));
        }
    }
    assert forall|i: int, j: int| 0 <= i < j < g.old_objects.len() implies (#[trigger] g.old_objects[i])@
        + g.mem[g.old_objects[i]].size <= (#[trigger] g.old_objects[j])@ by {
        assert(h.object_ok(h.old_objects[i]));
        if j < h.old_objects.len() {
            assert(h.object_ok(h.old_objects[j]));
            assert(h.old_objects[i]@ + h.mem[h.old_objects[i]].size <= h.old_objects[j]@);
        } else {
            assert(h.old_objects[i]@ + h.mem[h.old_objects[i]].size <= addr@);
        }
    }
    assert forall|i: int| 0 <= i < g.young_objects.len() implies {
        &&& g.object_ok(#[trigger] g.young_objects[i])
        &&& g.apart(g.young_objects[i], g.old_total)
        &&& g.apart(g.young_objects[i], g.large_total)
    } by {
        assert(h.object_ok(h.young_objects[i]));
    }
    assert forall|i: int| 0 <= i < g.large_objects.len() implies {
        &&& g.object_ok(#[trigger] g.large_objects[i])
        &&& g.large_total.start@ <= g.large_objects[i]@
        &&& g.large_objects[i]@ + g.mem[g.large_objects[i]].size <= g.large_total.end@
    } by {
        assert(h.object_ok(h.large_objects[i]));
    }
    assert forall|a: Address| #[trigger] g.mem.contains_key(a) implies g.old_objects.contains(a)
        || g.young_objects.contains(a) || g.large_objects.contains(a) by {
        if a == addr {
            assert(g.old_objects[h.old_objects.len() as int] == addr);
        } else {
            assert(h.mem.contains_key(a));
            if h.old_objects.contains(a) {
                let j = choose|j: int| 0 <= j < h.old_objects.len() && h.old_objects[j] == a;
                assert(g.old_objects[j] == a);
            }
        }
    }
    assert forall|a: Address| #[trigger] g.mem.contains_key(a) implies g.valid_refs(
        g.mem[a].fields,
    ) by {
        if a != addr {
            assert(h.mem.contains_key(a));
            assert(h.valid_refs(h.mem[a].fields));
            assert forall|k: int| 0 <= k < g.mem[a].fields.len() implies g.valid_ref(
                #[trigger] g.mem[a].fields[k],
            ) by {
                assert(h.valid_ref(h.mem[a].fields[k]));
            }
        }
    }
}

/// Every object of the old generation is an object of one of its regions.
pub proof fn lemma_region_of(layout: Layout, regions: int, i: int, upto: int)
    requires
        layout.first_ok(regions),
        0 <= i < layout.old.len(),
        0 <= upto < regions,
        i < layout.first[upto + 1],
    ensures
        exists|r: int| 0 <= r <= upto && layout.first[r] <= i < #[trigger] layout.first[r + 1],
    decreases upto,
{
    if layout.first[upto] <= i {
        assert(layout.first[upto] <= i < layout.first[upto + 1]);
    } else {
        assert(layout.first[0] <= layout.first[upto]);
        lemma_region_of(layout, regions, i, upto - 1);
    }
}

/// The heap: its memory, its parts, and the tables of the old generation.
pub struct Heap {
    pub memory: Memory,
    pub total: Region,
    pub young: YoungGen,
    pub old: OldGen,
    pub large_space: LargeSpace,
    pub card_table: CardTable,
    pub crossing_map: CrossingMap,
    pub perm_space: Region,
    pub config: HeapConfig,
    pub layout: Ghost<Layout>,
}

impl View for Heap {
    type V = HeapView;

    open spec fn view(&self) -> HeapView {
        HeapView {
            mem: self.memory@,
            old_objects: self.layout@.old,
            young_objects: self.layout@.eden + self.layout@.from + self.layout@.to,
            large_objects: object_addresses(self.large_space@.live),
            heap: self.total,
            old_total: self.old.total,
            large_total: self.large_space.spec_total(),
            perm: self.perm_space,
        }
    }
}

impl Heap {
    /// Whether the blocks of the young generation lie in the heap, outside
    /// the old generation and the large object space, and apart from each other.
    pub open spec fn young_ranges_ok(&self) -> bool {
        let eden = self.young.eden.total();
        let from = self.young.from.total();
        let to = self.young.to.total();
        &&& self.young.wf()
        &&& eden.within(self.total) && from.within(self.total) && to.within(self.total)
        &&& eden.disjoint(from) && eden.disjoint(to) && from.disjoint(to)
        &&& eden.disjoint(self.old.total) && from.disjoint(self.old.total) && to.disjoint(
            self.old.total,
        )
        &&& eden.disjoint(self.large_space.spec_total()) && from.disjoint(
            self.large_space.spec_total(),
        ) && to.disjoint(self.large_space.spec_total())
    }

    /// Whether the objects fill the regions of the old generation and the
    /// blocks of the young generation as the layout says.
    pub open spec fn tiling_ok(&self) -> bool {
        let layout = self.layout@;
        let regions = self.old.protected.regions@;
        &&& layout.first_ok(regions.len() as int)
        &&& forall|r: int|
            0 <= r < regions.len() ==> tiled(
                self.memory@,
                (#[trigger] regions[r]).start,
                regions[r].top,
                layout.region(r),
            )
        &&& tiled(self.memory@, self.young.eden.start, self.young.eden.top, layout.eden)
        &&& tiled(self.memory@, self.young.from.start, self.young.from.top, layout.from)
        &&& tiled(self.memory@, self.young.to.start, self.young.to.top, layout.to)
    }

    /// Whether the tables cover what they are kept for: the card table the
    /// whole heap, the crossing map the old generation.
    pub open spec fn tables_ok(&self) -> bool {
        &&& self.card_table.wf()
        &&& self.card_table@.start == self.total.start
        &&& self.total.end@ <= self.card_table@.limit()
        &&& card_of(self.old.total.start, self.old.total.end) < self.crossing_map@.len()
    }

    /// Whether each large object lies in its allocation, behind the record.
    pub open spec fn large_ok(&self) -> bool {
        &&& self.large_space.wf()
        &&& forall|i: int|
            0 <= i < self.large_space@.live.len() ==> (#[trigger] self.large_space@.live[i]).start@
                + LARGE_ALLOC_SIZE + self.memory@[Address(
                (self.large_space@.live[i].start@ + LARGE_ALLOC_SIZE) as usize,
            )].size <= self.large_space@.live[i].end@
    }

    /// Whether the heap is `other` but for its memory.
    pub open spec fn same_but_memory(&self, other: Heap) -> bool {
        &&& self.layout == other.layout
        &&& self.young == other.young
        &&& self.total == other.total
        &&& self.old == other.old
        &&& self.large_space == other.large_space
        &&& self.card_table == other.card_table
        &&& self.crossing_map == other.crossing_map
        &&& self.perm_space == other.perm_space
        &&& self.config == other.config
    }

    /// Whether the heap is well formed: what it holds is, and its parts
    /// agree with that.
    pub open spec fn wf(&self) -> bool {
        &&& self@.wf()
        &&& self.old.wf()
        &&& self.young_ranges_ok()
        &&& self.tiling_ok()
        &&& self.tables_ok()
        &&& self.large_ok()
    }

    /// A heap without objects over the given ranges.
    pub fn new(
        total: Region,
        eden: Region,
        from: Region,
        to: Region,
        old_total: Region,
        large_total: Region,
        perm: Region,
        old_limit: usize,
    ) -> (r: Heap)
        requires
            0 < total.start@ <= total.end@,
            total.end@ + CARD_SIZE <= usize::MAX,
            eden.wf() && eden.within(total),
            from.wf() && from.within(total),
            to.wf() && to.within(total),
            old_total.wf() && old_total.within(total),
            large_total.start@ < large_total.end@ && large_total.within(total),
            eden.disjoint(from) && eden.disjoint(to) && from.disjoint(to),
            eden.disjoint(old_total) && from.disjoint(old_total) && to.disjoint(old_total),
            eden.disjoint(large_total) && from.disjoint(large_total) && to.disjoint(large_total),
            old_total.disjoint(large_total),
            perm.wf() && perm.disjoint(total),
            is_page_aligned(old_total.start.0),
            is_page_aligned(old_total.end.0),
            is_page_aligned(large_total.start.0),
        ensures
            r.wf(),
            r@ == (HeapView {
                mem: Map::empty(),
                old_objects: Seq::empty(),
                young_objects: Seq::empty(),
                large_objects: Seq::empty(),
                heap: total,
                old_total,
                large_total,
                perm,
            }),
            r.young.eden == (Block { start: eden.start, top: eden.start, end: eden.end }),
            r.young.from == (Block { start: from.start, top: from.start, end: from.end }),
            r.young.to == (Block { start: to.start, top: to.start, end: to.end }),
            r.old.protected.regions@ == seq![
                OldRegion { start: old_total.start, top: old_total.start, end: old_total.end },
            ],
            r.config == (HeapConfig { old_size: 0, old_limit }),
            r.card_table@ == (crate::card::CardTableView {
                start: total.start,
                dirty: Seq::new((total.spec_size() / 512 + 1) as nat, |idx: int| false),
            }),
            r.crossing_map@ == Seq::new(
                (old_total.spec_size() / 512 + 1) as nat,
                |idx: int| crate::crossing::CrossingEntry::NoRefs,
            ),
            r.old.protected.committed == old_total.start,
            !r.young.to_protected,
            r.large_space@ == (LargeSpaceView {
                total: large_total,
                free: seq![Range { start: large_total.start, end: large_total.end }],
                live: Seq::empty(),
            }),
    {
        let cards = total.size() / CARD_SIZE + 1;
        let old_cards = old_total.size() / CARD_SIZE + 1;
        let r = Heap {
            memory: Memory::new(),
            total,
            young: YoungGen::new(eden, from, to),
            old: OldGen::new(old_total.start, old_total.end),
            large_space: LargeSpace::new(large_total.start, large_total.end),
            card_table: CardTable::new(total.start, cards),
            crossing_map: CrossingMap::new(old_cards),
            perm_space: perm,
            config: HeapConfig::new(old_limit),
            layout: Ghost(
                Layout {
                    old: Seq::empty(),
                    first: seq![0int, 0int],
                    eden: Seq::empty(),
                    from: Seq::empty(),
                    to: Seq::empty(),
                },
            ),
        };
        proof {
            assert(r@.young_objects =~= Seq::<Address>::empty());
            assert(r@.large_objects =~= Seq::<Address>::empty());
            assert(r.layout@.region(0) =~= Seq::<Address>::empty());
            reveal(HeapView::wf);
            reveal(tiled);
            reveal(card_of);
        }
        r
    }

    /// No object starts at the top of a block of the young generation that is
    /// not full.
    pub proof fn lemma_top_is_free(&self, block: Block, objs: Seq<Address>)
        requires
            self.wf(),
            block.top@ < block.end@,
            tiled(self.memory@, block.start, block.top, objs),
            block.total().within(self.total),
            block.total().disjoint(self.old.total),
            block.total().disjoint(self.large_space.spec_total()),
            forall|i: int|
                0 <= i < self@.young_objects.len() ==> objs.contains(#[trigger] self@.young_objects[i])
                    || !block.total().spec_contains(self@.young_objects[i]),
        ensures
            !self.memory@.contains_key(block.top),
    {
        reveal(HeapView::wf);
        reveal(tiled);
        let h = self@;
        let top = block.top;
        if h.mem.contains_key(top) {
            if h.old_objects.contains(top) {
                let j = choose|j: int| 0 <= j < h.old_objects.len() && h.old_objects[j] == top;
                assert(h.object_ok(h.old_objects[j]));
            }
            if h.large_objects.contains(top) {
                let j = choose|j: int| 0 <= j < h.large_objects.len() && h.large_objects[j] == top;
                assert(h.object_ok(h.large_objects[j]));
            }
            if h.young_objects.contains(top) {
                let j = choose|j: int| 0 <= j < h.young_objects.len() && h.young_objects[j] == top;
                assert(objs.contains(h.young_objects[j]));
                let k = choose|k: int| 0 <= k < objs.len() && objs[k] == top;
                assert(h.mem.contains_key(objs[k]));
            }
        }
    }

    /// Each young object lies in the block whose objects it is one of.
    pub proof fn lemma_young_blocks(&self)
        requires
            self.wf(),
        ensures
            forall|i: int|
                0 <= i < self@.young_objects.len() ==> self.layout@.eden.contains(
                    #[trigger] self@.young_objects[i],
                ) || !self.young.eden.total().spec_contains(self@.young_objects[i]),
    {
        reveal(tiled);
        let h = self@;
        let layout = self.layout@;
        assert forall|i: int| 0 <= i < h.young_objects.len() implies layout.eden.contains(
            #[trigger] h.young_objects[i],
        ) || !self.young.eden.total().spec_contains(h.young_objects[i]) by {
            if i < layout.eden.len() {
                assert(layout.eden[i] == h.young_objects[i]);
            } else if i < layout.eden.len() + layout.from.len() {
                assert(self.memory@.contains_key(layout.from[i - layout.eden.len()]));
            } else {
                assert(self.memory@.contains_key(
                    layout.to[i - layout.eden.len() - layout.from.len()],
                ));
            }
        }
    }

    /// A heap stays well formed where an object without references is put at
    /// the top of eden.
    pub proof fn lemma_alloc_young(before: Heap, after: Heap, obj: ObjView)
        requires
            before.wf(),
            obj.size > 0,
            before.young.eden.top@ + obj.size <= before.young.eden.end@,
            forall|k: int| 0 <= k < obj.fields.len() ==> (#[trigger] obj.fields[k])@ == 0,
            after.memory@ == before.memory@.insert(before.young.eden.top, obj),
            after.layout@ == (Layout {
                eden: before.layout@.eden.push(before.young.eden.top),
                ..before.layout@
            }),
            after.young == (YoungGen {
                eden: Block {
                    top: Address((before.young.eden.top@ + obj.size) as usize),
                    ..before.young.eden
                },
                ..before.young
            }),
            after.total == before.total,
            after.old == before.old,
            after.large_space == before.large_space,
            after.card_table == before.card_table,
            after.crossing_map == before.crossing_map,
            after.perm_space == before.perm_space,
        ensures
            after.wf(),
    {
        let h = before@;
        let g = after@;
        let top = before.young.eden.top;
        let was = before.layout@;
        let is = after.layout@;
        let mem = after.memory@;
        before.lemma_young_blocks();
        before.lemma_top_is_free(before.young.eden, was.eden);
        assert(g.young_objects[was.eden.len() as int] == top);
        assert forall|i: int| 0 <= i < g.young_objects.len() implies #[trigger] g.young_objects[i]
            == top || h.young_objects.contains(g.young_objects[i]) by {
            if i < was.eden.len() {
                assert(h.young_objects[i] == g.young_objects[i]);
            } else if i > was.eden.len() {
                assert(h.young_objects[i - 1] == g.young_objects[i]);
            }
        }
        assert forall|i: int| 0 <= i < h.young_objects.len() implies g.young_objects.contains(
            #[trigger] h.young_objects[i],
        ) by {
            if i < was.eden.len() {
                assert(g.young_objects[i] == h.young_objects[i]);
            } else {
                assert(g.young_objects[i + 1] == h.young_objects[i]);
            }
        }
        assert(g.young_objects.no_duplicates()) by {
            reveal(HeapView::wf);
            assert forall|i: int, j: int|
                0 <= i < g.young_objects.len() && 0 <= j < g.young_objects.len() && i
                    != j implies g.young_objects[i] != g.young_objects[j] by {
                let i0 = if i < was.eden.len() { i } else { i - 1 };
                let j0 = if j < was.eden.len() { j } else { j - 1 };
                if i != was.eden.len() {
                    assert(g.young_objects[i] == h.young_objects[i0]);
                    assert(h.object_ok(h.young_objects[i0]));
                }
                if j != was.eden.len() {
                    assert(g.young_objects[j] == h.young_objects[j0]);
                    assert(h.object_ok(h.young_objects[j0]));
                }
            }
        }
        assert(g.object_ok(top)) by {
            reveal(HeapView::wf);
        }
        assert(g.apart(top, h.old_total) && g.apart(top, h.large_total));
        assert(g.wf()) by {
            lemma_add_object(h, g, top, obj);
        }
        assert(after.tiling_ok()) by {
            let regions = after.old.protected.regions@;
            assert forall|r: int| 0 <= r < regions.len() implies tiled(
                mem,
                (#[trigger] regions[r]).start,
                regions[r].top,
                is.region(r),
            ) by {
                lemma_tiled_insert(h.mem, top, obj, regions[r].start, regions[r].top, was.region(r));
            }
            lemma_tiled_push(h.mem, obj, before.young.eden.start, top, was.eden);
            lemma_tiled_insert(
                h.mem,
                top,
                obj,
                before.young.from.start,
                before.young.from.top,
                was.from,
            );
            lemma_tiled_insert(h.mem, top, obj, before.young.to.start, before.young.to.top, was.to);
        }
        assert(after.large_ok()) by {
            reveal(HeapView::wf);
            let live = after.large_space@.live;
            assert forall|i: int| 0 <= i < live.len() implies (#[trigger] live[i]).start@
                + LARGE_ALLOC_SIZE + mem[Address((live[i].start@ + LARGE_ALLOC_SIZE) as usize)].size
                <= live[i].end@ by {
                assert(h.large_objects[i] == Address((live[i].start@ + LARGE_ALLOC_SIZE) as usize));
                assert(h.object_ok(h.large_objects[i]));
            }
        }
    }

    /// Allocates an object of `size` bytes with `fields` reference fields, all
    /// null, at the top of eden. Returns its address, or null, with nothing
    /// changed, where eden has no room for it.
    pub fn alloc_young(&mut self, size: usize, fields: usize, array_ref: bool) -> (r: Address)
        requires
            old(self).wf(),
            size > 0,
        ensures
            final(self).wf(),
            old(self).young.eden.top@ + size > old(self).young.eden.end@ ==> r@ == 0 && *final(self)
                == *old(self),
            old(self).young.eden.top@ + size <= old(self).young.eden.end@ ==> {
                &&& r == old(self).young.eden.top
                &&& final(self).memory@ == old(self).memory@.insert(
                    r,
                    ObjView {
                        size,
                        marked: false,
                        fwdptr: Address(0),
                        array_ref,
                        fields: Seq::new(fields as nat, |i: int| Address(0)),
                    },
                )
                &&& final(self).layout@ == (Layout {
                    eden: old(self).layout@.eden.push(r),
                    ..old(self).layout@
                })
                &&& final(self).young == (YoungGen {
                    eden: Block { top: Address((r@ + size) as usize), ..old(self).young.eden },
                    ..old(self).young
                })
                &&& final(self).total == old(self).total
                &&& final(self).old == old(self).old
                &&& final(self).large_space == old(self).large_space
                &&& final(self).card_table == old(self).card_table
                &&& final(self).crossing_map == old(self).crossing_map
                &&& final(self).perm_space == old(self).perm_space
                &&& final(self).config == old(self).config
            },
    {
        let top = self.young.eden.top;
        if size > self.young.eden.end.0 - top.0 {
            return Address::null();
        }
        let ghost before = self.layout@;
        proof {
            self.lemma_young_blocks();
            self.lemma_top_is_free(self.young.eden, before.eden);
        }
        let obj = Obj::new(size, fields, array_ref);
        let ghost view = obj@;
        self.memory.insert(top, obj);
        self.young.eden.top = top.offset(size);
        self.layout = Ghost(Layout { eden: before.eden.push(top), ..before });
        proof {
            Heap::lemma_alloc_young(*old(self), *self, view);
        }
        top
    }

    /// A heap stays well formed where its memory changes but its objects
    /// keep their place and size, and their reference fields hold values
    /// that may stand there.
    pub proof fn lemma_same_shape(before: Heap, after: Heap)
        requires
            before.wf(),
            after.layout == before.layout,
            after.young == before.young,
            after.total == before.total,
            after.old.total == before.old.total,
            after.old.protected.regions == before.old.protected.regions,
            after.old.wf(),
            after.large_space@ == before.large_space@,
            after.large_space.spec_total() == before.large_space.spec_total(),
            after.large_space.wf(),
            after.card_table@ == before.card_table@,
            after.card_table.wf(),
            after.crossing_map@.len() == before.crossing_map@.len(),
            after.perm_space == before.perm_space,
            forall|addr: Address|
                before.memory@.contains_key(addr) <==> after.memory@.contains_key(addr),
            forall|addr: Address| #[trigger]
                before.memory@.contains_key(addr) ==> after.memory@[addr].size
                    == before.memory@[addr].size,
            forall|addr: Address| #[trigger]
                after.memory@.contains_key(addr) ==> after@.valid_refs(after.memory@[addr].fields),
        ensures
            after.wf(),
    {
        let h = before@;
        let g = after@;
        let mem = after.memory@;
        lemma_same_shape(h, g);
        Heap::lemma_tiling_same_sizes(before, after);
        assert(after.tiling_ok());
        assert(after.large_ok()) by {
            reveal(HeapView::wf);
            let live = after.large_space@.live;
            assert forall|i: int| 0 <= i < live.len() implies (#[trigger] live[i]).start@
                + LARGE_ALLOC_SIZE + mem[Address((live[i].start@ + LARGE_ALLOC_SIZE) as usize)].size
                <= live[i].end@ by {
                assert(h.large_objects[i] == Address((live[i].start@ + LARGE_ALLOC_SIZE) as usize));
                assert(h.object_ok(h.large_objects[i]));
            }
        }
    }

    /// A heap stays well formed where its memory changes to one that makes
    /// what it holds well formed, with the objects in their place and size.
    pub proof fn lemma_same_layout(before: Heap, after: Heap)
        requires
            before.wf(),
            after@.wf(),
            after.layout == before.layout,
            after.young == before.young,
            after.total == before.total,
            after.old.total == before.old.total,
            after.old.protected.regions == before.old.protected.regions,
            after.old.wf(),
            after.large_space@ == before.large_space@,
            after.large_space.spec_total() == before.large_space.spec_total(),
            after.large_space.wf(),
            after.card_table@ == before.card_table@,
            after.card_table.wf(),
            after.crossing_map@.len() == before.crossing_map@.len(),
            after.perm_space == before.perm_space,
            forall|addr: Address| #[trigger]
                before.memory@.contains_key(addr) ==> after.memory@.contains_key(addr)
                    && after.memory@[addr].size == before.memory@[addr].size,
        ensures
            after.wf(),
    {
        let h = before@;
        let mem = after.memory@;
        Heap::lemma_tiling_same_sizes(before, after);
        assert(after.large_ok()) by {
            reveal(HeapView::wf);
            let live = after.large_space@.live;
            assert forall|i: int| 0 <= i < live.len() implies (#[trigger] live[i]).start@
                + LARGE_ALLOC_SIZE + mem[Address((live[i].start@ + LARGE_ALLOC_SIZE) as usize)].size
                <= live[i].end@ by {
                assert(h.large_objects[i] == Address((live[i].start@ + LARGE_ALLOC_SIZE) as usize));
                assert(h.object_ok(h.large_objects[i]));
            }
        }
    }

    /// The objects fill the regions and blocks of a heap as they fill those
    /// of a heap with the same layout whose memory holds them with their sizes.
    pub proof fn lemma_tiling_same_sizes(before: Heap, after: Heap)
        requires
            before.tiling_ok(),
            after.layout == before.layout,
            after.young == before.young,
            after.old.protected.regions == before.old.protected.regions,
            forall|addr: Address| #[trigger]
                before.memory@.contains_key(addr) ==> after.memory@.contains_key(addr)
                    && after.memory@[addr].size == before.memory@[addr].size,
        ensures
            after.tiling_ok(),
    {
        let h = before@;
        let mem = after.memory@;
        assert(after.tiling_ok()) by {
            let regions = after.old.protected.regions@;
            let layout = after.layout@;
            assert forall|r: int| 0 <= r < regions.len() implies tiled(
                mem,
                (#[trigger] regions[r]).start,
                regions[r].top,
                layout.region(r),
            ) by {
                reveal(tiled);
                assert(tiled(h.mem, regions[r].start, regions[r].top, layout.region(r)));
                lemma_tiled_same_sizes(
                    h.mem,
                    mem,
                    regions[r].start,
                    regions[r].top,
                    layout.region(r),
                );
            }
            assert(tiled(mem, after.young.eden.start, after.young.eden.top, layout.eden)) by {
                reveal(tiled);
                lemma_tiled_same_sizes(
                    h.mem,
                    mem,
                    after.young.eden.start,
                    after.young.eden.top,
                    layout.eden,
                );
            }
            assert(tiled(mem, after.young.from.start, after.young.from.top, layout.from)) by {
                reveal(tiled);
                lemma_tiled_same_sizes(
                    h.mem,
                    mem,
                    after.young.from.start,
                    after.young.from.top,
                    layout.from,
                );
            }
            assert(tiled(mem, after.young.to.start, after.young.to.top, layout.to)) by {
                reveal(tiled);
                lemma_tiled_same_sizes(
                    h.mem,
                    mem,
                    after.young.to.start,
                    after.young.to.top,
                    layout.to,
                );
            }
        }
    }

    /// Whether `value` may stand in a root or a reference field: whether it
    /// is null, points into the perm space, or is the address of an object.
    pub fn is_valid_ref(&self, value: Address) -> (r: bool)
        ensures
            r == self@.valid_ref(value),
    {
        if self.total.contains(value) {
            self.memory.contains(value)
        } else {
            value.is_null() || self.perm_space.contains(value)
        }
    }

    /// Whether no object of the heap is marked.
    pub fn is_unmarked(&self) -> (r: bool)
        requires
            self.wf(),
        ensures
            r == self@.unmarked(),
    {
        let ghost h = self@;
        let order = self.walk_old_and_young();
        let large = self.large_space.visit_objects();
        proof {
            crate::compact::lemma_objects(h);
            crate::compact::lemma_order(h);
        }
        let mut i: usize = 0;
        while i < order.len()
            invariant
                i <= order.len(),
                order@ == h.order(),
                h == self@,
                forall|k: int| 0 <= k < h.order().len() ==> h.object_ok(#[trigger] h.order()[k]),
                forall|k: int| 0 <= k < i ==> !h.mem[#[trigger] order@[k]].marked,
            decreases order.len() - i,
        {
            assert(h.object_ok(h.order()[i as int]));
            if self.memory.is_marked(order[i]) {
                return false;
            }
            i += 1;
        }
        let mut j: usize = 0;
        while j < large.len()
            invariant
                j <= large.len(),
                large@ == h.large_objects,
                h == self@,
                forall|k: int|
                    0 <= k < h.large_objects.len() ==> h.object_ok(#[trigger] h.large_objects[k]),
                forall|k: int| 0 <= k < j ==> !h.mem[#[trigger] large@[k]].marked,
            decreases large.len() - j,
        {
            assert(h.object_ok(h.large_objects[j as int]));
            if self.memory.is_marked(large[j]) {
                return false;
            }
            j += 1;
        }
        proof {
            assert forall|addr: Address| #[trigger] h.mem.contains_key(addr) implies !h.mem[addr].marked by {
                let all = h.objects();
                assert(all.contains(addr));
                let x = choose|x: int| 0 <= x < all.len() && all[x] == addr;
                if x < order@.len() {
                    assert(order@[x] == addr);
                } else {
                    assert(large@[x - order@.len()] == addr);
                }
            }
        }
        true
    }

    /// Whether every value of `refs` may stand in a root or a reference field.
    pub fn are_valid_refs(&self, refs: &Vec<Address>) -> (r: bool)
        ensures
            r == self@.valid_refs(refs@),
    {
        let mut i: usize = 0;
        while i < refs.len()
            invariant
                i <= refs@.len(),
                forall|k: int| 0 <= k < i ==> self@.valid_ref(#[trigger] refs@[k]),
            decreases refs@.len() - i,
        {
            if !self.is_valid_ref(refs[i]) {
                return false;
            }
            i += 1;
        }
        true
    }

    /// Writes `value` to reference field `index` of the object at `addr`.
    pub fn set_field(&mut self, addr: Address, index: usize, value: Address)
        requires
            old(self).wf(),
            old(self).memory@.contains_key(addr),
            index < old(self).memory@[addr].fields.len(),
            old(self)@.valid_ref(value),
        ensures
            final(self).wf(),
            final(self).memory@ == old(self).memory@.insert(
                addr,
                ObjView {
                    fields: old(self).memory@[addr].fields.update(index as int, value),
                    ..old(self).memory@[addr]
                },
            ),
            final(self).layout == old(self).layout,
            final(self).young == old(self).young,
            final(self).total == old(self).total,
            final(self).old == old(self).old,
            final(self).large_space == old(self).large_space,
            final(self).card_table == old(self).card_table,
            final(self).crossing_map == old(self).crossing_map,
            final(self).perm_space == old(self).perm_space,
            final(self).config == old(self).config,
    {
        self.memory.set_field(addr, index, value);
        proof {
            let h = old(self)@;
            let g = self@;
            assert forall|a: Address| #[trigger] self.memory@.contains_key(a) implies self@.valid_refs(
                self.memory@[a].fields,
            ) by {
                reveal(HeapView::wf);
                assert(h.mem.contains_key(a));
                assert(h.valid_refs(h.mem[a].fields));
                assert forall|k: int| 0 <= k < g.mem[a].fields.len() implies g.valid_ref(
                    #[trigger] g.mem[a].fields[k],
                ) by {
                    if !(a == addr && k == index) {
                        assert(h.valid_ref(h.mem[a].fields[k]));
                    }
                }
            }
            Heap::lemma_same_shape(*old(self), *self);
        }
    }

    /// Allocates an object of `size` bytes with `fields` reference fields, all
    /// null, in the large object space. Returns its address, or null where
    /// the controller refuses the growth or no free range is large enough.
    pub fn alloc_large(&mut self, size: usize, fields: usize, array_ref: bool) -> (r: Address)
        requires
            old(self).wf(),
            size > 0,
        ensures
            final(self).wf(),
            old(self).large_space@.allocates(
                old(self).config,
                size,
                final(self).large_space@,
                final(self).config,
                r,
            ),
            r@ == 0 ==> final(self).memory@ == old(self).memory@,
            r@ != 0 ==> final(self).memory@ == old(self).memory@.insert(
                r,
                ObjView {
                    size,
                    marked: false,
                    fwdptr: Address(0),
                    array_ref,
                    fields: Seq::new(fields as nat, |i: int| Address(0)),
                },
            ),
            final(self).layout == old(self).layout,
            final(self).young == old(self).young,
            final(self).total == old(self).total,
            final(self).old == old(self).old,
            final(self).card_table == old(self).card_table,
            final(self).crossing_map == old(self).crossing_map,
            final(self).perm_space == old(self).perm_space,
    {
        let r = self.large_space.allocate(&mut self.config, size);
        if r.is_null() {
            proof {
                assert forall|a: Address| #[trigger]
                    self.memory@.contains_key(a) implies self@.valid_refs(self.memory@[a].fields) by {
                    reveal(HeapView::wf);
                    assert(old(self)@.valid_refs(old(self)@.mem[a].fields));
                    assert forall|k: int| 0 <= k < self.memory@[a].fields.len() implies self@.valid_ref(
                        #[trigger] self.memory@[a].fields[k],
                    ) by {
                        assert(old(self)@.valid_ref(old(self)@.mem[a].fields[k]));
                    }
                }
                Heap::lemma_same_shape(*old(self), *self);
            }
            return r;
        }
        let obj = Obj::new(size, fields, array_ref);
        let ghost view = obj@;
        proof {
            Heap::lemma_alloc_large_fresh(*old(self), self.large_space, size, r);
        }
        self.memory.insert(r, obj);
        proof {
            Heap::lemma_alloc_large(*old(self), *self, view, r);
        }
        r
    }

    /// The address that an allocation in the large object space returns
    /// holds no object yet.
    pub proof fn lemma_alloc_large_fresh(before: Heap, space: LargeSpace, size: usize, r: Address)
        requires
            before.wf(),
            space.wf(),
            space.spec_total() == before.large_space.spec_total(),
            r@ != 0,
            before.large_space@.takes(
                spec_page_align(LARGE_ALLOC_SIZE + size) as usize,
                space@,
                r,
            ),
            spec_page_align(LARGE_ALLOC_SIZE + size) <= usize::MAX,
        ensures
            !before.memory@.contains_key(r),
            before.large_space.spec_total().start@ <= r@,
            r@ + size <= before.large_space.spec_total().end@,
            space@.live.len() > 0,
            space@.live =~= seq![space@.live[0]] + before.large_space@.live,
            space@.live[0].start@ + LARGE_ALLOC_SIZE == r@,
            r@ + size <= space@.live[0].end@,
    {
        let h = before@;
        let need = spec_page_align(LARGE_ALLOC_SIZE + size) as usize;
        lemma_page_align(LARGE_ALLOC_SIZE + size);
        let v = before.large_space@;
        let i = choose|i: int| #[trigger]
            v.first_fit(need, i) && space@ == v.allocated(i, need) && r@ == v.free[i].start@
                + LARGE_ALLOC_SIZE;
        lemma_live_ranges(space@);
        let live = space@.live;
        assert(live[0].start@ + LARGE_ALLOC_SIZE == r@);
        assert(live[0].spec_size() == need);
        if h.mem.contains_key(r) {
            reveal(HeapView::wf);
            if h.old_objects.contains(r) {
                let j = choose|j: int| 0 <= j < h.old_objects.len() && h.old_objects[j] == r;
                assert(h.object_ok(h.old_objects[j]));
            }
            if h.young_objects.contains(r) {
                let j = choose|j: int| 0 <= j < h.young_objects.len() && h.young_objects[j] == r;
                assert(h.object_ok(h.young_objects[j]));
            }
            if h.large_objects.contains(r) {
                let j = choose|j: int| 0 <= j < h.large_objects.len() && h.large_objects[j] == r;
                assert(live[j + 1] == v.live[j]);
                assert(live[j + 1].start != live[0].start);
            }
        }
    }

    /// A heap stays well formed where an object without references is put
    /// into a fresh allocation of the large object space.
    pub proof fn lemma_alloc_large(before: Heap, after: Heap, obj: ObjView, r: Address)
        requires
            before.wf(),
            after.large_space.wf(),
            after.large_space.spec_total() == before.large_space.spec_total(),
            obj.size > 0,
            forall|k: int| 0 <= k < obj.fields.len() ==> (#[trigger] obj.fields[k])@ == 0,
            !before.memory@.contains_key(r),
            before.large_space.spec_total().start@ <= r@,
            r@ + obj.size <= before.large_space.spec_total().end@,
            after.large_space@.live.len() > 0,
            after.large_space@.live =~= seq![after.large_space@.live[0]]
                + before.large_space@.live,
            after.large_space@.live[0].start@ + LARGE_ALLOC_SIZE == r@,
            r@ + obj.size <= after.large_space@.live[0].end@,
            after.memory@ == before.memory@.insert(r, obj),
            after.layout == before.layout,
            after.young == before.young,
            after.total == before.total,
            after.old == before.old,
            after.card_table == before.card_table,
            after.crossing_map == before.crossing_map,
            after.perm_space == before.perm_space,
        ensures
            after.wf(),
    {
        let h = before@;
        let g = after@;
        let mem = after.memory@;
        let layout = after.layout@;
        assert(g.large_objects =~= seq![r] + h.large_objects);
        assert(g.object_ok(r)) by {
            reveal(HeapView::wf);
        }
        lemma_add_object(h, g, r, obj);
        assert(after.tiling_ok()) by {
            let regions = after.old.protected.regions@;
            assert forall|k: int| 0 <= k < regions.len() implies tiled(
                mem,
                (#[trigger] regions[k]).start,
                regions[k].top,
                layout.region(k),
            ) by {
                lemma_tiled_insert(h.mem, r, obj, regions[k].start, regions[k].top, layout.region(k));
            }
            lemma_tiled_insert(
                h.mem,
                r,
                obj,
                before.young.eden.start,
                before.young.eden.top,
                layout.eden,
            );
            lemma_tiled_insert(
                h.mem,
                r,
                obj,
                before.young.from.start,
                before.young.from.top,
                layout.from,
            );
            lemma_tiled_insert(h.mem, r, obj, before.young.to.start, before.young.to.top, layout.to);
        }
        assert(after.large_ok()) by {
            reveal(HeapView::wf);
            let live = after.large_space@.live;
            assert forall|i: int| 0 <= i < live.len() implies (#[trigger] live[i]).start@
                + LARGE_ALLOC_SIZE + mem[Address((live[i].start@ + LARGE_ALLOC_SIZE) as usize)].size
                <= live[i].end@ by {
                if i > 0 {
                    assert(live[i] == before.large_space@.live[i - 1]);
                    assert(h.large_objects[i - 1] == Address(
                        (live[i].start@ + LARGE_ALLOC_SIZE) as usize,
                    ));
                    assert(h.object_ok(h.large_objects[i - 1]));
                }
            }
        }
    }

    /// The objects outside the large object space in the order in which a
    /// collection walks them: those of each region of the old generation,
    /// then those of eden, of the from-space and of the to-space.
    pub fn walk_old_and_young(&self) -> (r: Vec<Address>)
        requires
            self.tiling_ok(),
        ensures
            r@ == self@.order(),
    {
        let ghost layout = self.layout@;
        let mut out: Vec<Address> = Vec::new();
        let mut idx: usize = 0;
        let count = self.old.protected.regions.len();
        proof {
            assert(layout.old.subrange(0, layout.first[0]) =~= Seq::<Address>::empty());
        }
        while idx < count
            invariant
                idx <= count,
                count == self.old.protected.regions@.len(),
                layout == self.layout@,
                self.tiling_ok(),
                out@ == layout.old.subrange(0, layout.first[idx as int]),
            decreases count - idx,
        {
            let region = self.old.protected.regions[idx].active_region();
            proof {
                assert(tiled(
                    self.memory@,
                    self.old.protected.regions@[idx as int].start,
                    self.old.protected.regions@[idx as int].top,
                    layout.region(idx as int),
                ));
                assert(tiled(self.memory@, region.start, region.end, layout.region(idx as int)));
            }
            let mut objs = walk_region(&self.memory, region);
            proof {
                lemma_tiled_unique(
                    self.memory@,
                    region.start,
                    region.end,
                    objs@,
                    layout.region(idx as int),
                );
                assert(layout.first[0] <= layout.first[idx as int]);
                assert(layout.first[idx as int] <= layout.first[idx + 1]);
                assert(layout.first[idx + 1] <= layout.first[count as int]);
                assert(layout.old.subrange(0, layout.first[idx as int]) + layout.region(idx as int)
                    =~= layout.old.subrange(0, layout.first[idx + 1]));
            }
            out.append(&mut objs);
            idx += 1;
        }
        proof {
            assert(layout.old.subrange(0, layout.first[count as int]) =~= layout.old);
        }
        let eden_active = self.young.eden_active();
        assert(tiled(self.memory@, eden_active.start, eden_active.end, layout.eden));
        let mut eden = walk_region(&self.memory, eden_active);
        proof {
            lemma_tiled_unique(
                self.memory@,
                self.young.eden.start,
                self.young.eden.top,
                eden@,
                layout.eden,
            );
        }
        out.append(&mut eden);
        let from_active = self.young.from_active();
        assert(tiled(self.memory@, from_active.start, from_active.end, layout.from));
        let mut from = walk_region(&self.memory, from_active);
        proof {
            lemma_tiled_unique(
                self.memory@,
                self.young.from.start,
                self.young.from.top,
                from@,
                layout.from,
            );
        }
        out.append(&mut from);
        let to_active = self.young.to_active();
        assert(tiled(self.memory@, to_active.start, to_active.end, layout.to));
        let mut to = walk_region(&self.memory, to_active);
        proof {
            lemma_tiled_unique(self.memory@, self.young.to.start, self.young.to.top, to@, layout.to);
            assert(layout.old + layout.eden + layout.from + layout.to =~= self@.order());
        }
        out.append(&mut to);
        out
    }

    /// No object of the old generation ends above the top of its last region.
    pub proof fn lemma_old_below_top(&self)
        requires
            self.wf(),
        ensures
            self.old.protected.regions@.len() > 0 ==> forall|i: int|
                0 <= i < self@.old_objects.len() ==> (#[trigger] self@.old_objects[i])@
                    + self.memory@[self@.old_objects[i]].size
                    <= self.old.protected.regions@.last().top@,
    {
        let regions = self.old.protected.regions@;
        let layout = self.layout@;
        let n = regions.len() as int;
        if n > 0 {
            assert forall|i: int| 0 <= i < layout.old.len() implies (#[trigger] layout.old[i])@
                + self.memory@[layout.old[i]].size <= regions.last().top@ by {
                assert(layout.first[0] <= layout.first[n]);
                lemma_region_of(layout, n, i, n - 1);
                let r = choose|r: int|
                    0 <= r <= n - 1 && layout.first[r] <= i < #[trigger] layout.first[r + 1];
                assert(layout.first[r + 1] <= layout.first[n]);
                assert(tiled(self.memory@, regions[r].start, regions[r].top, layout.region(r)));
                reveal(tiled);
                let here = layout.region(r);
                assert(here[i - layout.first[r]] == layout.old[i]);
                assert(self.memory@.contains_key(here[i - layout.first[r]]));
                assert(regions[r].wf());
                assert(regions.last() == regions[n - 1]);
                assert(regions[n - 1].wf());
                if r < n - 1 {
                    assert(regions[r].end@ <= regions[n - 1].start@);
                }
            }
        }
    }

    /// Closes the last region of the old generation at its top, and opens
    /// the region `[start, end)` above it, without objects.
    pub fn add_old_region(&mut self, start: Address, end: Address)
        requires
            old(self).wf(),
            old(self).old.protected.regions@.len() > 0,
            old(self).old.protected.regions@.last().top@ <= start@ <= end@,
            end@ <= old(self).old.total.end@,
        ensures
            final(self).wf(),
            final(self).old.protected.regions@ == old(self).old.protected.regions@.update(
                old(self).old.protected.regions@.len() - 1,
                OldRegion {
                    end: old(self).old.protected.regions@.last().top,
                    ..old(self).old.protected.regions@.last()
                },
            ).push(OldRegion { start, top: start, end }),
            final(self)@ == old(self)@,
            final(self).old.total == old(self).old.total,
            final(self).old.protected.committed == old(self).old.protected.committed,
            final(self).memory == old(self).memory,
            final(self).young == old(self).young,
            final(self).total == old(self).total,
            final(self).large_space == old(self).large_space,
            final(self).card_table == old(self).card_table,
            final(self).crossing_map == old(self).crossing_map,
            final(self).perm_space == old(self).perm_space,
            final(self).config == old(self).config,
    {
        let ghost before = self.old.protected.regions@;
        let ghost layout = self.layout@;
        let last = self.old.protected.regions.len() - 1;
        let closed = self.old.protected.regions[last];
        proof {
            assert(before[last as int].wf());
        }
        self.old.protected.regions[last] = OldRegion::new(closed.start, closed.top, closed.top);
        self.old.protected.regions.push(OldRegion::new(start, start, end));
        self.layout = Ghost(Layout { first: layout.first.push(layout.old.len() as int), ..layout });
        proof {
            let after = self.old.protected.regions@;
            let now = self.layout@;
            let n = before.len() as int;
            assert forall|r: int| 0 <= r < after.len() implies (#[trigger] after[r]).wf()
                && self.old.total.start@ <= after[r].start@ && after[r].end@
                <= self.old.total.end@ by {
                if r < n {
                    assert(before[r].wf());
                    assert(before[n - 1].wf());
                } else {
                    assert(before[n - 1].wf());
                }
            }
            assert forall|r: int, s: int| 0 <= r < s < after.len() implies (#[trigger] after[r]).end@
                <= (#[trigger] after[s]).start@ by {
                assert(before[n - 1].wf());
                if s < n {
                    assert(before[r].end@ <= before[s].start@);
                } else if r < n - 1 {
                    assert(before[r].end@ <= before[n - 1].start@);
                }
            }
            assert(now.first_ok(n + 1)) by {
                assert forall|r: int, s: int| 0 <= r <= s <= n + 1 implies #[trigger] now.first[r]
                    <= #[trigger] now.first[s] by {
                    if s <= n {
                        assert(layout.first[r] <= layout.first[s]);
                    } else if r <= n {
                        assert(layout.first[r] <= layout.first[n]);
                    }
                }
            }
            assert forall|r: int| 0 <= r < after.len() implies tiled(
                self.memory@,
                (#[trigger] after[r]).start,
                after[r].top,
                now.region(r),
            ) by {
                if r < n {
                    assert(now.region(r) == layout.region(r));
                    assert(tiled(self.memory@, before[r].start, before[r].top, layout.region(r)));
                } else {
                    assert(now.region(r) =~= Seq::<Address>::empty());
                    reveal(tiled);
                }
            }
        }
    }

    /// Allocates an object of `size` bytes with `fields` reference fields, all
    /// null, at the top of the last region of the old generation. Returns
    /// its address, or null, with nothing changed, where the region has no
    /// room for it.
    pub fn alloc_old(&mut self, size: usize, fields: usize, array_ref: bool) -> (r: Address)
        requires
            old(self).wf(),
            old(self).old.protected.regions@.len() > 0,
            size > 0,
        ensures
            final(self).wf(),
            ({
                let last = old(self).old.protected.regions@.last();
                if last.top@ + size > last.end@ {
                    r@ == 0 && *final(self) == *old(self)
                } else {
                    &&& r == last.top
                    &&& final(self).memory@ == old(self).memory@.insert(
                        r,
                        ObjView {
                            size,
                            marked: false,
                            fwdptr: Address(0),
                            array_ref,
                            fields: Seq::new(fields as nat, |i: int| Address(0)),
                        },
                    )
                    &&& final(self)@.old_objects == old(self)@.old_objects.push(r)
                    &&& final(self)@.young_objects == old(self)@.young_objects
                    &&& final(self).old.protected.regions@ == old(
                        self,
                    ).old.protected.regions@.update(
                        old(self).old.protected.regions@.len() - 1,
                        OldRegion { top: Address((r@ + size) as usize), ..last },
                    )
                    &&& final(self).old.total == old(self).old.total
                    &&& final(self).old.protected.committed == old(self).old.protected.committed
                    &&& final(self).young == old(self).young
                    &&& final(self).total == old(self).total
                    &&& final(self).large_space == old(self).large_space
                    &&& final(self).card_table == old(self).card_table
                    &&& final(self).crossing_map == old(self).crossing_map
                    &&& final(self).perm_space == old(self).perm_space
                    &&& final(self).config == old(self).config
                }
            }),
    {
        let ghost before = self.old.protected.regions@;
        let ghost layout = self.layout@;
        let ghost h = self@;
        let last = self.old.protected.regions.len() - 1;
        let region = self.old.protected.regions[last];
        let top = region.top;
        proof {
            assert(before[last as int].wf());
        }
        if size > region.end.0 - top.0 {
            return Address::null();
        }
        proof {
            self.lemma_old_below_top();
            self.lemma_old_top_is_free();
        }
        let obj = Obj::new(size, fields, array_ref);
        let ghost view = obj@;
        self.memory.insert(top, obj);
        self.old.protected.regions[last] = OldRegion::new(region.start, top.offset(size), region.end);
        self.layout = Ghost(
            Layout {
                old: layout.old.push(top),
                first: layout.first.update(last + 1, layout.first[last + 1] + 1),
                ..layout
            },
        );
        proof {
            let g = self@;
            let after = self.old.protected.regions@;
            let now = self.layout@;
            let n = before.len() as int;
            let mem = self.memory@;
            assert(g.young_objects == h.young_objects);
            lemma_add_old_object(h, g, top, view);
            assert forall|r: int| 0 <= r < after.len() implies (#[trigger] after[r]).wf()
                && self.old.total.start@ <= after[r].start@ && after[r].end@
                <= self.old.total.end@ by {
                assert(before[r].wf());
            }
            assert forall|r: int, s: int| 0 <= r < s < after.len() implies (#[trigger] after[r]).end@
                <= (#[trigger] after[s]).start@ by {
                assert(before[r].end@ <= before[s].start@);
            }
            assert(now.first_ok(n)) by {
                assert forall|r: int, s: int| 0 <= r <= s <= n implies #[trigger] now.first[r]
                    <= #[trigger] now.first[s] by {
                    assert(layout.first[r] <= layout.first[s]);
                }
            }
            assert forall|r: int| 0 <= r < after.len() implies tiled(
                mem,
                (#[trigger] after[r]).start,
                after[r].top,
                now.region(r),
            ) by {
                assert(tiled(h.mem, before[r].start, before[r].top, layout.region(r)));
                assert(layout.first[0] <= layout.first[r]);
                assert(layout.first[r] <= layout.first[r + 1]);
                assert(layout.first[r + 1] <= layout.first[n]);
                if r < n - 1 {
                    assert(now.region(r) =~= layout.region(r));
                    lemma_tiled_insert(h.mem, top, view, before[r].start, before[r].top, layout.region(r));
                } else {
                    assert(now.region(r) =~= layout.region(r).push(top));
                    lemma_tiled_push(h.mem, view, before[r].start, top, layout.region(r));
                }
            }
            lemma_tiled_insert(h.mem, top, view, self.young.eden.start, self.young.eden.top, now.eden);
            lemma_tiled_insert(h.mem, top, view, self.young.from.start, self.young.from.top, now.from);
            lemma_tiled_insert(h.mem, top, view, self.young.to.start, self.young.to.top, now.to);
            assert(self.large_ok()) by {
                reveal(HeapView::wf);
                let live = self.large_space@.live;
                assert forall|i: int| 0 <= i < live.len() implies (#[trigger] live[i]).start@
                    + LARGE_ALLOC_SIZE + mem[Address(
                    (live[i].start@ + LARGE_ALLOC_SIZE) as usize,
                )].size <= live[i].end@ by {
                    assert(h.large_objects[i] == Address(
                        (live[i].start@ + LARGE_ALLOC_SIZE) as usize,
                    ));
                    assert(h.object_ok(h.large_objects[i]));
                }
            }
        }
        top
    }

    /// No object starts at the top of the last region of the old generation
    /// where that has room.
    pub proof fn lemma_old_top_is_free(&self)
        requires
            self.wf(),
            self.old.protected.regions@.len() > 0,
            self.old.protected.regions@.last().top@ < self.old.protected.regions@.last().end@,
        ensures
            !self.memory@.contains_key(self.old.protected.regions@.last().top),
    {
        let h = self@;
        let regions = self.old.protected.regions@;
        let top = regions.last().top;
        self.lemma_old_below_top();
        assert(regions[regions.len() - 1].wf());
        if h.mem.contains_key(top) {
            reveal(HeapView::wf);
            if h.old_objects.contains(top) {
                let j = choose|j: int| 0 <= j < h.old_objects.len() && h.old_objects[j] == top;
                assert(h.object_ok(h.old_objects[j]));
            }
            if h.large_objects.contains(top) {
                let j = choose|j: int| 0 <= j < h.large_objects.len() && h.large_objects[j] == top;
                assert(h.object_ok(h.large_objects[j]));
            }
            if h.young_objects.contains(top) {
                let j = choose|j: int| 0 <= j < h.young_objects.len() && h.young_objects[j] == top;
                assert(h.object_ok(h.young_objects[j]));
            }
        }
    }
}

} // verus!
