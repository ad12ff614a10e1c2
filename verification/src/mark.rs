//! Marking: every object that can be reached from the roots gets its mark
//! bit set, by way of an explicit stack of objects whose fields are still to
//! be looked at.

use crate::address::{Address, Region};
use crate::heap::{Heap, HeapView, tiled, walk_region};
use crate::object::{Memory, ObjView};
use vstd::prelude::*;

verus! {

/// Whether the first `upto` reference fields of the object at `addr` hold no
/// reference to an object of the heap that is not marked.
pub open spec fn closed_upto(
    heap: Region,
    mem: Map<Address, ObjView>,
    addr: Address,
    upto: int,
) -> bool {
    forall|k: int|
        0 <= k < upto && k < mem[addr].fields.len() && heap.spec_contains(
            #[trigger] mem[addr].fields[k],
        ) ==> mem[mem[addr].fields[k]].marked
}

/// What holds in the middle of marking the heap `start` from `roots`, with
/// the memory `mem` and the objects `stack` still to be looked at:
/// - `mem` holds the objects of `start`, changed in their marks only;
/// - every marked object can be reached from the roots;
/// - the roots before `seen` that point into the heap are marked;
/// - the objects on the stack are marked;
/// - every marked object is on the stack, or none of its fields holds a
///   reference to an unmarked object of the heap; of the object `cur`, whose
///   fields are being looked at, this holds of the first `done` fields.
#[verifier::opaque]
pub open spec fn marking(
    start: HeapView,
    roots: Seq<Address>,
    seen: int,
    mem: Map<Address, ObjView>,
    stack: Seq<Address>,
    cur: Option<Address>,
    done: int,
) -> bool {
    &&& forall|a: Address| #[trigger] mem.contains_key(a) <==> start.mem.contains_key(a)
    &&& forall|a: Address| #[trigger]
        mem.contains_key(a) ==> mem[a] == (ObjView { marked: mem[a].marked, ..start.mem[a] })
    &&& forall|a: Address| #[trigger]
        mem.contains_key(a) && mem[a].marked ==> start.reachable(roots, a)
    &&& forall|r: int|
        0 <= r < seen && r < roots.len() && start.heap.spec_contains(#[trigger] roots[r])
            ==> mem[roots[r]].marked
    &&& forall|s: int|
        0 <= s < stack.len() ==> mem.contains_key(#[trigger] stack[s]) && mem[stack[s]].marked
    &&& forall|a: Address| #[trigger]
        mem.contains_key(a) && mem[a].marked ==> stack.contains(a) || closed_upto(
            start.heap,
            mem,
            a,
            if cur == Some(a) {
                done
            } else {
                mem[a].fields.len() as int
            },
        )
}

/// A root that points into the heap can be reached.
pub proof fn lemma_root_reachable(h: HeapView, roots: Seq<Address>, i: int)
    requires
        0 <= i < roots.len(),
        h.heap.spec_contains(roots[i]),
    ensures
        h.reachable(roots, roots[i]),
{
    let path = seq![roots[i]];
    assert(roots.contains(path[0]));
    assert(h.is_path(roots, path));
    assert(path.last() == roots[i]);
}

/// What an object that can be reached refers to in the heap can be reached.
pub proof fn lemma_field_reachable(h: HeapView, roots: Seq<Address>, addr: Address, k: int)
    requires
        h.reachable(roots, addr),
        h.mem.contains_key(addr),
        0 <= k < h.mem[addr].fields.len(),
        h.heap.spec_contains(h.mem[addr].fields[k]),
    ensures
        h.reachable(roots, h.mem[addr].fields[k]),
{
    let to = h.mem[addr].fields[k];
    let path = choose|path: Seq<Address>| #[trigger] h.is_path(roots, path) && path.last() == addr;
    let longer = path.push(to);
    assert(longer[0] == path[0]);
    assert forall|i: int| 0 <= i < longer.len() - 1 implies h.edge(#[trigger] longer[i], longer[i + 1]) by {
        if i < path.len() - 1 {
            assert(h.edge(path[i], path[i + 1]));
        } else {
            assert(longer[i] == addr);
            assert(h.mem[addr].fields.contains(to));
        }
    }
    assert(h.is_path(roots, longer));
    assert(longer.last() == to);
}

/// Marking starts with the memory as it is, where no object is marked.
pub proof fn lemma_marking_start(h: HeapView, roots: Seq<Address>)
    requires
        h.unmarked(),
    ensures
        marking(h, roots, 0, h.mem, Seq::empty(), None, 0),
{
    reveal(marking);
}

/// Marking goes on to the next root where the root does not point into the
/// heap or points to a marked object.
pub proof fn lemma_marking_root(
    h: HeapView,
    roots: Seq<Address>,
    seen: int,
    mem: Map<Address, ObjView>,
    stack: Seq<Address>,
)
    requires
        marking(h, roots, seen, mem, stack, None, 0),
        0 <= seen < roots.len(),
        h.heap.spec_contains(roots[seen]) ==> mem[roots[seen]].marked,
    ensures
        marking(h, roots, seen + 1, mem, stack, None, 0),
{
    reveal(marking);
}

/// Marking goes on where an unmarked object that can be reached is marked
/// and pushed.
pub proof fn lemma_marking_push(
    h: HeapView,
    roots: Seq<Address>,
    seen: int,
    mem: Map<Address, ObjView>,
    stack: Seq<Address>,
    cur: Option<Address>,
    done: int,
    addr: Address,
)
    requires
        marking(h, roots, seen, mem, stack, cur, done),
        mem.contains_key(addr),
        !mem[addr].marked,
        h.reachable(roots, addr),
    ensures
        marking(
            h,
            roots,
            seen,
            mem.insert(addr, ObjView { marked: true, ..mem[addr] }),
            stack.push(addr),
            cur,
            done,
        ),
{
    reveal(marking);
    let after = mem.insert(addr, ObjView { marked: true, ..mem[addr] });
    let more = stack.push(addr);
    assert forall|s: int| 0 <= s < more.len() implies after.contains_key(#[trigger] more[s])
        && after[more[s]].marked by {
        if s < stack.len() {
            assert(mem.contains_key(stack[s]));
        }
    }
    assert forall|a: Address| #[trigger] after.contains_key(a) && after[a].marked implies more.contains(
        a,
    ) || closed_upto(
        h.heap,
        after,
        a,
        if cur == Some(a) {
            done
        } else {
            after[a].fields.len() as int
        },
    ) by {
        if a == addr {
            assert(more[stack.len() as int] == a);
        } else {
            assert(mem.contains_key(a));
            if stack.contains(a) {
                let s = choose|s: int| 0 <= s < stack.len() && stack[s] == a;
                assert(more[s] == a);
            } else {
                let upto = if cur == Some(a) {
                    done
                } else {
                    mem[a].fields.len() as int
                };
                assert(closed_upto(h.heap, mem, a, upto));
                assert forall|k: int|
                    0 <= k < upto && k < after[a].fields.len() && h.heap.spec_contains(
                        #[trigger] after[a].fields[k],
                    ) implies after[after[a].fields[k]].marked by {
                    assert(mem[mem[a].fields[k]].marked);
                }
            }
        }
    }
    assert forall|r: int|
        0 <= r < seen && r < roots.len() && h.heap.spec_contains(#[trigger] roots[r]) implies after[roots[r]].marked by {
        assert(mem[roots[r]].marked);
    }
}

/// Marking goes on where the last object of the stack is taken off to have
/// its fields looked at.
pub proof fn lemma_marking_pop(
    h: HeapView,
    roots: Seq<Address>,
    seen: int,
    mem: Map<Address, ObjView>,
    stack: Seq<Address>,
)
    requires
        marking(h, roots, seen, mem, stack, None, 0),
        stack.len() > 0,
    ensures
        marking(h, roots, seen, mem, stack.drop_last(), Some(stack.last()), 0),
        mem.contains_key(stack.last()),
        h.reachable(roots, stack.last()),
{
    reveal(marking);
    let rest = stack.drop_last();
    let top = stack.last();
    assert(mem.contains_key(stack[stack.len() - 1]));
    assert forall|s: int| 0 <= s < rest.len() implies mem.contains_key(#[trigger] rest[s])
        && mem[rest[s]].marked by {
        assert(rest[s] == stack[s]);
    }
    assert forall|a: Address| #[trigger] mem.contains_key(a) && mem[a].marked implies rest.contains(a)
        || closed_upto(
        h.heap,
        mem,
        a,
        if Some(top) == Some(a) {
            0
        } else {
            mem[a].fields.len() as int
        },
    ) by {
        if a != top {
            if stack.contains(a) {
                let s = choose|s: int| 0 <= s < stack.len() && stack[s] == a;
                assert(rest[s] == a);
            }
        }
    }
}

/// Marking goes on to the next field of the object that is looked at where
/// the field does not point into the heap or points to a marked object.
pub proof fn lemma_marking_field(
    h: HeapView,
    roots: Seq<Address>,
    seen: int,
    mem: Map<Address, ObjView>,
    stack: Seq<Address>,
    cur: Address,
    done: int,
)
    requires
        marking(h, roots, seen, mem, stack, Some(cur), done),
        mem.contains_key(cur),
        0 <= done < mem[cur].fields.len(),
        h.heap.spec_contains(mem[cur].fields[done]) ==> mem[mem[cur].fields[done]].marked,
    ensures
        marking(h, roots, seen, mem, stack, Some(cur), done + 1),
{
    reveal(marking);
    assert forall|a: Address| #[trigger] mem.contains_key(a) && mem[a].marked implies stack.contains(
        a,
    ) || closed_upto(
        h.heap,
        mem,
        a,
        if Some(cur) == Some(a) {
            done + 1
        } else {
            mem[a].fields.len() as int
        },
    ) by {
        if a == cur && !stack.contains(a) {
            assert(closed_upto(h.heap, mem, a, done));
        }
    }
}

/// Marking goes on to the next object of the stack where all fields of the
/// object that was looked at were seen.
pub proof fn lemma_marking_finish(
    h: HeapView,
    roots: Seq<Address>,
    seen: int,
    mem: Map<Address, ObjView>,
    stack: Seq<Address>,
    cur: Address,
)
    requires
        mem.contains_key(cur),
        marking(h, roots, seen, mem, stack, Some(cur), mem[cur].fields.len() as int),
    ensures
        marking(h, roots, seen, mem, stack, None, 0),
{
    reveal(marking);
}

/// What marking says of the memory: it holds the objects of the heap that
/// marking started from, changed in their marks only, and its marked objects
/// can be reached.
pub proof fn lemma_marking_memory(
    h: HeapView,
    roots: Seq<Address>,
    seen: int,
    mem: Map<Address, ObjView>,
    stack: Seq<Address>,
    cur: Option<Address>,
    done: int,
)
    requires
        marking(h, roots, seen, mem, stack, cur, done),
    ensures
        forall|a: Address| #[trigger] mem.contains_key(a) <==> h.mem.contains_key(a),
        forall|a: Address| #[trigger]
            mem.contains_key(a) ==> mem[a] == (ObjView { marked: mem[a].marked, ..h.mem[a] }),
        forall|a: Address| #[trigger] mem.contains_key(a) && mem[a].marked ==> h.reachable(roots, a),
{
    reveal(marking);
}

/// What marking says of an object: it is in the memory where it was in the
/// heap that marking started from, with the fields it had there.
pub proof fn lemma_marking_object(
    h: HeapView,
    roots: Seq<Address>,
    seen: int,
    mem: Map<Address, ObjView>,
    stack: Seq<Address>,
    cur: Option<Address>,
    done: int,
    addr: Address,
)
    requires
        marking(h, roots, seen, mem, stack, cur, done),
        mem.contains_key(addr) || h.mem.contains_key(addr),
    ensures
        mem.contains_key(addr),
        h.mem.contains_key(addr),
        mem[addr].fields == h.mem[addr].fields,
{
    reveal(marking);
    assert(mem.contains_key(addr) <==> h.mem.contains_key(addr));
}

/// Where marking has come to its end, every object of the heap on a path
/// from a root is marked.
proof fn lemma_path_marked(
    h: HeapView,
    roots: Seq<Address>,
    mem: Map<Address, ObjView>,
    path: Seq<Address>,
    i: int,
)
    requires
        h.wf(),
        h.valid_refs(roots),
        marking(h, roots, roots.len() as int, mem, Seq::empty(), None, 0),
        h.is_path(roots, path),
        0 <= i < path.len(),
        h.heap.spec_contains(path[i]),
    ensures
        mem.contains_key(path[i]),
        mem[path[i]].marked,
    decreases i,
{
    reveal(marking);
    if i == 0 {
        let r = choose|r: int| 0 <= r < roots.len() && roots[r] == path[0];
        assert(h.valid_ref(roots[r]));
    } else {
        let from = path[i - 1];
        assert(h.edge(path[i - 1], path[i]));
        assert(h.heap.spec_contains(from)) by {
            reveal(HeapView::wf);
            if h.old_objects.contains(from) {
                let j = choose|j: int| 0 <= j < h.old_objects.len() && h.old_objects[j] == from;
                assert(h.object_ok(h.old_objects[j]));
            }
            if h.young_objects.contains(from) {
                let j = choose|j: int| 0 <= j < h.young_objects.len() && h.young_objects[j] == from;
                assert(h.object_ok(h.young_objects[j]));
            }
            if h.large_objects.contains(from) {
                let j = choose|j: int| 0 <= j < h.large_objects.len() && h.large_objects[j] == from;
                assert(h.object_ok(h.large_objects[j]));
            }
        }
        lemma_path_marked(h, roots, mem, path, i - 1);
        let k = choose|k: int| 0 <= k < h.mem[from].fields.len() && h.mem[from].fields[k] == path[i];
        assert(!Seq::<Address>::empty().contains(from));
        assert(closed_upto(h.heap, mem, from, mem[from].fields.len() as int));
        assert(mem[from].fields[k] == path[i]);
        assert(h.valid_ref(path[i])) by {
            reveal(HeapView::wf);
            assert(h.valid_refs(h.mem[from].fields));
            assert(h.valid_ref(h.mem[from].fields[k]));
        }
    }
}

/// Where marking has come to its end, exactly the objects that can be
/// reached from the roots are marked.
pub proof fn lemma_marking_end(h: HeapView, roots: Seq<Address>, mem: Map<Address, ObjView>)
    requires
        h.wf(),
        h.valid_refs(roots),
        marking(h, roots, roots.len() as int, mem, Seq::empty(), None, 0),
    ensures
        mem == h.marked(roots).mem,
{
    lemma_marking_memory(h, roots, roots.len() as int, mem, Seq::empty(), None, 0);
    let goal = h.marked(roots).mem;
    assert forall|a: Address| mem.contains_key(a) implies #[trigger] mem[a] == goal[a] by {
        if h.reachable(roots, a) {
            let path = choose|path: Seq<Address>| #[trigger]
                h.is_path(roots, path) && path.last() == a;
            lemma_path_marked(h, roots, mem, path, path.len() - 1);
        }
    }
    assert(mem =~= goal);
}

/// A memory that holds the objects of a well-formed heap, changed in their
/// marks only, makes a well-formed heap with the other parts of that heap.
pub proof fn lemma_marks_keep_wf(before: Heap, after: Heap)
    requires
        before.wf(),
        after.same_but_memory(before),
        forall|a: Address| #[trigger] after.memory@.contains_key(a) <==> before.memory@.contains_key(a),
        forall|a: Address| #[trigger]
            after.memory@.contains_key(a) ==> after.memory@[a] == (ObjView {
                marked: after.memory@[a].marked,
                ..before.memory@[a]
            }),
    ensures
        after.wf(),
        forall|v: Address| after@.valid_ref(v) == before@.valid_ref(v),
{
    assert forall|a: Address| #[trigger] after.memory@.contains_key(a) implies after@.valid_refs(
        after.memory@[a].fields,
    ) by {
        reveal(HeapView::wf);
        assert(before.memory@.contains_key(a));
        assert(before@.valid_refs(before@.mem[a].fields));
        assert forall|k: int| 0 <= k < after.memory@[a].fields.len() implies after@.valid_ref(
            #[trigger] after.memory@[a].fields[k],
        ) by {
            assert(before@.valid_ref(before@.mem[a].fields[k]));
        }
    }
    assert forall|a: Address| #[trigger] before.memory@.contains_key(a) implies after.memory@[a].size
        == before.memory@[a].size by {
        assert(after.memory@.contains_key(a));
    }
    Heap::lemma_same_shape(before, after);
}

/// Marks `addr`, an object of the heap that may stand in a root or a
/// field, and pushes it on the stack, unless it is marked already.
fn mark_and_push(
    heap: &mut Heap,
    marking_stack: &mut Vec<Address>,
    addr: Address,
    Ghost(start): Ghost<HeapView>,
    Ghost(roots): Ghost<Seq<Address>>,
    Ghost(seen): Ghost<int>,
    Ghost(cur): Ghost<Option<Address>>,
    Ghost(done): Ghost<int>,
)
    requires
        marking(start, roots, seen, old(heap).memory@, old(marking_stack)@, cur, done),
        start.heap.spec_contains(addr),
        start.valid_ref(addr),
        start.reachable(roots, addr),
    ensures
        marking(start, roots, seen, final(heap).memory@, final(marking_stack)@, cur, done),
        final(heap).same_but_memory(*old(heap)),
        final(heap).memory@.contains_key(addr),
        final(heap).memory@[addr].marked,
        final(heap).memory@[addr].fields == old(heap).memory@[addr].fields,
        final(heap).memory.unmarked_count() < old(heap).memory.unmarked_count() || (final(heap).memory.unmarked_count() == old(heap).memory.unmarked_count()
            && final(marking_stack)@.len() == old(marking_stack)@.len()),
{
    proof {
        lemma_marking_memory(start, roots, seen, heap.memory@, marking_stack@, cur, done);
    }
    if !heap.memory.is_marked(addr) {
        proof {
            lemma_marking_push(start, roots, seen, heap.memory@, marking_stack@, cur, done, addr);
        }
        marking_stack.push(addr);
        heap.memory.mark(addr);
    }
}

/// Sets the mark bit of every object that can be reached from `rootset`,
/// and of no other.
pub fn mark_live(heap: &mut Heap, rootset: &Vec<Address>)
    requires
        old(heap).wf(),
        old(heap)@.unmarked(),
        old(heap)@.valid_refs(rootset@),
    ensures
        final(heap)@ == old(heap)@.marked(rootset@),
        final(heap).same_but_memory(*old(heap)),
        final(heap).wf(),
{
    let ghost start = heap@;
    let ghost roots = rootset@;
    let mut marking_stack: Vec<Address> = Vec::new();
    let mut i: usize = 0;
    proof {
        lemma_marking_start(start, roots);
    }
    while i < rootset.len()
        invariant
            i <= rootset.len(),
            roots == rootset@,
            start.valid_refs(roots),
            start.heap == heap.total,
            heap.same_but_memory(*old(heap)),
            marking(start, roots, i as int, heap.memory@, marking_stack@, None, 0),
        decreases rootset.len() - i,
    {
        let root_ptr = rootset[i];
        if heap.total.contains(root_ptr) {
            proof {
                lemma_root_reachable(start, roots, i as int);
                assert(start.valid_ref(roots[i as int]));
            }
            mark_and_push(
                heap,
                &mut marking_stack,
                root_ptr,
                Ghost(start),
                Ghost(roots),
                Ghost(i as int),
                Ghost(None),
                Ghost(0),
            );
        }
        proof {
            lemma_marking_root(start, roots, i as int, heap.memory@, marking_stack@);
        }
        i += 1;
    }
    while marking_stack.len() > 0
        invariant
            roots == rootset@,
            start.wf(),
            start == old(heap)@,
            start.heap == heap.total,
            heap.same_but_memory(*old(heap)),
            marking(start, roots, roots.len() as int, heap.memory@, marking_stack@, None, 0),
        decreases heap.memory.unmarked_count(), marking_stack.len(),
    {
        let ghost count = heap.memory.unmarked_count();
        let ghost height = marking_stack@.len();
        proof {
            lemma_marking_pop(start, roots, roots.len() as int, heap.memory@, marking_stack@);
        }
        let object_addr = marking_stack.pop().unwrap();
        let fields = heap.memory.field_count(object_addr);
        let ghost values = start.mem[object_addr].fields;
        let mut k: usize = 0;
        proof {
            lemma_marking_object(
                start,
                roots,
                roots.len() as int,
                heap.memory@,
                marking_stack@,
                Some(object_addr),
                0,
                object_addr,
            );
        }
        while k < fields
            invariant
                k <= fields,
                roots == rootset@,
                start.wf(),
                start == old(heap)@,
                start.heap == heap.total,
                heap.same_but_memory(*old(heap)),
                heap.memory@.contains_key(object_addr),
                start.mem.contains_key(object_addr),
                start.reachable(roots, object_addr),
                values == start.mem[object_addr].fields,
                fields == values.len(),
                marking(
                    start,
                    roots,
                    roots.len() as int,
                    heap.memory@,
                    marking_stack@,
                    Some(object_addr),
                    k as int,
                ),
                heap.memory.unmarked_count() < count || (heap.memory.unmarked_count() == count
                    && marking_stack@.len() < height),
            decreases fields - k,
        {
            proof {
                lemma_marking_object(
                    start,
                    roots,
                    roots.len() as int,
                    heap.memory@,
                    marking_stack@,
                    Some(object_addr),
                    k as int,
                    object_addr,
                );
            }
            let field_addr = heap.memory.field(object_addr, k);
            if heap.total.contains(field_addr) {
                proof {
                    lemma_field_reachable(start, roots, object_addr, k as int);
                    assert(start.valid_ref(field_addr)) by {
                        reveal(HeapView::wf);
                        assert(start.valid_refs(start.mem[object_addr].fields));
                        assert(start.valid_ref(start.mem[object_addr].fields[k as int]));
                    }
                }
                mark_and_push(
                    heap,
                    &mut marking_stack,
                    field_addr,
                    Ghost(start),
                    Ghost(roots),
                    Ghost(roots.len() as int),
                    Ghost(Some(object_addr)),
                    Ghost(k as int),
                );
            }
            proof {
                lemma_marking_object(
                    start,
                    roots,
                    roots.len() as int,
                    heap.memory@,
                    marking_stack@,
                    Some(object_addr),
                    k as int,
                    object_addr,
                );
                lemma_marking_field(
                    start,
                    roots,
                    roots.len() as int,
                    heap.memory@,
                    marking_stack@,
                    object_addr,
                    k as int,
                );
            }
            k += 1;
        }
        proof {
            lemma_marking_object(
                start,
                roots,
                roots.len() as int,
                heap.memory@,
                marking_stack@,
                Some(object_addr),
                k as int,
                object_addr,
            );
            lemma_marking_finish(
                start,
                roots,
                roots.len() as int,
                heap.memory@,
                marking_stack@,
                object_addr,
            );
        }
    }
    proof {
        assert(marking_stack@ =~= Seq::<Address>::empty());
        lemma_marking_end(start, roots, heap.memory@);
        lemma_marking_memory(start, roots, roots.len() as int, heap.memory@, marking_stack@, None, 0);
        lemma_marks_keep_wf(*old(heap), *heap);
        assert(heap@.young_objects == start.young_objects);
    }
}

/// Whether the object at `addr`, if it is marked, holds no reference to an
/// object of the heap that is not marked.
pub open spec fn object_closed(heap: Region, mem: Map<Address, ObjView>, addr: Address) -> bool {
    mem[addr].marked ==> closed_upto(heap, mem, addr, mem[addr].fields.len() as int)
}

/// Whether each reference of the object at `addr` that points into the heap
/// points to an object.
pub open spec fn refs_resolve(heap: Region, mem: Map<Address, ObjView>, addr: Address) -> bool {
    forall|k: int|
        0 <= k < mem[addr].fields.len() && heap.spec_contains(#[trigger] mem[addr].fields[k])
            ==> mem.contains_key(mem[addr].fields[k])
}

/// Whether each of `objs` is in the memory, with references that resolve,
/// and is closed if it is marked.
pub open spec fn all_closed(heap: Region, mem: Map<Address, ObjView>, objs: Seq<Address>) -> bool {
    forall|i: int| 0 <= i < objs.len() ==> object_closed(heap, mem, #[trigger] objs[i])
}

/// Checks the marks of the object at `obj_address`: whether, if it is
/// marked, every reference in it that points into `heap` points to a marked
/// object.
pub fn check_marking_object(memory: &Memory, obj_address: Address, heap: Region) -> (ok: bool)
    requires
        memory@.contains_key(obj_address),
        refs_resolve(heap, memory@, obj_address),
    ensures
        ok == object_closed(heap, memory@, obj_address),
{
    let mut ok = true;
    if memory.is_marked(obj_address) {
        let count = memory.field_count(obj_address);
        let mut k: usize = 0;
        while k < count
            invariant
                k <= count,
                memory@.contains_key(obj_address),
                refs_resolve(heap, memory@, obj_address),
                count == memory@[obj_address].fields.len(),
                ok == closed_upto(heap, memory@, obj_address, k as int),
            decreases count - k,
        {
            let object_addr = memory.field(obj_address, k);
            if heap.contains(object_addr) {
                if !memory.is_marked(object_addr) {
                    ok = false;
                }
            }
            k += 1;
        }
    }
    ok
}

/// Verifies the marks of the object at `obj_address`, which must be closed:
/// if it is marked, every reference in it that points into `heap` points to
/// a marked object. Nothing is changed.
pub fn verify_marking_object(memory: &Memory, obj_address: Address, heap: Region)
    requires
        memory@.contains_key(obj_address),
        refs_resolve(heap, memory@, obj_address),
        object_closed(heap, memory@, obj_address),
{
    let closed = check_marking_object(memory, obj_address, heap);
    assert(closed);
}

/// Checks the marks of the objects that fill `region`.
pub fn check_marking_region(memory: &Memory, region: Region, heap: Region) -> (ok: bool)
    requires
        exists|objs: Seq<Address>| tiled(memory@, region.start, region.end, objs),
        forall|a: Address| #[trigger] memory@.contains_key(a) ==> refs_resolve(heap, memory@, a),
    ensures
        forall|objs: Seq<Address>| #[trigger]
            tiled(memory@, region.start, region.end, objs) ==> ok == all_closed(heap, memory@, objs),
{
    let objects = walk_region(memory, region);
    let mut ok = true;
    let mut i: usize = 0;
    while i < objects.len()
        invariant
            i <= objects.len(),
            tiled(memory@, region.start, region.end, objects@),
            forall|a: Address| #[trigger] memory@.contains_key(a) ==> refs_resolve(heap, memory@, a),
            ok == all_closed(heap, memory@, objects@.take(i as int)),
        decreases objects.len() - i,
    {
        proof {
            reveal(tiled);
            assert(memory@.contains_key(objects@[i as int]));
        }
        let closed = check_marking_object(memory, objects[i], heap);
        proof {
            let seen = objects@.take(i as int);
            let more = objects@.take(i + 1);
            assert(more =~= seen.push(objects@[i as int]));
            if all_closed(heap, memory@, more) {
                assert forall|x: int| 0 <= x < seen.len() implies object_closed(
                    heap,
                    memory@,
                    #[trigger] seen[x],
                ) by {
                    assert(more[x] == seen[x]);
                }
                assert(more[i as int] == objects@[i as int]);
            }
            if all_closed(heap, memory@, seen) && closed {
                assert forall|x: int| 0 <= x < more.len() implies object_closed(
                    heap,
                    memory@,
                    #[trigger] more[x],
                ) by {
                    if x < i {
                        assert(seen[x] == more[x]);
                    }
                }
            }
        }
        if !closed {
            ok = false;
        }
        i += 1;
    }
    proof {
        assert(objects@.take(i as int) =~= objects@);
        assert forall|objs: Seq<Address>| #[trigger]
            tiled(memory@, region.start, region.end, objs) implies ok == all_closed(
            heap,
            memory@,
            objs,
        ) by {
            crate::heap::lemma_tiled_unique(memory@, region.start, region.end, objs, objects@);
        }
    }
    ok
}

/// Verifies the marks of the objects that fill `region`, each of which
/// must be closed. Nothing is changed.
pub fn verify_marking_region(memory: &Memory, region: Region, heap: Region)
    requires
        exists|objs: Seq<Address>| tiled(memory@, region.start, region.end, objs),
        forall|a: Address| #[trigger] memory@.contains_key(a) ==> refs_resolve(heap, memory@, a),
        forall|objs: Seq<Address>| #[trigger]
            tiled(memory@, region.start, region.end, objs) ==> all_closed(heap, memory@, objs),
{
    let closed = check_marking_region(memory, region, heap);
    assert(closed);
}

/// Checks the marks of the whole heap: whether no marked object holds a
/// reference to an object of the heap that is not marked.
pub fn check_marking(heap: &Heap) -> (ok: bool)
    requires
        heap.wf(),
    ensures
        ok == heap@.marks_closed(),
{
    let ghost h = heap@;
    let ghost mem = heap.memory@;
    let ghost layout = heap.layout@;
    proof {
        assert forall|a: Address| #[trigger] mem.contains_key(a) implies refs_resolve(
            heap.total,
            mem,
            a,
        ) by {
            reveal(HeapView::wf);
            assert(h.valid_refs(h.mem[a].fields));
            assert forall|k: int|
                0 <= k < mem[a].fields.len() && heap.total.spec_contains(
                    #[trigger] mem[a].fields[k],
                ) implies mem.contains_key(mem[a].fields[k]) by {
                assert(h.valid_ref(h.mem[a].fields[k]));
            }
        }
        assert(layout.old.subrange(0, layout.first[0]) =~= Seq::<Address>::empty());
    }
    let mut ok = true;
    let count = heap.old.protected.regions.len();
    let mut r: usize = 0;
    while r < count
        invariant
            r <= count,
            count == heap.old.protected.regions@.len(),
            heap.tiling_ok(),
            mem == heap.memory@,
            layout == heap.layout@,
            forall|a: Address| #[trigger] mem.contains_key(a) ==> refs_resolve(heap.total, mem, a),
            ok == all_closed(heap.total, mem, layout.old.subrange(0, layout.first[r as int])),
        decreases count - r,
    {
        let active = heap.old.protected.regions[r].active_region();
        proof {
            assert(tiled(
                mem,
                heap.old.protected.regions@[r as int].start,
                heap.old.protected.regions@[r as int].top,
                layout.region(r as int),
            ));
            assert(tiled(mem, active.start, active.end, layout.region(r as int)));
        }
        let closed = check_marking_region(&heap.memory, active, heap.total);
        proof {
            assert(layout.first[0] <= layout.first[r as int]);
            assert(layout.first[r as int] <= layout.first[r + 1]);
            assert(layout.first[r + 1] <= layout.first[count as int]);
            let seen = layout.old.subrange(0, layout.first[r as int]);
            let here = layout.region(r as int);
            let more = layout.old.subrange(0, layout.first[r + 1]);
            assert(more =~= seen + here);
            lemma_all_closed_concat(heap.total, mem, seen, here);
        }
        if !closed {
            ok = false;
        }
        r += 1;
    }
    let eden_active = heap.young.eden_active();
    assert(tiled(mem, eden_active.start, eden_active.end, layout.eden));
    let eden = check_marking_region(&heap.memory, eden_active, heap.total);
    let from_active = heap.young.from_active();
    assert(tiled(mem, from_active.start, from_active.end, layout.from));
    let from = check_marking_region(&heap.memory, from_active, heap.total);
    let to_active = heap.young.to_active();
    assert(tiled(mem, to_active.start, to_active.end, layout.to));
    let to = check_marking_region(&heap.memory, to_active, heap.total);
    ok = ok && eden && from && to;
    let large = heap.large_space.visit_objects();
    proof {
        assert(layout.old.subrange(0, layout.first[count as int]) =~= layout.old);
        lemma_all_closed_concat(heap.total, mem, layout.old, layout.eden);
        lemma_all_closed_concat(heap.total, mem, layout.old + layout.eden, layout.from);
        lemma_all_closed_concat(heap.total, mem, layout.old + layout.eden + layout.from, layout.to);
        assert(layout.old + layout.eden + layout.from + layout.to =~= h.order());
        assert(large@.take(0) =~= Seq::<Address>::empty());
        lemma_all_closed_concat(heap.total, mem, h.order(), large@.take(0));
        assert(h.order() + large@.take(0) =~= h.order());
    }
    let mut j: usize = 0;
    while j < large.len()
        invariant
            j <= large.len(),
            large@ == h.large_objects,
            h == heap@,
            mem == heap.memory@,
            h.wf(),
            forall|a: Address| #[trigger] mem.contains_key(a) ==> refs_resolve(heap.total, mem, a),
            ok == all_closed(heap.total, mem, h.order() + large@.take(j as int)),
        decreases large.len() - j,
    {
        proof {
            crate::compact::lemma_order(h);
            assert(h.object_ok(h.large_objects[j as int]));
        }
        let closed = check_marking_object(&heap.memory, large[j], heap.total);
        proof {
            let seen = h.order() + large@.take(j as int);
            let more = h.order() + large@.take(j + 1);
            assert(more =~= seen + seq![large@[j as int]]);
            lemma_all_closed_concat(heap.total, mem, seen, seq![large@[j as int]]);
            assert(seq![large@[j as int]][0] == large@[j as int]);
        }
        if !closed {
            ok = false;
        }
        j += 1;
    }
    proof {
        assert(large@.take(j as int) =~= large@);
        crate::compact::lemma_objects(h);
        let all = h.objects();
        if ok {
            assert forall|addr: Address, k: int|
                h.mem.contains_key(addr) && h.mem[addr].marked && 0 <= k < h.mem[addr].fields.len()
                    && h.heap.spec_contains(#[trigger] h.mem[addr].fields[k]) implies h.mem[h.mem[addr].fields[k]].marked by {
                let x = choose|x: int| 0 <= x < all.len() && all[x] == addr;
                assert(object_closed(heap.total, mem, all[x]));
            }
        }
        if h.marks_closed() {
            assert forall|x: int| 0 <= x < all.len() implies object_closed(
                heap.total,
                mem,
                #[trigger] all[x],
            ) by {
                assert(h.object_ok(all[x]));
            }
        }
    }
    ok
}

/// Verifies the marks of the whole heap, which must be closed: no marked
/// object holds a reference to an object of the heap that is not marked.
/// Nothing is changed.
pub fn verify_marking(heap: &Heap)
    requires
        heap.wf(),
        heap@.marks_closed(),
{
    let closed = check_marking(heap);
    assert(closed);
}

/// The objects of two sequences joined are closed where those of both are.
pub proof fn lemma_all_closed_concat(
    heap: Region,
    mem: Map<Address, ObjView>,
    a: Seq<Address>,
    b: Seq<Address>,
)
    ensures
        all_closed(heap, mem, a + b) == (all_closed(heap, mem, a) && all_closed(heap, mem, b)),
{
    let c = a + b;
    if all_closed(heap, mem, c) {
        assert forall|i: int| 0 <= i < a.len() implies object_closed(heap, mem, #[trigger] a[i]) by {
            assert(c[i] == a[i]);
        }
        assert forall|i: int| 0 <= i < b.len() implies object_closed(heap, mem, #[trigger] b[i]) by {
            assert(c[a.len() + i] == b[i]);
        }
    }
    if all_closed(heap, mem, a) && all_closed(heap, mem, b) {
        assert forall|i: int| 0 <= i < c.len() implies object_closed(heap, mem, #[trigger] c[i]) by {
            if i < a.len() {
                assert(c[i] == a[i]);
            } else {
                assert(c[i] == b[i - a.len()]);
            }
        }
    }
}

} // verus!
