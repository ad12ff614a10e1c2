//! The simple collector: objects on one list, marked with the colour of the
//! current cycle from the literals and the rootset, and swept where they
//! did not get it.

use crate::address::Address;
use crate::ctxt::Context;
use crate::rootset::{rootset, try_get_rootset};
use std::collections::HashMap;
use vstd::prelude::*;

verus! {

/// The threshold of a new collector, in bytes.
pub const INITIAL_THRESHOLD: usize = 128;

/// What an object of the simple heap is to the collector.
pub ghost struct GcObjView {
    pub marked: bool,
    /// The next object of the list.
    pub succ: Address,
    pub size: usize,
    /// The values of the reference fields.
    pub fields: Seq<Address>,
}

/// An object of the simple heap.
pub struct GcObj {
    marked: bool,
    succ: Address,
    size: usize,
    fields: Vec<Address>,
}

impl View for GcObj {
    type V = GcObjView;

    closed spec fn view(&self) -> GcObjView {
        GcObjView { marked: self.marked, succ: self.succ, size: self.size, fields: self.fields@ }
    }
}

/// The objects of the simple heap, each under its address.
pub struct Store {
    objs: HashMap<usize, GcObj>,
}

impl View for Store {
    type V = Map<Address, GcObjView>;

    closed spec fn view(&self) -> Map<Address, GcObjView> {
        Map::new(|a: Address| self.objs@.contains_key(a.0), |a: Address| self.objs@[a.0]@)
    }
}

impl Store {
    /// How many objects have a mark other than `colour`.
    pub closed spec fn white_count(&self, colour: bool) -> nat {
        self.objs@.dom().filter(|k: usize| self.objs@[k]@.marked != colour).len()
    }

    /// A store without objects.
    pub fn new() -> (r: Store)
        ensures
            r@ == Map::<Address, GcObjView>::empty(),
    {
        let r = Store { objs: HashMap::new() };
        assert(r@ =~= Map::<Address, GcObjView>::empty());
        r
    }

    /// Whether an object lies at `addr`.
    pub fn contains(&self, addr: Address) -> (r: bool)
        ensures
            r == self@.contains_key(addr),
    {
        broadcast use vstd::std_specs::hash::group_hash_axioms;

        self.objs.contains_key(&addr.0)
    }

    /// The mark of the object at `addr`.
    pub fn marked(&self, addr: Address) -> (r: bool)
        requires
            self@.contains_key(addr),
        ensures
            r == self@[addr].marked,
    {
        broadcast use vstd::std_specs::hash::group_hash_axioms;

        self.objs.get(&addr.0).unwrap().marked
    }

    /// The object that follows the object at `addr` on the list.
    pub fn succ(&self, addr: Address) -> (r: Address)
        requires
            self@.contains_key(addr),
        ensures
            r == self@[addr].succ,
    {
        broadcast use vstd::std_specs::hash::group_hash_axioms;

        self.objs.get(&addr.0).unwrap().succ
    }

    /// The size of the object at `addr`.
    pub fn size(&self, addr: Address) -> (r: usize)
        requires
            self@.contains_key(addr),
        ensures
            r == self@[addr].size,
    {
        broadcast use vstd::std_specs::hash::group_hash_axioms;

        self.objs.get(&addr.0).unwrap().size
    }

    /// How many reference fields the object at `addr` has.
    pub fn field_count(&self, addr: Address) -> (r: usize)
        requires
            self@.contains_key(addr),
        ensures
            r == self@[addr].fields.len(),
    {
        broadcast use vstd::std_specs::hash::group_hash_axioms;

        self.objs.get(&addr.0).unwrap().fields.len()
    }

    /// The value of reference field `index` of the object at `addr`.
    pub fn field(&self, addr: Address, index: usize) -> (r: Address)
        requires
            self@.contains_key(addr),
            index < self@[addr].fields.len(),
        ensures
            r == self@[addr].fields[index as int],
    {
        broadcast use vstd::std_specs::hash::group_hash_axioms;

        self.objs.get(&addr.0).unwrap().fields[index]
    }

    /// Gives the object at `addr` the mark `value`.
    pub fn set_mark(&mut self, addr: Address, value: bool)
        requires
            old(self)@.contains_key(addr),
        ensures
            final(self)@ == old(self)@.insert(addr, GcObjView { marked: value, ..old(self)@[addr] }),
            old(self)@[addr].marked != value ==> final(self).white_count(value) < old(
                self,
            ).white_count(value),
    {
        broadcast use vstd::std_specs::hash::group_hash_axioms;

        let mut obj = self.objs.remove(&addr.0).unwrap();
        obj.marked = value;
        self.objs.insert(addr.0, obj);
        proof {
            assert(self@ =~= old(self)@.insert(
                addr,
                GcObjView { marked: value, ..old(self)@[addr] },
            ));
            if old(self)@[addr].marked != value {
                let before = old(self).objs@;
                let after = self.objs@;
                let was = before.dom().filter(|k: usize| before[k]@.marked != value);
                let is = after.dom().filter(|k: usize| after[k]@.marked != value);
                before.dom().lemma_len_filter(|k: usize| before[k]@.marked != value);
                assert(is =~= was.remove(addr.0));
            }
        }
    }

    /// Makes `succ` the object that follows the object at `addr`.
    pub fn set_succ(&mut self, addr: Address, succ: Address)
        requires
            old(self)@.contains_key(addr),
        ensures
            final(self)@ == old(self)@.insert(addr, GcObjView { succ, ..old(self)@[addr] }),
    {
        broadcast use vstd::std_specs::hash::group_hash_axioms;

        let mut obj = self.objs.remove(&addr.0).unwrap();
        obj.succ = succ;
        self.objs.insert(addr.0, obj);
        assert(self@ =~= old(self)@.insert(addr, GcObjView { succ, ..old(self)@[addr] }));
    }

    /// Writes `value` to reference field `index` of the object at `addr`.
    pub fn set_field(&mut self, addr: Address, index: usize, value: Address)
        requires
            old(self)@.contains_key(addr),
            index < old(self)@[addr].fields.len(),
        ensures
            final(self)@ == old(self)@.insert(
                addr,
                GcObjView {
                    fields: old(self)@[addr].fields.update(index as int, value),
                    ..old(self)@[addr]
                },
            ),
    {
        broadcast use vstd::std_specs::hash::group_hash_axioms;

        let mut obj = self.objs.remove(&addr.0).unwrap();
        obj.fields[index] = value;
        self.objs.insert(addr.0, obj);
        assert(self@ =~= old(self)@.insert(
            addr,
            GcObjView {
                fields: old(self)@[addr].fields.update(index as int, value),
                ..old(self)@[addr]
            },
        ));
    }

    /// Puts a zeroed object of `size` bytes with `fields` reference fields
    /// at `addr`, where no object lies yet.
    pub fn insert_zeroed(&mut self, addr: Address, size: usize, fields: usize)
        requires
            !old(self)@.contains_key(addr),
        ensures
            final(self)@ == old(self)@.insert(
                addr,
                GcObjView {
                    marked: false,
                    succ: Address(0),
                    size,
                    fields: Seq::new(fields as nat, |i: int| Address(0)),
                },
            ),
    {
        broadcast use vstd::std_specs::hash::group_hash_axioms;

        let mut values: Vec<Address> = Vec::new();
        let mut i: usize = 0;
        while i < fields
            invariant
                i <= fields,
                values@ == Seq::new(i as nat, |i: int| Address(0)),
            decreases fields - i,
        {
            values.push(Address::null());
            i += 1;
            assert(values@ =~= Seq::new(i as nat, |i: int| Address(0)));
        }
        self.objs.insert(
            addr.0,
            GcObj { marked: false, succ: Address::null(), size, fields: values },
        );
        assert(self@ =~= old(self)@.insert(
            addr,
            GcObjView {
                marked: false,
                succ: Address(0),
                size,
                fields: Seq::new(fields as nat, |i: int| Address(0)),
            },
        ));
    }

    /// Gives up the object at `addr`.
    pub fn remove(&mut self, addr: Address)
        requires
            old(self)@.contains_key(addr),
        ensures
            final(self)@ == old(self)@.remove(addr),
    {
        broadcast use vstd::std_specs::hash::group_hash_axioms;

        self.objs.remove(&addr.0);
        assert(self@ =~= old(self)@.remove(addr));
    }
}

/// Whether the object at `addr` does not have the mark `colour`.
pub open spec fn white(mem: Map<Address, GcObjView>, colour: bool, addr: Address) -> bool {
    mem.contains_key(addr) && mem[addr].marked != colour
}

/// Whether `path` leads from one of `roots` along references through
/// objects that do not have the mark `colour`.
pub open spec fn white_path(
    mem: Map<Address, GcObjView>,
    colour: bool,
    roots: Seq<Address>,
    path: Seq<Address>,
) -> bool {
    &&& path.len() > 0
    &&& roots.contains(path[0])
    &&& forall|i: int| 0 <= i < path.len() ==> white(mem, colour, #[trigger] path[i])
    &&& forall|i: int|
        0 <= i < path.len() - 1 ==> mem[#[trigger] path[i]].fields.contains(path[i + 1])
}

/// Whether marking from `roots` with `colour` comes to the object at
/// `addr`: whether a path leads to it from a root through objects that do
/// not have the mark yet.
pub open spec fn reaches(
    mem: Map<Address, GcObjView>,
    colour: bool,
    roots: Seq<Address>,
    addr: Address,
) -> bool {
    exists|path: Seq<Address>| #[trigger] white_path(mem, colour, roots, path) && path.last() == addr
}

/// The memory after marking from `roots` with `colour`: the objects that
/// marking comes to have the mark, and nothing else differs.
pub open spec fn traced(mem: Map<Address, GcObjView>, colour: bool, roots: Seq<Address>) -> Map<
    Address,
    GcObjView,
> {
    Map::new(
        |a: Address| mem.contains_key(a),
        |a: Address|
            if reaches(mem, colour, roots, a) {
                GcObjView { marked: colour, ..mem[a] }
            } else {
                mem[a]
            },
    )
}

/// Whether each of `refs` is null or the address of an object.
pub open spec fn refs_ok(mem: Map<Address, GcObjView>, refs: Seq<Address>) -> bool {
    forall|i: int| 0 <= i < refs.len() ==> (#[trigger] refs[i])@ == 0 || mem.contains_key(refs[i])
}

/// Whether no object lies at null, and every reference field of every
/// object is null or the address of an object.
pub open spec fn store_ok(mem: Map<Address, GcObjView>) -> bool {
    &&& !mem.contains_key(Address(0))
    &&& forall|a: Address| #[trigger] mem.contains_key(a) ==> refs_ok(mem, mem[a].fields)
}

/// Whether each of the first `upto` reference fields of the object at
/// `addr` is null, points to an object on the stack, or points to an object
/// that has the mark.
pub open spec fn fields_seen(
    mem: Map<Address, GcObjView>,
    colour: bool,
    stack: Seq<Address>,
    addr: Address,
    upto: int,
) -> bool {
    forall|k: int|
        0 <= k < upto && k < mem[addr].fields.len() ==> {
            let f = #[trigger] mem[addr].fields[k];
            f@ == 0 || stack.contains(f) || !white(mem, colour, f)
        }
}

/// What holds in the middle of marking the memory `start` from `roots`
/// with `colour`, with the memory `mem` and the objects `stack` still to be
/// looked at:
/// - `mem` holds the objects of `start`, changed in their marks only;
/// - every object whose mark changed is one that marking comes to;
/// - each of the first `seen` roots is null, on the stack, or has the mark;
/// - the objects on the stack are objects, and marking comes to those of
///   them that did not have the mark at the start;
/// - the fields of every object whose mark changed are null, on the stack,
///   or have the mark; of the object `cur`, whose fields are being pushed,
///   this holds of the first `done` fields.
#[verifier::opaque]
pub open spec fn tracing(
    start: Map<Address, GcObjView>,
    colour: bool,
    roots: Seq<Address>,
    seen: int,
    mem: Map<Address, GcObjView>,
    stack: Seq<Address>,
    cur: Option<Address>,
    done: int,
) -> bool {
    &&& forall|a: Address| #[trigger] mem.contains_key(a) <==> start.contains_key(a)
    &&& forall|a: Address| #[trigger]
        mem.contains_key(a) ==> mem[a] == (GcObjView { marked: mem[a].marked, ..start[a] })
    &&& forall|a: Address| #[trigger]
        mem.contains_key(a) && mem[a].marked != start[a].marked ==> reaches(start, colour, roots, a)
    &&& forall|r: int|
        0 <= r < seen && r < roots.len() ==> (#[trigger] roots[r])@ == 0 || stack.contains(roots[r])
            || !white(mem, colour, roots[r])
    &&& forall|s: int|
        0 <= s < stack.len() ==> start.contains_key(#[trigger] stack[s]) && (white(
            start,
            colour,
            stack[s],
        ) ==> reaches(start, colour, roots, stack[s]))
    &&& forall|a: Address| #[trigger]
        mem.contains_key(a) && mem[a].marked != start[a].marked ==> fields_seen(
            mem,
            colour,
            stack,
            a,
            if cur == Some(a) {
                done
            } else {
                mem[a].fields.len() as int
            },
        )
}

/// Marking starts with the memory as it is.
pub proof fn lemma_tracing_start(start: Map<Address, GcObjView>, colour: bool, roots: Seq<Address>)
    ensures
        tracing(start, colour, roots, 0, start, Seq::empty(), None, 0),
{
    reveal(tracing);
}

/// What marking says of the memory: it holds the objects of the memory
/// that marking started from, changed in their marks only.
pub proof fn lemma_tracing_memory(
    start: Map<Address, GcObjView>,
    colour: bool,
    roots: Seq<Address>,
    seen: int,
    mem: Map<Address, GcObjView>,
    stack: Seq<Address>,
    cur: Option<Address>,
    done: int,
)
    requires
        tracing(start, colour, roots, seen, mem, stack, cur, done),
    ensures
        forall|a: Address| #[trigger] mem.contains_key(a) <==> start.contains_key(a),
        forall|a: Address| #[trigger]
            mem.contains_key(a) ==> mem[a] == (GcObjView { marked: mem[a].marked, ..start[a] }),
        forall|s: int| 0 <= s < stack.len() ==> mem.contains_key(#[trigger] stack[s]),
{
    reveal(tracing);
}

/// Marking goes on to the next root: the root is pushed unless it is null.
pub proof fn lemma_tracing_root(
    start: Map<Address, GcObjView>,
    colour: bool,
    roots: Seq<Address>,
    seen: int,
    mem: Map<Address, GcObjView>,
)
    requires
        refs_ok(start, roots),
        tracing(start, colour, roots, seen, mem, Seq::empty(), None, 0),
        0 <= seen < roots.len(),
    ensures
        tracing(
            start,
            colour,
            roots,
            seen + 1,
            mem,
            if roots[seen]@ == 0 {
                Seq::empty()
            } else {
                seq![roots[seen]]
            },
            None,
            0,
        ),
{
    reveal(tracing);
    let root = roots[seen];
    let empty = Seq::<Address>::empty();
    if root@ != 0 {
        let stack = seq![root];
        assert(stack[0] == root);
        if white(start, colour, root) {
            let path = seq![root];
            assert(white_path(start, colour, roots, path));
            assert(path.last() == root);
        }
        assert forall|r: int| 0 <= r < seen + 1 && r < roots.len() implies (#[trigger] roots[r])@ == 0
            || stack.contains(roots[r]) || !white(mem, colour, roots[r]) by {
            if r < seen {
                assert(!empty.contains(roots[r]));
            }
        }
        assert forall|a: Address| #[trigger]
            mem.contains_key(a) && mem[a].marked != start[a].marked implies fields_seen(
            mem,
            colour,
            stack,
            a,
            mem[a].fields.len() as int,
        ) by {
            assert(fields_seen(mem, colour, empty, a, mem[a].fields.len() as int));
            assert forall|k: int| 0 <= k < mem[a].fields.len() implies {
                let f = #[trigger] mem[a].fields[k];
                f@ == 0 || stack.contains(f) || !white(mem, colour, f)
            } by {
                assert(!empty.contains(mem[a].fields[k]));
            }
        }
    }
}

/// Marking goes on where the last object of the stack is taken off: it gets
/// the mark if it did not have it, and its fields are then to be pushed.
pub proof fn lemma_tracing_pop(
    start: Map<Address, GcObjView>,
    colour: bool,
    roots: Seq<Address>,
    seen: int,
    mem: Map<Address, GcObjView>,
    stack: Seq<Address>,
)
    requires
        tracing(start, colour, roots, seen, mem, stack, None, 0),
        stack.len() > 0,
    ensures
        mem.contains_key(stack.last()),
        white(mem, colour, stack.last()) ==> start[stack.last()].marked != colour,
        !white(mem, colour, stack.last()) ==> tracing(
            start,
            colour,
            roots,
            seen,
            mem,
            stack.drop_last(),
            None,
            0,
        ),
        white(mem, colour, stack.last()) ==> tracing(
            start,
            colour,
            roots,
            seen,
            mem.insert(stack.last(), GcObjView { marked: colour, ..mem[stack.last()] }),
            stack.drop_last(),
            Some(stack.last()),
            0,
        ),
{
    reveal(tracing);
    let ptr = stack.last();
    let rest = stack.drop_last();
    assert(start.contains_key(stack[stack.len() - 1]));
    assert(mem.contains_key(ptr));
    let after = if white(mem, colour, ptr) {
        mem.insert(ptr, GcObjView { marked: colour, ..mem[ptr] })
    } else {
        mem
    };
    let cur = if white(mem, colour, ptr) {
        Some(ptr)
    } else {
        None
    };
    assert forall|x: Address| stack.contains(x) implies rest.contains(x) || x == ptr by {
        let s = choose|s: int| 0 <= s < stack.len() && stack[s] == x;
        if s < rest.len() {
            assert(rest[s] == x);
        }
    }
    assert forall|a: Address| #[trigger]
        after.contains_key(a) && after[a].marked != start[a].marked implies reaches(
        start,
        colour,
        roots,
        a,
    ) by {
        if a == ptr && white(mem, colour, ptr) {
            assert(mem.contains_key(a));
        } else {
            assert(mem.contains_key(a));
        }
    }
    assert forall|r: int| 0 <= r < seen && r < roots.len() implies (#[trigger] roots[r])@ == 0
        || rest.contains(roots[r]) || !white(after, colour, roots[r]) by {
        assert(stack.contains(roots[r]) ==> rest.contains(roots[r]) || roots[r] == ptr);
    }
    assert forall|s: int| 0 <= s < rest.len() implies start.contains_key(#[trigger] rest[s]) && (
    white(start, colour, rest[s]) ==> reaches(start, colour, roots, rest[s])) by {
        assert(rest[s] == stack[s]);
    }
    assert forall|a: Address| #[trigger]
        after.contains_key(a) && after[a].marked != start[a].marked implies fields_seen(
        after,
        colour,
        rest,
        a,
        if cur == Some(a) {
            0
        } else {
            after[a].fields.len() as int
        },
    ) by {
        assert(mem.contains_key(a));
        if cur != Some(a) {
            assert(mem[a].marked != start[a].marked);
            assert(fields_seen(mem, colour, stack, a, mem[a].fields.len() as int));
            assert forall|k: int| 0 <= k < after[a].fields.len() implies {
                let f = #[trigger] after[a].fields[k];
                f@ == 0 || rest.contains(f) || !white(after, colour, f)
            } by {
                let f = mem[a].fields[k];
                assert(stack.contains(f) ==> rest.contains(f) || f == ptr);
            }
        }
    }
}

/// A path to an object that marking comes to, with a field of the object
/// that does not have the mark either, is a path to that.
pub proof fn lemma_reaches_field(
    start: Map<Address, GcObjView>,
    colour: bool,
    roots: Seq<Address>,
    addr: Address,
    k: int,
)
    requires
        reaches(start, colour, roots, addr),
        0 <= k < start[addr].fields.len(),
        white(start, colour, start[addr].fields[k]),
    ensures
        reaches(start, colour, roots, start[addr].fields[k]),
{
    let to = start[addr].fields[k];
    let path = choose|path: Seq<Address>| #[trigger]
        white_path(start, colour, roots, path) && path.last() == addr;
    let longer = path.push(to);
    assert(longer[0] == path[0]);
    assert forall|i: int| 0 <= i < longer.len() implies white(start, colour, #[trigger] longer[i]) by {
        if i < path.len() {
            assert(white(start, colour, path[i]));
        }
    }
    assert forall|i: int| 0 <= i < longer.len() - 1 implies start[#[trigger] longer[i]].fields.contains(
        longer[i + 1],
    ) by {
        if i < path.len() - 1 {
            assert(start[path[i]].fields.contains(path[i + 1]));
        } else {
            assert(longer[i] == addr);
            assert(start[addr].fields[k] == to);
        }
    }
    assert(white_path(start, colour, roots, longer));
    assert(longer.last() == to);
}

/// Marking goes on to the next field of the object whose fields are
/// pushed: the field is pushed unless it is null.
pub proof fn lemma_tracing_field(
    start: Map<Address, GcObjView>,
    colour: bool,
    roots: Seq<Address>,
    seen: int,
    mem: Map<Address, GcObjView>,
    stack: Seq<Address>,
    cur: Address,
    done: int,
)
    requires
        store_ok(start),
        tracing(start, colour, roots, seen, mem, stack, Some(cur), done),
        mem.contains_key(cur),
        mem[cur].marked != start[cur].marked,
        0 <= done < mem[cur].fields.len(),
    ensures
        tracing(
            start,
            colour,
            roots,
            seen,
            mem,
            if mem[cur].fields[done]@ == 0 {
                stack
            } else {
                stack.push(mem[cur].fields[done])
            },
            Some(cur),
            done + 1,
        ),
{
    reveal(tracing);
    let f = mem[cur].fields[done];
    let more = if f@ == 0 {
        stack
    } else {
        stack.push(f)
    };
    assert(start.contains_key(cur));
    assert(refs_ok(start, start[cur].fields));
    assert(start[cur].fields[done] == f);
    assert forall|x: Address| stack.contains(x) implies more.contains(x) by {
        let s = choose|s: int| 0 <= s < stack.len() && stack[s] == x;
        assert(more[s] == x);
    }
    if f@ != 0 {
        assert(more[stack.len() as int] == f);
        if white(start, colour, f) {
            lemma_reaches_field(start, colour, roots, cur, done);
        }
    }
    assert forall|s: int| 0 <= s < more.len() implies start.contains_key(#[trigger] more[s]) && (
    white(start, colour, more[s]) ==> reaches(start, colour, roots, more[s])) by {
        if s < stack.len() {
            assert(more[s] == stack[s]);
        }
    }
    assert forall|r: int| 0 <= r < seen && r < roots.len() implies (#[trigger] roots[r])@ == 0
        || more.contains(roots[r]) || !white(mem, colour, roots[r]) by {
        assert(stack.contains(roots[r]) ==> more.contains(roots[r]));
    }
    assert forall|a: Address| #[trigger]
        mem.contains_key(a) && mem[a].marked != start[a].marked implies fields_seen(
        mem,
        colour,
        more,
        a,
        if Some(cur) == Some(a) {
            done + 1
        } else {
            mem[a].fields.len() as int
        },
    ) by {
        let upto = if Some(cur) == Some(a) {
            done
        } else {
            mem[a].fields.len() as int
        };
        assert(fields_seen(mem, colour, stack, a, upto));
        assert forall|k: int|
            0 <= k < (if Some(cur) == Some(a) {
                done + 1
            } else {
                mem[a].fields.len() as int
            }) && k < mem[a].fields.len() implies {
            let g = #[trigger] mem[a].fields[k];
            g@ == 0 || more.contains(g) || !white(mem, colour, g)
        } by {
            let g = mem[a].fields[k];
            if !(a == cur && k == done) {
                assert(stack.contains(g) ==> more.contains(g));
            }
        }
    }
}

/// Marking goes on to the next object of the stack where all fields of the
/// object whose fields were pushed were seen.
pub proof fn lemma_tracing_finish(
    start: Map<Address, GcObjView>,
    colour: bool,
    roots: Seq<Address>,
    seen: int,
    mem: Map<Address, GcObjView>,
    stack: Seq<Address>,
    cur: Address,
)
    requires
        mem.contains_key(cur),
        tracing(start, colour, roots, seen, mem, stack, Some(cur), mem[cur].fields.len() as int),
    ensures
        tracing(start, colour, roots, seen, mem, stack, None, 0),
{
    reveal(tracing);
}

/// Where marking has come to its end, every object on a path from a root
/// through objects that did not have the mark has it.
proof fn lemma_path_traced(
    start: Map<Address, GcObjView>,
    colour: bool,
    roots: Seq<Address>,
    mem: Map<Address, GcObjView>,
    path: Seq<Address>,
    i: int,
)
    requires
        store_ok(start),
        tracing(start, colour, roots, roots.len() as int, mem, Seq::empty(), None, 0),
        white_path(start, colour, roots, path),
        0 <= i < path.len(),
    ensures
        mem[path[i]].marked == colour,
    decreases i,
{
    reveal(tracing);
    let empty = Seq::<Address>::empty();
    assert(white(start, colour, path[i]));
    if i == 0 {
        let r = choose|r: int| 0 <= r < roots.len() && roots[r] == path[0];
        assert(!empty.contains(roots[r]));
        assert(mem.contains_key(roots[r]));
    } else {
        let from = path[i - 1];
        lemma_path_traced(start, colour, roots, mem, path, i - 1);
        assert(white(start, colour, path[i - 1]));
        assert(start[path[i - 1]].fields.contains(path[i - 1 + 1]));
        let k = choose|k: int| 0 <= k < start[from].fields.len() && start[from].fields[k] == path[i];
        assert(mem.contains_key(from));
        assert(fields_seen(mem, colour, empty, from, mem[from].fields.len() as int));
        assert(mem[from].fields[k] == path[i]);
        assert(!empty.contains(path[i]));
        assert(mem.contains_key(path[i]));
    }
}

/// Where marking has come to its end, exactly the objects that marking
/// comes to got the mark.
pub proof fn lemma_tracing_end(
    start: Map<Address, GcObjView>,
    colour: bool,
    roots: Seq<Address>,
    mem: Map<Address, GcObjView>,
)
    requires
        store_ok(start),
        tracing(start, colour, roots, roots.len() as int, mem, Seq::empty(), None, 0),
    ensures
        mem == traced(start, colour, roots),
{
    lemma_tracing_memory(start, colour, roots, roots.len() as int, mem, Seq::empty(), None, 0);
    let goal = traced(start, colour, roots);
    assert forall|a: Address| mem.contains_key(a) implies #[trigger] mem[a] == goal[a] by {
        if reaches(start, colour, roots, a) {
            let path = choose|path: Seq<Address>| #[trigger]
                white_path(start, colour, roots, path) && path.last() == a;
            lemma_path_traced(start, colour, roots, mem, path, path.len() - 1);
        } else {
            reveal(tracing);
        }
    }
    assert(mem =~= goal);
}

/// Marks with `cur_marked` what can be reached from `obj`, the next of the
/// roots, through objects that do not have the mark.
fn mark_recursive(
    store: &mut Store,
    obj: Address,
    cur_marked: bool,
    Ghost(start): Ghost<Map<Address, GcObjView>>,
    Ghost(roots): Ghost<Seq<Address>>,
    Ghost(seen): Ghost<int>,
)
    requires
        store_ok(start),
        refs_ok(start, roots),
        tracing(start, cur_marked, roots, seen, old(store)@, Seq::empty(), None, 0),
        0 <= seen < roots.len(),
        obj == roots[seen],
    ensures
        tracing(start, cur_marked, roots, seen + 1, final(store)@, Seq::empty(), None, 0),
{
    proof {
        lemma_tracing_root(start, cur_marked, roots, seen, store@);
    }
    if obj.is_null() {
        return ;
    }
    let mut elements: Vec<Address> = Vec::new();
    elements.push(obj);
    proof {
        assert(elements@ =~= seq![obj]);
    }
    while elements.len() > 0
        invariant
            store_ok(start),
            tracing(start, cur_marked, roots, seen + 1, store@, elements@, None, 0),
        decreases store.white_count(cur_marked), elements.len(),
    {
        let ghost count = store.white_count(cur_marked);
        let ghost height = elements@.len();
        proof {
            lemma_tracing_pop(start, cur_marked, roots, seen + 1, store@, elements@);
        }
        let ptr = elements.pop().unwrap();
        if store.marked(ptr) != cur_marked {
            store.set_mark(ptr, cur_marked);
            let fields = store.field_count(ptr);
            let mut k: usize = 0;
            while k < fields
                invariant
                    k <= fields,
                    store_ok(start),
                    store@.contains_key(ptr),
                    store@[ptr].marked != start[ptr].marked,
                    fields == store@[ptr].fields.len(),
                    tracing(start, cur_marked, roots, seen + 1, store@, elements@, Some(ptr), k as int),
                    store.white_count(cur_marked) < count,
                decreases fields - k,
            {
                proof {
                    lemma_tracing_field(
                        start,
                        cur_marked,
                        roots,
                        seen + 1,
                        store@,
                        elements@,
                        ptr,
                        k as int,
                    );
                }
                let field = store.field(ptr, k);
                if !field.is_null() {
                    elements.push(field);
                }
                k += 1;
            }
            proof {
                lemma_tracing_finish(start, cur_marked, roots, seen + 1, store@, elements@, ptr);
            }
        }
    }
    proof {
        assert(elements@ =~= Seq::<Address>::empty());
    }
}

/// The roots of a collection: the literals, then the words of the rootset
/// as addresses.
pub open spec fn all_roots(literals: Seq<Address>, rootset: Seq<usize>) -> Seq<Address> {
    literals + rootset.map_values(|root: usize| Address(root))
}

/// Marks with `cur_marked` what can be reached from the literals.
fn mark_literals(
    store: &mut Store,
    ctxt: &Context,
    cur_marked: bool,
    Ghost(start): Ghost<Map<Address, GcObjView>>,
    Ghost(roots): Ghost<Seq<Address>>,
)
    requires
        store_ok(start),
        refs_ok(start, roots),
        old(store)@ == start,
        ctxt.literals@.len() <= roots.len(),
        forall|i: int| 0 <= i < ctxt.literals@.len() ==> roots[i] == #[trigger] ctxt.literals@[i],
    ensures
        tracing(
            start,
            cur_marked,
            roots,
            ctxt.literals@.len() as int,
            final(store)@,
            Seq::empty(),
            None,
            0,
        ),
{
    let mut i: usize = 0;
    proof {
        lemma_tracing_start(start, cur_marked, roots);
    }
    while i < ctxt.literals.len()
        invariant
            i <= ctxt.literals@.len(),
            store_ok(start),
            refs_ok(start, roots),
            ctxt.literals@.len() <= roots.len(),
            forall|i: int| 0 <= i < ctxt.literals@.len() ==> roots[i] == #[trigger] ctxt.literals@[i],
            tracing(start, cur_marked, roots, i as int, store@, Seq::empty(), None, 0),
        decreases ctxt.literals@.len() - i,
    {
        mark_recursive(
            store,
            ctxt.literals[i],
            cur_marked,
            Ghost(start),
            Ghost(roots),
            Ghost(i as int),
        );
        i += 1;
    }
}

/// Marks with `cur_marked` what can be reached from the rootset, whose
/// roots follow the first `base` roots.
fn mark_rootset(
    store: &mut Store,
    rootset: &Vec<usize>,
    cur_marked: bool,
    Ghost(start): Ghost<Map<Address, GcObjView>>,
    Ghost(roots): Ghost<Seq<Address>>,
    Ghost(base): Ghost<int>,
)
    requires
        store_ok(start),
        refs_ok(start, roots),
        0 <= base,
        roots.len() == base + rootset@.len(),
        forall|i: int| 0 <= i < rootset@.len() ==> roots[base + i] == Address(#[trigger] rootset@[i]),
        tracing(start, cur_marked, roots, base, old(store)@, Seq::empty(), None, 0),
    ensures
        final(store)@ == traced(start, cur_marked, roots),
{
    let mut i: usize = 0;
    while i < rootset.len()
        invariant
            i <= rootset@.len(),
            store_ok(start),
            refs_ok(start, roots),
            0 <= base,
            roots.len() == base + rootset@.len(),
            forall|i: int|
                0 <= i < rootset@.len() ==> roots[base + i] == Address(#[trigger] rootset@[i]),
            tracing(start, cur_marked, roots, base + i, store@, Seq::empty(), None, 0),
        decreases rootset@.len() - i,
    {
        mark_recursive(
            store,
            Address::from_usize(rootset[i]),
            cur_marked,
            Ghost(start),
            Ghost(roots),
            Ghost(base + i),
        );
        i += 1;
    }
    proof {
        lemma_tracing_end(start, cur_marked, roots, store@);
    }
}

/// The sizes of the objects of `list`, in all.
pub open spec fn list_bytes(mem: Map<Address, GcObjView>, list: Seq<Address>) -> int
    decreases list.len(),
{
    if list.len() == 0 {
        0
    } else {
        list_bytes(mem, list.drop_last()) + mem[list.last()].size
    }
}

/// The objects of `list` that have the mark `colour`, in their order.
pub open spec fn kept_list(mem: Map<Address, GcObjView>, list: Seq<Address>, colour: bool) -> Seq<
    Address,
>
    decreases list.len(),
{
    if list.len() == 0 {
        Seq::empty()
    } else if mem[list.last()].marked == colour {
        kept_list(mem, list.drop_last(), colour).push(list.last())
    } else {
        kept_list(mem, list.drop_last(), colour)
    }
}

/// The objects of `list` that do not have the mark `colour`, in their order.
pub open spec fn freed_list(mem: Map<Address, GcObjView>, list: Seq<Address>, colour: bool) -> Seq<
    Address,
>
    decreases list.len(),
{
    if list.len() == 0 {
        Seq::empty()
    } else if mem[list.last()].marked == colour {
        freed_list(mem, list.drop_last(), colour)
    } else {
        freed_list(mem, list.drop_last(), colour).push(list.last())
    }
}

/// The object at place `i` of `list`, or null where the list has no such place.
pub open spec fn at(list: Seq<Address>, i: int) -> Address {
    if 0 <= i < list.len() {
        list[i]
    } else {
        Address(0)
    }
}

/// Whether `list` holds the objects of `mem`, each once, in the order in
/// which each is followed by the next, with null behind the last.
pub open spec fn chained(mem: Map<Address, GcObjView>, list: Seq<Address>) -> bool {
    &&& list.no_duplicates()
    &&& forall|i: int|
        0 <= i < list.len() ==> mem.contains_key(#[trigger] list[i]) && mem[list[i]].succ == at(
            list,
            i + 1,
        )
    &&& forall|a: Address| #[trigger] mem.contains_key(a) ==> list.contains(a)
}

/// The sizes of a list with one more object.
pub proof fn lemma_list_bytes_push(mem: Map<Address, GcObjView>, list: Seq<Address>, a: Address)
    ensures
        list_bytes(mem, list.push(a)) == list_bytes(mem, list) + mem[a].size,
{
    assert(list.push(a).drop_last() =~= list);
}

/// The sizes of two lists joined.
pub proof fn lemma_list_bytes_concat(mem: Map<Address, GcObjView>, a: Seq<Address>, b: Seq<Address>)
    ensures
        list_bytes(mem, a + b) == list_bytes(mem, a) + list_bytes(mem, b),
    decreases b.len(),
{
    if b.len() == 0 {
        assert(a + b =~= a);
    } else {
        lemma_list_bytes_concat(mem, a, b.drop_last());
        assert((a + b).drop_last() =~= a + b.drop_last());
    }
}

/// The sizes of a list do not depend on what else the memory holds, nor on
/// more of its objects than their sizes.
pub proof fn lemma_list_bytes_same(
    mem: Map<Address, GcObjView>,
    other: Map<Address, GcObjView>,
    list: Seq<Address>,
)
    requires
        forall|i: int| 0 <= i < list.len() ==> mem[#[trigger] list[i]].size == other[list[i]].size,
    ensures
        list_bytes(mem, list) == list_bytes(other, list),
    decreases list.len(),
{
    if list.len() > 0 {
        let front = list.drop_last();
        assert forall|i: int| 0 <= i < front.len() implies mem[#[trigger] front[i]].size
            == other[front[i]].size by {
            assert(front[i] == list[i]);
        }
        lemma_list_bytes_same(mem, other, front);
        assert(list.last() == list[list.len() - 1]);
    }
}

/// The sizes of a list without the object at place `k`.
pub proof fn lemma_list_bytes_remove(mem: Map<Address, GcObjView>, list: Seq<Address>, k: int)
    requires
        0 <= k < list.len(),
    ensures
        list_bytes(mem, list.remove(k)) == list_bytes(mem, list) - mem[list[k]].size,
        0 <= list_bytes(mem, list.remove(k)),
{
    let a = list.take(k);
    let b = list.skip(k + 1);
    assert(list =~= a + seq![list[k]] + b);
    assert(list.remove(k) =~= a + b);
    lemma_list_bytes_concat(mem, a, seq![list[k]]);
    lemma_list_bytes_concat(mem, a + seq![list[k]], b);
    lemma_list_bytes_concat(mem, a, b);
    assert(seq![list[k]].drop_last() =~= Seq::<Address>::empty());
    reveal_with_fuel(list_bytes, 2);
    lemma_list_bytes_nonneg(mem, list.remove(k));
}

/// The sizes of a list are not negative.
pub proof fn lemma_list_bytes_nonneg(mem: Map<Address, GcObjView>, list: Seq<Address>)
    ensures
        0 <= list_bytes(mem, list),
    decreases list.len(),
{
    if list.len() > 0 {
        lemma_list_bytes_nonneg(mem, list.drop_last());
    }
}

/// The simple collector with its heap.
pub struct Gc {
    pub store: Store,
    pub obj_start: Address,
    pub obj_end: Address,
    pub bytes_allocated: usize,
    pub threshold: usize,
    pub cur_marked: bool,
    pub collect_duration: u64,
    pub total_allocated: u64,
    pub collections: u64,
    pub allocations: u64,
    /// The objects in the order of the list.
    pub list: Ghost<Seq<Address>>,
}

/// What holds in the middle of a sweep, with the first `k` objects of the
/// list `live` kept and the others not yet decided: `mem` holds the objects
/// of `live`, each once, as they were in `start` but for what follows them;
/// each object kept but the last is followed by the next one kept, and the
/// objects not yet decided are followed as the list says.
#[verifier::opaque]
pub open spec fn sweeping(
    start: Map<Address, GcObjView>,
    mem: Map<Address, GcObjView>,
    live: Seq<Address>,
    k: int,
    obj_start: Address,
    last: Address,
    obj: Address,
) -> bool {
    &&& 0 <= k <= live.len()
    &&& live.no_duplicates()
    &&& forall|a: Address| #[trigger] mem.contains_key(a) <==> live.contains(a)
    &&& forall|x: int|
        0 <= x < live.len() ==> (#[trigger] live[x])@ != 0 && start.contains_key(live[x])
            && mem[live[x]] == (GcObjView { succ: mem[live[x]].succ, ..start[live[x]] })
    &&& forall|x: int| 0 <= x < k - 1 ==> mem[#[trigger] live[x]].succ == live[x + 1]
    &&& forall|x: int| k <= x < live.len() ==> mem[#[trigger] live[x]].succ == at(live, x + 1)
    &&& k > 0 ==> obj_start == live[0]
    &&& last == at(live, k - 1)
    &&& obj == at(live, k)
}

/// A sweep starts with nothing kept.
pub proof fn lemma_sweep_start(mem: Map<Address, GcObjView>, list: Seq<Address>, obj_start: Address)
    requires
        !mem.contains_key(Address(0)),
        chained(mem, list),
        obj_start == at(list, 0),
    ensures
        sweeping(mem, mem, list, 0, obj_start, Address(0), obj_start),
{
    reveal(sweeping);
    assert forall|a: Address| #[trigger] mem.contains_key(a) <==> list.contains(a) by {
        if list.contains(a) {
            let x = choose|x: int| 0 <= x < list.len() && list[x] == a;
            assert(mem.contains_key(list[x]));
        }
    }
    assert forall|x: int| 0 <= x < list.len() implies (#[trigger] list[x])@ != 0 by {
        assert(mem.contains_key(list[x]));
    }
}

/// In the middle of a sweep the object to be decided next is null exactly
/// when all are decided, and is an object of the memory otherwise, as is
/// the last object kept, if there is one.
pub proof fn lemma_sweep_current(
    start: Map<Address, GcObjView>,
    mem: Map<Address, GcObjView>,
    live: Seq<Address>,
    k: int,
    obj_start: Address,
    last: Address,
    obj: Address,
)
    requires
        sweeping(start, mem, live, k, obj_start, last, obj),
    ensures
        0 <= k <= live.len(),
        obj@ == 0 <==> k == live.len(),
        k < live.len() ==> obj == live[k] && mem.contains_key(obj) && mem[obj].marked
            == start[obj].marked && mem[obj].size == start[obj].size,
        last@ == 0 <==> k == 0,
        k > 0 ==> last == live[k - 1] && mem.contains_key(last),
{
    reveal(sweeping);
    if k < live.len() {
        assert(live[k]@ != 0);
        assert(live.contains(live[k]));
    }
    if k > 0 {
        assert(live[k - 1]@ != 0);
        assert(live.contains(live[k - 1]));
    }
}

/// A sweep goes on where the next object is kept: it follows the last
/// object kept, or is the first where none was kept.
pub proof fn lemma_sweep_keep(
    start: Map<Address, GcObjView>,
    mem: Map<Address, GcObjView>,
    live: Seq<Address>,
    k: int,
    obj_start: Address,
    last: Address,
    obj: Address,
    after: Map<Address, GcObjView>,
)
    requires
        sweeping(start, mem, live, k, obj_start, last, obj),
        k < live.len(),
        after == if last@ == 0 {
            mem
        } else {
            mem.insert(last, GcObjView { succ: obj, ..mem[last] })
        },
    ensures
        sweeping(
            start,
            after,
            live,
            k + 1,
            if last@ == 0 {
                obj
            } else {
                obj_start
            },
            obj,
            mem[obj].succ,
        ),
        list_bytes(after, live) == list_bytes(mem, live),
{
    lemma_sweep_current(start, mem, live, k, obj_start, last, obj);
    reveal(sweeping);
    assert forall|a: Address| #[trigger] after.contains_key(a) <==> live.contains(a) by {
        assert(mem.contains_key(a) <==> live.contains(a));
    }
    assert forall|x: int| 0 <= x < live.len() implies (#[trigger] live[x])@ != 0
        && start.contains_key(live[x]) && after[live[x]] == (GcObjView {
        succ: after[live[x]].succ,
        ..start[live[x]]
    }) by {
        assert(mem[live[x]] == (GcObjView { succ: mem[live[x]].succ, ..start[live[x]] }));
    }
    assert forall|x: int| 0 <= x < k implies after[#[trigger] live[x]].succ == live[x + 1] by {
        if x < k - 1 {
            assert(mem[live[x]].succ == live[x + 1]);
            assert(live[x] != live[k - 1]);
        }
    }
    assert forall|x: int| k + 1 <= x < live.len() implies after[#[trigger] live[x]].succ == at(
        live,
        x + 1,
    ) by {
        assert(mem[live[x]].succ == at(live, x + 1));
        if k > 0 {
            assert(live[x] != live[k - 1]);
        }
    }
    assert(mem[live[k]].succ == at(live, k + 1));
    assert forall|i: int| 0 <= i < live.len() implies mem[#[trigger] live[i]].size
        == after[live[i]].size by {
        assert(mem[live[i]] == (GcObjView { succ: mem[live[i]].succ, ..start[live[i]] }));
    }
    lemma_list_bytes_same(mem, after, live);
}

/// A sweep goes on where the next object is given up.
pub proof fn lemma_sweep_free(
    start: Map<Address, GcObjView>,
    mem: Map<Address, GcObjView>,
    live: Seq<Address>,
    k: int,
    obj_start: Address,
    last: Address,
    obj: Address,
)
    requires
        sweeping(start, mem, live, k, obj_start, last, obj),
        k < live.len(),
    ensures
        sweeping(start, mem.remove(obj), live.remove(k), k, obj_start, last, mem[obj].succ),
        list_bytes(mem.remove(obj), live.remove(k)) == list_bytes(mem, live) - mem[obj].size,
        0 <= list_bytes(mem.remove(obj), live.remove(k)),
{
    lemma_sweep_current(start, mem, live, k, obj_start, last, obj);
    reveal(sweeping);
    let after = mem.remove(obj);
    let rest = live.remove(k);
    lemma_list_bytes_remove(mem, live, k);
    assert forall|x: int| 0 <= x < rest.len() implies #[trigger] rest[x] == live[if x < k {
        x
    } else {
        x + 1
    }] by {}
    assert forall|x: int, y: int| 0 <= x < rest.len() && 0 <= y < rest.len() && x != y implies rest[x]
        != rest[y] by {
        let x0 = if x < k { x } else { x + 1 };
        let y0 = if y < k { y } else { y + 1 };
        assert(rest[x] == live[x0] && rest[y] == live[y0]);
    }
    assert forall|a: Address| #[trigger] after.contains_key(a) <==> rest.contains(a) by {
        if after.contains_key(a) {
            assert(mem.contains_key(a));
            let x0 = choose|x0: int| 0 <= x0 < live.len() && live[x0] == a;
            let x = if x0 < k { x0 } else { x0 - 1 };
            assert(rest[x] == a);
        }
        if rest.contains(a) {
            let x = choose|x: int| 0 <= x < rest.len() && rest[x] == a;
            let x0 = if x < k { x } else { x + 1 };
            assert(rest[x] == live[x0]);
            assert(live[x0] != live[k]);
            assert(live.contains(live[x0]));
        }
    }
    assert forall|x: int| 0 <= x < rest.len() implies (#[trigger] rest[x])@ != 0
        && start.contains_key(rest[x]) && after[rest[x]] == (GcObjView {
        succ: after[rest[x]].succ,
        ..start[rest[x]]
    }) by {
        let x0 = if x < k { x } else { x + 1 };
        assert(rest[x] == live[x0]);
        assert(mem[live[x0]] == (GcObjView { succ: mem[live[x0]].succ, ..start[live[x0]] }));
        assert(live[x0] != live[k]);
    }
    assert forall|x: int| 0 <= x < k - 1 implies after[#[trigger] rest[x]].succ == rest[x + 1] by {
        assert(rest[x] == live[x]);
        assert(rest[x + 1] == live[x + 1]);
        assert(mem[live[x]].succ == live[x + 1]);
        assert(live[x] != live[k]);
    }
    assert forall|x: int| k <= x < rest.len() implies after[#[trigger] rest[x]].succ == at(
        rest,
        x + 1,
    ) by {
        assert(rest[x] == live[x + 1]);
        assert(mem[live[x + 1]].succ == at(live, x + 2));
        assert(live[x + 1] != live[k]);
        if x + 1 < rest.len() {
            assert(rest[x + 1] == live[x + 2]);
        }
    }
    assert(mem[live[k]].succ == at(live, k + 1));
    if k > 0 {
        assert(rest[0] == live[0]);
        assert(rest[k - 1] == live[k - 1]);
    }
    if k < rest.len() {
        assert(rest[k] == live[k + 1]);
    }
    assert forall|i: int| 0 <= i < rest.len() implies mem[#[trigger] rest[i]].size
        == after[rest[i]].size by {
        let x0 = if i < k { i } else { i + 1 };
        assert(rest[i] == live[x0]);
        assert(live[x0] != live[k]);
    }
    lemma_list_bytes_same(mem, after, rest);
}

/// A sweep ends where all objects are decided and null is put behind the
/// last object kept: the list then holds the objects of the memory.
pub proof fn lemma_sweep_end(
    start: Map<Address, GcObjView>,
    mem: Map<Address, GcObjView>,
    live: Seq<Address>,
    obj_start: Address,
    last: Address,
    after: Map<Address, GcObjView>,
)
    requires
        sweeping(start, mem, live, live.len() as int, obj_start, last, Address(0)),
        after == if last@ == 0 {
            mem
        } else {
            mem.insert(last, GcObjView { succ: Address(0), ..mem[last] })
        },
    ensures
        chained(after, live),
        live.len() > 0 ==> obj_start == live[0],
        last == at(live, live.len() - 1),
        list_bytes(after, live) == list_bytes(mem, live),
        forall|x: int|
            0 <= x < live.len() ==> start.contains_key(#[trigger] live[x]) && after[live[x]] == (
            GcObjView { succ: at(live, x + 1), ..start[live[x]] }),
        forall|a: Address| #[trigger] after.contains_key(a) <==> live.contains(a),
{
    let k = live.len() as int;
    lemma_sweep_current(start, mem, live, k, obj_start, last, Address(0));
    reveal(sweeping);
    assert forall|a: Address| #[trigger] after.contains_key(a) <==> live.contains(a) by {
        assert(mem.contains_key(a) <==> live.contains(a));
    }
    assert forall|x: int| 0 <= x < live.len() implies start.contains_key(#[trigger] live[x])
        && after.contains_key(live[x]) && after[live[x]].succ == at(live, x + 1) && after[live[x]]
        == (GcObjView { succ: at(live, x + 1), ..start[live[x]] }) by {
        assert(mem[live[x]] == (GcObjView { succ: mem[live[x]].succ, ..start[live[x]] }));
        assert(live.contains(live[x]));
        if x < k - 1 {
            assert(mem[live[x]].succ == live[x + 1]);
            assert(live[x] != live[k - 1]);
        }
    }
    assert forall|i: int| 0 <= i < live.len() implies mem[#[trigger] live[i]].size
        == after[live[i]].size by {
        assert(mem[live[i]] == (GcObjView { succ: mem[live[i]].succ, ..start[live[i]] }));
    }
    lemma_list_bytes_same(mem, after, live);
}

impl Gc {
    /// Whether the collector is well formed: no object lies at null, the
    /// references of the objects are null or objects, the list holds the
    /// objects from `obj_start` to `obj_end`, and the bytes allocated are
    /// the sizes of the objects.
    pub open spec fn wf(&self) -> bool {
        &&& store_ok(self.store@)
        &&& chained(self.store@, self.list@)
        &&& self.obj_start == at(self.list@, 0)
        &&& self.obj_end == at(self.list@, self.list@.len() - 1)
        &&& self.bytes_allocated == list_bytes(self.store@, self.list@)
    }

    /// A collector without objects that marks with `true` first.
    pub fn new() -> (r: Gc)
        ensures
            r.wf(),
            r.store@ == Map::<Address, GcObjView>::empty(),
            r.list@ == Seq::<Address>::empty(),
            r.cur_marked,
            r.bytes_allocated == 0,
            r.threshold == INITIAL_THRESHOLD,
            r.collect_duration == 0,
            r.total_allocated == 0,
            r.collections == 0,
            r.allocations == 0,
    {
        Gc {
            store: Store::new(),
            obj_start: Address::null(),
            obj_end: Address::null(),
            cur_marked: true,
            bytes_allocated: 0,
            threshold: INITIAL_THRESHOLD,
            collect_duration: 0,
            total_allocated: 0,
            collections: 0,
            allocations: 0,
            list: Ghost(Seq::empty()),
        }
    }

    /// Whether the list holds the objects from `obj_start` to `obj_end`, and
    /// the bytes allocated are the sizes of the objects.
    pub open spec fn linked(&self) -> bool {
        &&& !self.store@.contains_key(Address(0))
        &&& chained(self.store@, self.list@)
        &&& self.obj_start == at(self.list@, 0)
        &&& self.obj_end == at(self.list@, self.list@.len() - 1)
        &&& self.bytes_allocated == list_bytes(self.store@, self.list@)
    }

    /// Whether no object has the mark of the current cycle.
    pub open spec fn all_white(&self) -> bool {
        forall|a: Address| #[trigger]
            self.store@.contains_key(a) ==> self.store@[a].marked != self.cur_marked
    }

    /// Whether the collector is `other` but for its heap.
    pub open spec fn same_counters(&self, other: Gc) -> bool {
        &&& self.threshold == other.threshold
        &&& self.cur_marked == other.cur_marked
        &&& self.collect_duration == other.collect_duration
        &&& self.total_allocated == other.total_allocated
        &&& self.collections == other.collections
        &&& self.allocations == other.allocations
    }

    /// Whether `after`, with the list `list`, is the memory `marked` swept:
    /// it holds the objects of `list`, which are those of `before` that have
    /// the mark `colour`, each as it was but followed by the next of them.
    pub open spec fn swept(
        marked: Map<Address, GcObjView>,
        before: Seq<Address>,
        colour: bool,
        after: Map<Address, GcObjView>,
        list: Seq<Address>,
    ) -> bool {
        &&& list == kept_list(marked, before, colour)
        &&& forall|a: Address| #[trigger] after.contains_key(a) <==> list.contains(a)
        &&& forall|x: int|
            0 <= x < list.len() ==> marked.contains_key(#[trigger] list[x]) && after[list[x]] == (
            GcObjView { succ: at(list, x + 1), ..marked[list[x]] })
    }
}

/// Frees the objects of the list that do not have the mark `cur_marked`,
/// and links those that have it. Returns the objects freed, in the order of
/// the list.
fn sweep(gc: &mut Gc, cur_marked: bool) -> (freed: Vec<Address>)
    requires
        old(gc).linked(),
    ensures
        final(gc).linked(),
        Gc::swept(old(gc).store@, old(gc).list@, cur_marked, final(gc).store@, final(gc).list@),
        freed@ == freed_list(old(gc).store@, old(gc).list@, cur_marked),
        final(gc).bytes_allocated <= old(gc).bytes_allocated,
        final(gc).same_counters(*old(gc)),
{
    let ghost start = gc.store@;
    let ghost before = gc.list@;
    let mut freed: Vec<Address> = Vec::new();
    let mut obj = gc.obj_start;
    let mut last = Address::null();
    let ghost mut done: int = 0;
    let ghost mut k: int = 0;
    proof {
        lemma_sweep_start(start, before, gc.obj_start);
        assert(before.take(0) =~= Seq::<Address>::empty());
        assert(before.skip(0) =~= before);
        assert(gc.list@ =~= kept_list(start, before.take(0), cur_marked) + before.skip(0));
    }
    while !obj.is_null()
        invariant
            0 <= done <= before.len(),
            gc.list@ == kept_list(start, before.take(done), cur_marked) + before.skip(done),
            k == kept_list(start, before.take(done), cur_marked).len(),
            freed@ == freed_list(start, before.take(done), cur_marked),
            sweeping(start, gc.store@, gc.list@, k, gc.obj_start, last, obj),
            gc.bytes_allocated == list_bytes(gc.store@, gc.list@),
            gc.bytes_allocated <= old(gc).bytes_allocated,
            gc.same_counters(*old(gc)),
        decreases before.len() - done,
    {
        let ghost mem = gc.store@;
        let ghost live = gc.list@;
        let ghost seen = kept_list(start, before.take(done), cur_marked);
        let ghost gone = freed_list(start, before.take(done), cur_marked);
        proof {
            lemma_sweep_current(start, mem, live, k, gc.obj_start, last, obj);
            assert(live.len() == seen.len() + before.skip(done).len());
            assert(live[k] == before[done]);
            assert(before.take(done + 1).drop_last() =~= before.take(done));
            assert(before.take(done + 1).last() == before[done]);
        }
        let succ = gc.store.succ(obj);
        if gc.store.marked(obj) != cur_marked {
            let size = gc.store.size(obj);
            proof {
                lemma_sweep_free(start, mem, live, k, gc.obj_start, last, obj);
                assert(live.remove(k) =~= seen + before.skip(done + 1));
            }
            gc.store.remove(obj);
            gc.bytes_allocated -= size;
            gc.list = Ghost(live.remove(k));
            freed.push(obj);
        } else {
            proof {
                lemma_sweep_keep(
                    start,
                    mem,
                    live,
                    k,
                    gc.obj_start,
                    last,
                    obj,
                    if last@ == 0 {
                        mem
                    } else {
                        mem.insert(last, GcObjView { succ: obj, ..mem[last] })
                    },
                );
                assert(live =~= seen.push(before[done]) + before.skip(done + 1));
            }
            if last.is_null() {
                gc.obj_start = obj;
            } else {
                gc.store.set_succ(last, obj);
            }
            last = obj;
            proof {
                k = k + 1;
            }
        }
        obj = succ;
        proof {
            done = done + 1;
        }
    }
    proof {
        lemma_sweep_current(start, gc.store@, gc.list@, k, gc.obj_start, last, obj);
        assert(gc.list@.len() == k + before.skip(done).len());
        assert(before.take(done) =~= before);
        assert(before.skip(done) =~= Seq::<Address>::empty());
        assert(gc.list@ =~= kept_list(start, before, cur_marked));
        lemma_sweep_end(
            start,
            gc.store@,
            gc.list@,
            gc.obj_start,
            last,
            if last@ == 0 {
                gc.store@
            } else {
                gc.store@.insert(last, GcObjView { succ: Address(0), ..gc.store@[last] })
            },
        );
    }
    if last.is_null() {
        gc.obj_start = Address::null();
    } else {
        gc.store.set_succ(last, Address::null());
    }
    gc.obj_end = last;
    freed
}

/// What a sweep keeps: the objects of the list that have the mark, and no
/// others; what it frees: those that do not have it.
pub proof fn lemma_kept_list(mem: Map<Address, GcObjView>, list: Seq<Address>, colour: bool)
    ensures
        forall|a: Address| #[trigger]
            kept_list(mem, list, colour).contains(a) <==> list.contains(a) && mem[a].marked
                == colour,
        forall|a: Address| #[trigger]
            freed_list(mem, list, colour).contains(a) <==> list.contains(a) && mem[a].marked
                != colour,
        list_bytes(mem, kept_list(mem, list, colour)) <= list_bytes(mem, list),
    decreases list.len(),
{
    let kept = kept_list(mem, list, colour);
    let freed = freed_list(mem, list, colour);
    if list.len() > 0 {
        let front = list.drop_last();
        let last = list.last();
        lemma_kept_list(mem, front, colour);
        let kept_front = kept_list(mem, front, colour);
        let freed_front = freed_list(mem, front, colour);
        assert forall|a: Address| list.contains(a) <==> front.contains(a) || a == last by {
            if list.contains(a) {
                let x = choose|x: int| 0 <= x < list.len() && list[x] == a;
                if x < front.len() {
                    assert(front[x] == a);
                }
            }
            if front.contains(a) {
                let x = choose|x: int| 0 <= x < front.len() && front[x] == a;
                assert(list[x] == a);
            }
            if a == last {
                assert(list[list.len() - 1] == a);
            }
        }
        assert forall|a: Address| #[trigger] kept.contains(a) <==> list.contains(a) && mem[a].marked
            == colour by {
            if kept.contains(a) {
                let x = choose|x: int| 0 <= x < kept.len() && kept[x] == a;
                if x < kept_front.len() {
                    assert(kept_front[x] == a);
                    assert(kept_front.contains(a));
                }
            }
            if list.contains(a) && mem[a].marked == colour {
                if a == last {
                    assert(kept[kept_front.len() as int] == a);
                } else {
                    assert(kept_front.contains(a));
                    let x = choose|x: int| 0 <= x < kept_front.len() && kept_front[x] == a;
                    assert(kept[x] == a);
                }
            }
        }
        assert forall|a: Address| #[trigger] freed.contains(a) <==> list.contains(a) && mem[a].marked
            != colour by {
            if freed.contains(a) {
                let x = choose|x: int| 0 <= x < freed.len() && freed[x] == a;
                if x < freed_front.len() {
                    assert(freed_front[x] == a);
                    assert(freed_front.contains(a));
                }
            }
            if list.contains(a) && mem[a].marked != colour {
                if a == last {
                    assert(freed[freed_front.len() as int] == a);
                } else {
                    assert(freed_front.contains(a));
                    let x = choose|x: int| 0 <= x < freed_front.len() && freed_front[x] == a;
                    assert(freed[x] == a);
                }
            }
        }
        if mem[last].marked == colour {
            lemma_list_bytes_push(mem, kept_front, last);
        }
    }
}

/// Marking leaves the list as it is: the memory after marking holds the
/// objects of the memory before, each followed by what followed it, with
/// its size and its fields.
pub proof fn lemma_traced_linked(
    mem: Map<Address, GcObjView>,
    colour: bool,
    roots: Seq<Address>,
    list: Seq<Address>,
)
    requires
        chained(mem, list),
    ensures
        chained(traced(mem, colour, roots), list),
        list_bytes(traced(mem, colour, roots), list) == list_bytes(mem, list),
        !mem.contains_key(Address(0)) ==> !traced(mem, colour, roots).contains_key(Address(0)),
{
    let after = traced(mem, colour, roots);
    assert forall|i: int| 0 <= i < list.len() implies after.contains_key(#[trigger] list[i])
        && after[list[i]].succ == at(list, i + 1) && mem[list[i]].size == after[list[i]].size by {
        assert(mem.contains_key(list[i]));
    }
    assert forall|a: Address| #[trigger] after.contains_key(a) implies list.contains(a) by {
        assert(mem.contains_key(a));
    }
    lemma_list_bytes_same(mem, after, list);
}

/// The threshold after it was raised: a third more, as far as that is a
/// number of bytes.
pub open spec fn grown(threshold: usize) -> usize {
    if threshold + threshold / 3 <= usize::MAX {
        (threshold + threshold / 3) as usize
    } else {
        usize::MAX
    }
}

impl Gc {
    /// Whether an allocation of `size` bytes collects first: with the flag
    /// that asks for it at every allocation, or where the bytes allocated
    /// would pass the threshold.
    pub open spec fn collects_before(&self, ctxt: &Context, size: usize) -> bool {
        ctxt.args.flag_gc_stress || self.bytes_allocated + size > self.threshold
    }

    /// Whether a collection can run: the stack can be walked, the roots and
    /// the literals are null or objects, and the collections can be counted.
    pub open spec fn can_collect(&self, ctxt: &Context) -> bool {
        &&& rootset(ctxt).is_some()
        &&& refs_ok(self.store@, all_roots(ctxt.literals@, rootset(ctxt).unwrap()))
        &&& self.collections < u64::MAX
    }

    /// Whether `after` and `freed` are what a collection makes of this
    /// collector: the objects that have the mark of the cycle after marking
    /// from the literals and the rootset stay on the list, in their order,
    /// and the others are freed; the mark of the next cycle is the other one.
    pub open spec fn collected(&self, ctxt: &Context, after: Gc, freed: Seq<Address>) -> bool {
        let roots = all_roots(ctxt.literals@, rootset(ctxt).unwrap());
        let marked = traced(self.store@, self.cur_marked, roots);
        &&& Gc::swept(marked, self.list@, self.cur_marked, after.store@, after.list@)
        &&& freed == freed_list(marked, self.list@, self.cur_marked)
        &&& after.linked()
        &&& after.bytes_allocated <= self.bytes_allocated
        &&& after.cur_marked == !self.cur_marked
        &&& after.collections == self.collections + 1
        &&& after.collect_duration == self.collect_duration
        &&& after.total_allocated == self.total_allocated
        &&& after.allocations == self.allocations
        &&& after.all_white()
        &&& self.all_white() ==> after.wf()
    }

    /// Whether every reference field of every object is null or the
    /// address of an object: whether the collector, whose list is in order,
    /// is well formed.
    pub fn references_ok(&self) -> (r: bool)
        requires
            self.linked(),
        ensures
            r == store_ok(self.store@),
            r == self.wf(),
    {
        let ghost mem = self.store@;
        let ghost list = self.list@;
        let mut cur = self.obj_start;
        let ghost mut k: int = 0;
        while !cur.is_null()
            invariant
                self.linked(),
                mem == self.store@,
                list == self.list@,
                0 <= k <= list.len(),
                cur == at(list, k),
                forall|x: int| 0 <= x < k ==> refs_ok(mem, #[trigger] mem[list[x]].fields),
            decreases list.len() - k,
        {
            assert(k < list.len());
            assert(mem.contains_key(list[k]));
            let count = self.store.field_count(cur);
            let mut f: usize = 0;
            while f < count
                invariant
                    f <= count,
                    mem == self.store@,
                    mem.contains_key(cur),
                    count == mem[cur].fields.len(),
                    forall|y: int|
                        0 <= y < f ==> (#[trigger] mem[cur].fields[y])@ == 0 || mem.contains_key(
                            mem[cur].fields[y],
                        ),
                decreases count - f,
            {
                let value = self.store.field(cur, f);
                if !value.is_null() && !self.store.contains(value) {
                    return false;
                }
                f += 1;
            }
            cur = self.store.succ(cur);
            proof {
                k = k + 1;
            }
        }
        proof {
            if k < list.len() {
                assert(mem.contains_key(list[k]));
            }
            assert forall|a: Address| #[trigger] mem.contains_key(a) implies refs_ok(
                mem,
                mem[a].fields,
            ) by {
                assert(list.contains(a));
                let x = choose|x: int| 0 <= x < list.len() && list[x] == a;
                assert(refs_ok(mem, mem[list[x]].fields));
            }
        }
        true
    }

    /// Whether a collection can run.
    pub fn ready_to_collect(&self, ctxt: &Context) -> (r: bool)
        ensures
            r == self.can_collect(ctxt),
    {
        if self.collections == u64::MAX {
            return false;
        }
        let found = match try_get_rootset(ctxt) {
            Some(found) => found,
            None => {
                return false;
            },
        };
        let ghost roots = all_roots(ctxt.literals@, found@);
        let mut i: usize = 0;
        while i < ctxt.literals.len()
            invariant
                i <= ctxt.literals@.len(),
                rootset(ctxt) == Some(found@),
                self.collections < u64::MAX,
                roots == all_roots(ctxt.literals@, found@),
                forall|k: int|
                    0 <= k < i ==> (#[trigger] roots[k])@ == 0 || self.store@.contains_key(roots[k]),
            decreases ctxt.literals@.len() - i,
        {
            let literal = ctxt.literals[i];
            proof {
                assert(roots[i as int] == literal);
            }
            if !literal.is_null() && !self.store.contains(literal) {
                return false;
            }
            i += 1;
        }
        let mut j: usize = 0;
        while j < found.len()
            invariant
                j <= found@.len(),
                rootset(ctxt) == Some(found@),
                self.collections < u64::MAX,
                roots == all_roots(ctxt.literals@, found@),
                forall|k: int|
                    0 <= k < ctxt.literals@.len() + j ==> (#[trigger] roots[k])@ == 0
                        || self.store@.contains_key(roots[k]),
            decreases found@.len() - j,
        {
            let root = Address::from_usize(found[j]);
            proof {
                assert(roots[ctxt.literals@.len() + j] == root);
            }
            if !root.is_null() && !self.store.contains(root) {
                return false;
            }
            j += 1;
        }
        true
    }

    /// Collects: marks from the literals and the rootset with the mark of
    /// the cycle, frees the objects that did not get it, and takes the
    /// other mark for the next cycle. Returns the objects freed, in the
    /// order of the list.
    pub fn collect(&mut self, ctxt: &Context) -> (freed: Vec<Address>)
        requires
            old(self).wf(),
            old(self).can_collect(ctxt),
        ensures
            old(self).collected(ctxt, *final(self), freed@),
            final(self).threshold == old(self).threshold,
    {
        let cur_marked = self.cur_marked;
        let found = match try_get_rootset(ctxt) {
            Some(found) => found,
            None => Vec::new(),
        };
        let ghost start = self.store@;
        let ghost list = self.list@;
        let ghost roots = all_roots(ctxt.literals@, found@);
        mark_literals(&mut self.store, ctxt, cur_marked, Ghost(start), Ghost(roots));
        mark_rootset(
            &mut self.store,
            &found,
            cur_marked,
            Ghost(start),
            Ghost(roots),
            Ghost(ctxt.literals@.len() as int),
        );
        let ghost marked = self.store@;
        proof {
            lemma_traced_linked(start, cur_marked, roots, list);
        }
        let freed = sweep(self, cur_marked);
        self.cur_marked = !self.cur_marked;
        self.collections += 1;
        proof {
            lemma_kept_list(marked, list, cur_marked);
            assert(self.all_white()) by {
                assert forall|a: Address| #[trigger] self.store@.contains_key(a) implies self.store@[a].marked
                    != self.cur_marked by {
                    assert(self.list@.contains(a));
                    let x = choose|x: int| 0 <= x < self.list@.len() && self.list@[x] == a;
                    assert(self.store@[self.list@[x]].marked == marked[a].marked);
                }
            }
            if old(self).all_white() {
                lemma_collected_ok(start, cur_marked, roots, list, self.store@, self.list@);
            }
        }
        freed
    }

    /// Prepares an allocation of `size` bytes: collects where the flag asks
    /// for a collection at every allocation or the bytes allocated would
    /// pass the threshold, and after a collection raises the threshold where
    /// the bytes allocated would still pass three quarters of it. Returns
    /// the objects freed. The memory for the new object is to be asked for
    /// afterwards, and the object to be appended.
    pub fn allocate(&mut self, ctxt: &Context, size: usize) -> (freed: Vec<Address>)
        requires
            old(self).wf(),
            old(self).bytes_allocated + size <= usize::MAX,
            old(self).collects_before(ctxt, size) ==> old(self).can_collect(ctxt),
        ensures
            !old(self).collects_before(ctxt, size) ==> freed@.len() == 0
                && *final(self) == *old(self),
            old(self).collects_before(ctxt, size) ==> old(self).collected(
                ctxt,
                *final(self),
                freed@,
            ),
            old(self).collects_before(ctxt, size) ==> final(self).threshold == if 4 * (
                final(self).bytes_allocated + size) > 3 * old(self).threshold {
                grown(old(self).threshold)
            } else {
                old(self).threshold
            },
    {
        if ctxt.args.flag_gc_stress || size > self.threshold || self.bytes_allocated
            > self.threshold - size {
            let freed = self.collect(ctxt);
            let wanted = self.bytes_allocated + size;
            let quarter = self.threshold / 4 + if self.threshold % 4 != 0 {
                1usize
            } else {
                0usize
            };
            if wanted > self.threshold - quarter {
                let third = self.threshold / 3;
                self.threshold = if self.threshold <= usize::MAX - third {
                    self.threshold + third
                } else {
                    usize::MAX
                };
            }
            freed
        } else {
            Vec::new()
        }
    }

    /// Appends the object that was allocated at `ptr`, zeroed, with `size`
    /// bytes and `fields` reference fields, to the list, and counts it.
    pub fn append_object(&mut self, ptr: Address, size: usize, fields: usize)
        requires
            old(self).wf(),
            ptr@ != 0,
            !old(self).store@.contains_key(ptr),
            old(self).bytes_allocated + size <= usize::MAX,
            old(self).total_allocated + size <= u64::MAX,
            old(self).allocations < u64::MAX,
        ensures
            final(self).wf(),
            final(self).list@ == old(self).list@.push(ptr),
            final(self).store@ == (if old(self).list@.len() == 0 {
                old(self).store@
            } else {
                old(self).store@.insert(
                    old(self).obj_end,
                    GcObjView { succ: ptr, ..old(self).store@[old(self).obj_end] },
                )
            }).insert(
                ptr,
                GcObjView {
                    marked: false,
                    succ: Address(0),
                    size,
                    fields: Seq::new(fields as nat, |i: int| Address(0)),
                },
            ),
            final(self).bytes_allocated == old(self).bytes_allocated + size,
            final(self).total_allocated == old(self).total_allocated + size,
            final(self).allocations == old(self).allocations + 1,
            final(self).threshold == old(self).threshold,
            final(self).cur_marked == old(self).cur_marked,
            final(self).collections == old(self).collections,
            final(self).collect_duration == old(self).collect_duration,
    {
        let ghost mem = self.store@;
        let ghost list = self.list@;
        proof {
            if list.len() > 0 {
                assert(mem.contains_key(list[list.len() - 1]));
            }
        }
        if self.obj_end.is_null() {
            self.obj_start = ptr;
        } else {
            self.store.set_succ(self.obj_end, ptr);
        }
        self.store.insert_zeroed(ptr, size, fields);
        self.obj_end = ptr;
        self.bytes_allocated += size;
        self.total_allocated += size as u64;
        self.allocations += 1;
        self.list = Ghost(list.push(ptr));
        proof {
            lemma_appended(mem, list, ptr, self.store@);
        }
    }

    /// Writes `value`, null or the address of an object, to reference field
    /// `index` of the object at `addr`.
    pub fn set_field(&mut self, addr: Address, index: usize, value: Address)
        requires
            old(self).wf(),
            old(self).store@.contains_key(addr),
            index < old(self).store@[addr].fields.len(),
            value@ == 0 || old(self).store@.contains_key(value),
        ensures
            final(self).wf(),
            final(self).store@ == old(self).store@.insert(
                addr,
                GcObjView {
                    fields: old(self).store@[addr].fields.update(index as int, value),
                    ..old(self).store@[addr]
                },
            ),
            final(self).list == old(self).list,
            final(self).bytes_allocated == old(self).bytes_allocated,
            final(self).same_counters(*old(self)),
    {
        let ghost mem = self.store@;
        self.store.set_field(addr, index, value);
        proof {
            let after = self.store@;
            let list = self.list@;
            assert forall|a: Address| #[trigger] after.contains_key(a) implies refs_ok(
                after,
                after[a].fields,
            ) by {
                assert(mem.contains_key(a));
                assert(refs_ok(mem, mem[a].fields));
                assert forall|i: int| 0 <= i < after[a].fields.len() implies (
                #[trigger] after[a].fields[i])@ == 0 || after.contains_key(after[a].fields[i]) by {
                    if !(a == addr && i == index) {
                        assert(mem[a].fields[i]@ == 0 || mem.contains_key(mem[a].fields[i]));
                    }
                }
            }
            assert forall|i: int| 0 <= i < list.len() implies after.contains_key(#[trigger] list[i])
                && after[list[i]].succ == at(list, i + 1) && mem[list[i]].size
                == after[list[i]].size by {
                assert(mem.contains_key(list[i]));
            }
            assert forall|a: Address| #[trigger] after.contains_key(a) implies list.contains(a) by {
                assert(mem.contains_key(a));
            }
            lemma_list_bytes_same(mem, after, list);
        }
    }

    /// Adds the time that a collection took to the time of all collections.
    pub fn record_duration(&mut self, duration: u64)
        requires
            old(self).collect_duration + duration <= u64::MAX,
        ensures
            *final(self) == (Gc {
                collect_duration: (old(self).collect_duration + duration) as u64,
                ..*old(self)
            }),
    {
        self.collect_duration += duration;
    }

    /// Gives up all objects. Returns them in the order of the list.
    pub fn release(&mut self) -> (freed: Vec<Address>)
        requires
            old(self).linked(),
        ensures
            freed@ == old(self).list@,
            final(self).wf(),
            final(self).store@ == Map::<Address, GcObjView>::empty(),
            final(self).list@ == Seq::<Address>::empty(),
            final(self).bytes_allocated == 0,
            final(self).same_counters(*old(self)),
    {
        let ghost list = self.list@;
        let mut freed: Vec<Address> = Vec::new();
        let mut obj = self.obj_start;
        let ghost mut i: int = 0;
        while !obj.is_null()
            invariant
                0 <= i <= list.len(),
                list == self.list@,
                !self.store@.contains_key(Address(0)),
                chained(self.store@, list),
                obj == at(list, i),
                freed@ == list.take(i),
            decreases list.len() - i,
        {
            proof {
                assert(self.store@.contains_key(list[i]));
                assert(list.take(i + 1) =~= list.take(i).push(list[i]));
            }
            freed.push(obj);
            obj = self.store.succ(obj);
            proof {
                i = i + 1;
            }
        }
        proof {
            if i < list.len() {
                assert(self.store@.contains_key(list[i]));
            }
            assert(list.take(i) =~= list);
        }
        self.store = Store::new();
        self.obj_start = Address::null();
        self.obj_end = Address::null();
        self.bytes_allocated = 0;
        self.list = Ghost(Seq::empty());
        freed
    }
}

/// Where no object had the mark, what a collection leaves is well formed:
/// every reference of an object that stays is null or an object that stays.
pub proof fn lemma_collected_ok(
    start: Map<Address, GcObjView>,
    colour: bool,
    roots: Seq<Address>,
    list: Seq<Address>,
    after: Map<Address, GcObjView>,
    kept: Seq<Address>,
)
    requires
        store_ok(start),
        chained(start, list),
        forall|a: Address| #[trigger] start.contains_key(a) ==> start[a].marked != colour,
        Gc::swept(traced(start, colour, roots), list, colour, after, kept),
    ensures
        store_ok(after),
{
    let marked = traced(start, colour, roots);
    lemma_kept_list(marked, list, colour);
    assert forall|a: Address| #[trigger] after.contains_key(a) implies start.contains_key(a)
        && after[a].fields == start[a].fields && reaches(start, colour, roots, a) by {
        assert(kept.contains(a));
        let x = choose|x: int| 0 <= x < kept.len() && kept[x] == a;
        assert(marked.contains_key(kept[x]));
        assert(after[kept[x]].fields == marked[kept[x]].fields);
    }
    assert(!after.contains_key(Address(0))) by {
        if after.contains_key(Address(0)) {
            assert(start.contains_key(Address(0)));
        }
    }
    assert forall|a: Address| #[trigger] after.contains_key(a) implies refs_ok(after, after[a].fields) by {
        assert(refs_ok(start, start[a].fields));
        assert forall|i: int| 0 <= i < after[a].fields.len() implies (#[trigger] after[a].fields[i])@
            == 0 || after.contains_key(after[a].fields[i]) by {
            let f = start[a].fields[i];
            if f@ != 0 {
                assert(start.contains_key(f));
                assert(white(start, colour, f));
                lemma_reaches_field(start, colour, roots, a, i);
                assert(marked[f].marked == colour);
                assert(list.contains(f));
                assert(kept.contains(f));
            }
        }
    }
}

/// The list with a zeroed object appended holds the objects of the memory
/// with that object, and its references are null or objects as before.
pub proof fn lemma_appended(
    mem: Map<Address, GcObjView>,
    list: Seq<Address>,
    ptr: Address,
    after: Map<Address, GcObjView>,
)
    requires
        store_ok(mem),
        chained(mem, list),
        ptr@ != 0,
        !mem.contains_key(ptr),
        after.contains_key(ptr),
        after[ptr].succ@ == 0,
        forall|k: int| 0 <= k < after[ptr].fields.len() ==> (#[trigger] after[ptr].fields[k])@ == 0,
        forall|a: Address| a != ptr ==> (#[trigger] after.contains_key(a) <==> mem.contains_key(a)),
        forall|a: Address| #[trigger]
            mem.contains_key(a) ==> after[a] == (GcObjView {
                succ: if list.len() > 0 && a == list.last() {
                    ptr
                } else {
                    mem[a].succ
                },
                ..mem[a]
            }),
    ensures
        store_ok(after),
        chained(after, list.push(ptr)),
        list_bytes(after, list.push(ptr)) == list_bytes(mem, list) + after[ptr].size,
{
    let more = list.push(ptr);
    assert(!list.contains(ptr)) by {
        if list.contains(ptr) {
            let x = choose|x: int| 0 <= x < list.len() && list[x] == ptr;
            assert(mem.contains_key(list[x]));
        }
    }
    assert forall|x: int, y: int| 0 <= x < more.len() && 0 <= y < more.len() && x != y implies more[x]
        != more[y] by {
        if x < list.len() && y < list.len() {
            assert(list[x] != list[y]);
        } else if x < list.len() {
            assert(list.contains(list[x]));
        } else {
            assert(list.contains(list[y]));
        }
    }
    assert forall|i: int| 0 <= i < more.len() implies after.contains_key(#[trigger] more[i])
        && after[more[i]].succ == at(more, i + 1) by {
        if i < list.len() {
            assert(mem.contains_key(list[i]));
            assert(list[i] != ptr);
            assert(mem[list[i]].succ == at(list, i + 1));
            if i < list.len() - 1 {
                assert(list[i] != list[list.len() - 1]);
            }
        }
    }
    assert forall|a: Address| #[trigger] after.contains_key(a) implies more.contains(a) by {
        if a == ptr {
            assert(more[list.len() as int] == a);
        } else {
            assert(mem.contains_key(a));
            let x = choose|x: int| 0 <= x < list.len() && list[x] == a;
            assert(more[x] == a);
        }
    }
    assert forall|a: Address| #[trigger] after.contains_key(a) implies refs_ok(after, after[a].fields) by {
        if a != ptr {
            assert(mem.contains_key(a));
            assert(refs_ok(mem, mem[a].fields));
            assert forall|i: int| 0 <= i < after[a].fields.len() implies (
            #[trigger] after[a].fields[i])@ == 0 || after.contains_key(after[a].fields[i]) by {
                let f = mem[a].fields[i];
                if f@ != 0 {
                    assert(mem.contains_key(f));
                    assert(f != ptr);
                }
            }
        }
    }
    assert(!after.contains_key(Address(0)));
    assert forall|i: int| 0 <= i < list.len() implies mem[#[trigger] list[i]].size
        == after[list[i]].size by {
        assert(mem.contains_key(list[i]));
    }
    lemma_list_bytes_same(mem, after, list);
    lemma_list_bytes_push(after, list, ptr);
}

/// Where no object has the mark of the cycle, a collection keeps every
/// object to which a path leads from a literal or a root along references:
/// the object stays at its place with its size and its fields, and is not
/// among the objects freed.
pub proof fn lemma_reachable_survives(
    before: Gc,
    ctxt: &Context,
    after: Gc,
    freed: Seq<Address>,
    path: Seq<Address>,
)
    requires
        before.wf(),
        before.all_white(),
        before.can_collect(ctxt),
        before.collected(ctxt, after, freed),
        path.len() > 0,
        all_roots(ctxt.literals@, rootset(ctxt).unwrap()).contains(path[0]),
        forall|i: int| 0 <= i < path.len() ==> before.store@.contains_key(#[trigger] path[i]),
        forall|i: int|
            0 <= i < path.len() - 1 ==> before.store@[#[trigger] path[i]].fields.contains(path[i + 1]),
    ensures
        after.store@.contains_key(path.last()),
        after.store@[path.last()].fields == before.store@[path.last()].fields,
        after.store@[path.last()].size == before.store@[path.last()].size,
        !freed.contains(path.last()),
{
    let start = before.store@;
    let colour = before.cur_marked;
    let roots = all_roots(ctxt.literals@, rootset(ctxt).unwrap());
    let marked = traced(start, colour, roots);
    let a = path.last();
    assert(white_path(start, colour, roots, path));
    assert(reaches(start, colour, roots, a));
    assert(start.contains_key(path[path.len() - 1]));
    lemma_kept_list(marked, before.list@, colour);
    assert(before.list@.contains(a));
    assert(after.list@.contains(a));
    let x = choose|x: int| 0 <= x < after.list@.len() && after.list@[x] == a;
    assert(after.store@[after.list@[x]].fields == marked[a].fields);
    assert(after.store@.contains_key(a));
}

} // verus!
