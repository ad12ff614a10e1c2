//! The large object space: page-granular allocations for objects above a size
//! threshold, threaded on a doubly-linked list, with a first-fit free list that
//! coalesces after a sweep.

use crate::address::{Address, Region};
use crate::controller::HeapConfig;
use crate::mem::{PAGE_SIZE, is_page_aligned, page_align, spec_is_page_aligned, spec_page_align};
use std::collections::HashMap;
use vstd::prelude::*;

verus! {

/// Objects of at least this size are allocated in the large object space.
pub const LARGE_OBJECT_SIZE: usize = 16384;

/// The size in bytes of the record that precedes every large object.
pub const LARGE_ALLOC_SIZE: usize = 24;

/// A non-empty half-open interval `[start, end)` of the large object space.
#[derive(Copy, Clone, PartialEq, Eq, Structural, Debug)]
pub struct Range {
    pub start: Address,
    pub end: Address,
}

impl Range {
    pub open spec fn spec_contains(&self, ptr: Address) -> bool {
        self.start@ <= ptr@ < self.end@
    }

    pub open spec fn spec_size(self) -> int {
        self.end@ - self.start@
    }

    /// Whether the two intervals have no address in common.
    pub open spec fn disjoint(self, other: Range) -> bool {
        self.end@ <= other.start@ || other.end@ <= self.start@
    }

    pub fn new(start: Address, end: Address) -> (r: Range)
        requires
            start@ < end@,
        ensures
            r == (Range { start, end }),
    {
        Range { start, end }
    }

    #[verifier::when_used_as_spec(spec_contains)]
    pub fn contains(&self, ptr: Address) -> (r: bool)
        ensures
            r == self.spec_contains(ptr),
    {
        self.start.0 <= ptr.0 && ptr.0 < self.end.0
    }

    pub fn size(&self) -> (r: usize)
        requires
            self.start@ <= self.end@,
        ensures
            r == self.spec_size(),
    {
        self.end.offset_from(self.start)
    }
}

/// The record at the start of a large allocation: its place on the list of
/// live allocations and its size, together with the address it is stored at.
#[derive(Copy, Clone, PartialEq, Eq, Structural, Debug)]
pub struct LargeAlloc {
    pub addr: Address,
    pub prev: Address,
    pub next: Address,
    pub size: usize,
}

impl LargeAlloc {
    /// The record stored at `addr`, if `addr` is the start of a live allocation.
    pub fn from_address(space: &LargeSpaceProtected, addr: Address) -> (r: Option<LargeAlloc>)
        requires
            space.wf(),
        ensures
            r.is_some() == space.is_allocation(addr),
            r.is_some() ==> r.unwrap() == space.record(addr),
    {
        broadcast use vstd::std_specs::hash::group_hash_axioms;

        match space.allocs.get(&addr.0) {
            Some(record) => Some(*record),
            None => None,
        }
    }

    /// The address of the object that follows the record.
    pub fn object_address(&self) -> (r: Address)
        requires
            self.addr@ + LARGE_ALLOC_SIZE <= usize::MAX,
        ensures
            r@ == self.addr@ + LARGE_ALLOC_SIZE,
    {
        self.addr.offset(LARGE_ALLOC_SIZE)
    }
}

/// The sum of the sizes of the ranges.
pub open spec fn ranges_total(s: Seq<Range>) -> int
    decreases s.len(),
{
    if s.len() == 0 {
        0
    } else {
        ranges_total(s.drop_last()) + s.last().spec_size()
    }
}

/// The total of a sequence with one more range.
pub proof fn lemma_total_push(s: Seq<Range>, r: Range)
    ensures
        ranges_total(s.push(r)) == ranges_total(s) + r.spec_size(),
{
    assert(s.push(r).drop_last() =~= s);
}

/// The total of two sequences joined.
pub proof fn lemma_total_concat(a: Seq<Range>, b: Seq<Range>)
    ensures
        ranges_total(a + b) == ranges_total(a) + ranges_total(b),
    decreases b.len(),
{
    if b.len() == 0 {
        assert(a + b =~= a);
    } else {
        lemma_total_concat(a, b.drop_last());
        assert((a + b).drop_last() =~= a + b.drop_last());
    }
}

/// The total of a single range.
pub proof fn lemma_total_single(r: Range)
    ensures
        ranges_total(seq![r]) == r.spec_size(),
{
    assert(seq![r].drop_last() =~= Seq::<Range>::empty());
    reveal_with_fuel(ranges_total, 2);
}

/// The total without the range at `i`.
pub proof fn lemma_total_remove(s: Seq<Range>, i: int)
    requires
        0 <= i < s.len(),
    ensures
        ranges_total(s.remove(i)) == ranges_total(s) - s[i].spec_size(),
{
    let a = s.take(i);
    let b = s.skip(i + 1);
    assert(s =~= a + seq![s[i]] + b);
    assert(s.remove(i) =~= a + b);
    lemma_total_concat(a, seq![s[i]]);
    lemma_total_concat(a + seq![s[i]], b);
    lemma_total_concat(a, b);
    lemma_total_single(s[i]);
}

/// The total with the range at `i` replaced.
pub proof fn lemma_total_update(s: Seq<Range>, i: int, r: Range)
    requires
        0 <= i < s.len(),
    ensures
        ranges_total(s.update(i, r)) == ranges_total(s) - s[i].spec_size() + r.spec_size(),
{
    let a = s.take(i);
    let b = s.skip(i + 1);
    assert(s =~= a + seq![s[i]] + b);
    assert(s.update(i, r) =~= a + seq![r] + b);
    lemma_total_concat(a, seq![s[i]]);
    lemma_total_concat(a + seq![s[i]], b);
    lemma_total_concat(a, seq![r]);
    lemma_total_concat(a + seq![r], b);
    lemma_total_single(s[i]);
    lemma_total_single(r);
}

/// The total of ranges that end at or above their start is not negative.
pub proof fn lemma_total_nonneg(s: Seq<Range>)
    requires
        forall|i: int| 0 <= i < s.len() ==> (#[trigger] s[i]).start@ <= s[i].end@,
    ensures
        0 <= ranges_total(s),
    decreases s.len(),
{
    if s.len() > 0 {
        lemma_total_nonneg(s.drop_last());
    }
}

/// The total does not depend on the order of the ranges.
pub proof fn lemma_total_permutation(a: Seq<Range>, b: Seq<Range>)
    requires
        a.to_multiset() == b.to_multiset(),
    ensures
        ranges_total(a) == ranges_total(b),
    decreases a.len(),
{
    broadcast use vstd::seq_lib::group_to_multiset_ensures;

    if a.len() == 0 {
        assert(a.to_multiset().len() == a.len());
        assert(b.to_multiset().len() == b.len());
    } else {
        let x = a.last();
        assert(a.to_multiset().count(x) > 0);
        assert(b.contains(x));
        let j = choose|j: int| 0 <= j < b.len() && b[j] == x;
        assert(a.drop_last() =~= a.remove(a.len() - 1));
        lemma_total_permutation(a.drop_last(), b.remove(j));
        lemma_total_remove(b, j);
    }
}

/// Whether `ptr` lies in one of the ranges.
pub open spec fn covered(s: Seq<Range>, ptr: Address) -> bool {
    exists|i: int| 0 <= i < s.len() && #[trigger] s[i].spec_contains(ptr)
}

/// An address is covered by a sequence with one more range where it was
/// covered before or lies in that range.
pub proof fn lemma_covered_push(s: Seq<Range>, r: Range, ptr: Address)
    ensures
        covered(s.push(r), ptr) == (covered(s, ptr) || r.spec_contains(ptr)),
{
    let t = s.push(r);
    if covered(s, ptr) {
        let i = choose|i: int| 0 <= i < s.len() && #[trigger] s[i].spec_contains(ptr);
        assert(t[i].spec_contains(ptr));
    }
    if r.spec_contains(ptr) {
        assert(t[s.len() as int].spec_contains(ptr));
    }
    if covered(t, ptr) {
        let i = choose|i: int| 0 <= i < t.len() && #[trigger] t[i].spec_contains(ptr);
        if i < s.len() {
            assert(s[i].spec_contains(ptr));
        }
    }
}

/// Where the range at `i` is replaced by one that holds it, an address is
/// covered if it was covered before or lies in the new range.
pub proof fn lemma_covered_widen(s: Seq<Range>, i: int, r: Range, ptr: Address)
    requires
        0 <= i < s.len(),
        r.start@ <= s[i].start@,
        s[i].end@ <= r.end@,
    ensures
        covered(s.update(i, r), ptr) == (covered(s, ptr) || r.spec_contains(ptr)),
{
    let t = s.update(i, r);
    if covered(s, ptr) {
        let k = choose|k: int| 0 <= k < s.len() && #[trigger] s[k].spec_contains(ptr);
        assert(t[k].spec_contains(ptr));
    }
    if r.spec_contains(ptr) {
        assert(t[i].spec_contains(ptr));
    }
    if covered(t, ptr) {
        let k = choose|k: int| 0 <= k < t.len() && #[trigger] t[k].spec_contains(ptr);
        if k != i {
            assert(s[k].spec_contains(ptr));
        }
    }
}

/// Sorts the ranges by their start with `sort_unstable_by_key` of slices:
/// afterwards the vector holds the same ranges, each as often as before, and
/// the starts ascend.
#[verifier::external_body]
fn sort_by_start(elements: &mut Vec<Range>)
    ensures
        final(elements)@.to_multiset() == old(elements)@.to_multiset(),
        forall|i: int, j: int|
            0 <= i < j < final(elements)@.len() ==> (#[trigger] final(elements)@[i]).start@ <= (#[trigger] final(elements)@[j]).start@,
{
    elements.sort_unstable_by_key(|range| range.start.0);
}

/// Joins every run of ranges in which each ends where the next starts into
/// one range. The ranges must ascend without overlap.
fn coalesce(elements: &mut Vec<Range>)
    requires
        forall|i: int| 0 <= i < old(elements)@.len() ==> (#[trigger] old(elements)@[i]).start@ < old(elements)@[i].end@,
        forall|i: int, j: int|
            0 <= i < j < old(elements)@.len() ==> (#[trigger] old(elements)@[i]).end@ <= (#[trigger] old(elements)@[j]).start@,
    ensures
        sorted_apart(final(elements)@),
        forall|ptr: Address| covered(final(elements)@, ptr) == covered(old(elements)@, ptr),
        ranges_total(final(elements)@) == ranges_total(old(elements)@),
        forall|k: int|
            0 <= k < final(elements)@.len() ==> (#[trigger] final(elements)@[k]).start@ < final(elements)@[k].end@,
        forall|k: int|
            0 <= k < final(elements)@.len() ==> exists|p: int|
                0 <= p < old(elements)@.len() && (#[trigger] old(elements)@[p]).start == (#[trigger] final(elements)@[k]).start,
{
    let len = elements.len();
    let ghost sorted = elements@;
    if len == 0 {
        elements.truncate(1);
        return ;
    }
    let mut last_element: usize = 0;
    let mut i: usize = 1;
    proof {
        assert(elements@.take(1) =~= sorted.take(1));
    }
    while i < len
        invariant
            1 <= i <= len,
            last_element < i,
            len == sorted.len(),
            elements@.len() == len,
            forall|k: int| 0 <= k < len ==> (#[trigger] sorted[k]).start@ < sorted[k].end@,
            forall|a: int, b: int|
                0 <= a < b < len ==> (#[trigger] sorted[a]).end@ <= (#[trigger] sorted[b]).start@,
            forall|k: int| i <= k < len ==> elements@[k] == sorted[k],
            elements@[last_element as int].end == sorted[i - 1].end,
            forall|k: int|
                0 <= k <= last_element ==> (#[trigger] elements@[k]).start@ < elements@[k].end@,
            forall|k: int|
                0 <= k <= last_element ==> exists|p: int|
                    0 <= p < len && (#[trigger] sorted[p]).start == (#[trigger] elements@[k]).start,
            forall|a: int, b: int|
                0 <= a < b <= last_element ==> (#[trigger] elements@[a]).end@ < (
                #[trigger] elements@[b]).start@,
            forall|ptr: Address|
                covered(elements@.take(last_element + 1), ptr) == covered(sorted.take(i as int), ptr),
            ranges_total(elements@.take(last_element + 1)) == ranges_total(sorted.take(i as int)),
        decreases len - i,
    {
        let ghost before = elements@;
        let ghost head = before.take(last_element + 1);
        let next = elements[i];
        assert(next == sorted[i as int]);
        assert(sorted[i - 1].end@ <= sorted[i as int].start@);
        assert(sorted.take(i + 1) =~= sorted.take(i as int).push(next));
        proof {
            lemma_total_push(sorted.take(i as int), next);
        }
        if elements[last_element].end.0 == next.start.0 {
            let joined = Range { start: elements[last_element].start, end: next.end };
            elements[last_element] = joined;
            proof {
                assert(elements@.take(last_element + 1) =~= head.update(last_element as int, joined));
                lemma_total_update(head, last_element as int, joined);
                let ghost grown = sorted.take(i + 1);
                assert forall|ptr: Address|
                    covered(elements@.take(last_element + 1), ptr) == #[trigger] covered(grown, ptr) by {
                    lemma_covered_widen(head, last_element as int, joined, ptr);
                    lemma_covered_push(sorted.take(i as int), next, ptr);
                    if joined.spec_contains(ptr) && !next.spec_contains(ptr) {
                        assert(head[last_element as int].spec_contains(ptr));
                    }
                }
                assert forall|k: int| 0 <= k <= last_element implies exists|p: int|
                    0 <= p < len && (#[trigger] sorted[p]).start == (#[trigger] elements@[k]).start by {
                    let p = choose|p: int|
                        0 <= p < len && (#[trigger] sorted[p]).start == (#[trigger] before[k]).start;
                    assert(sorted[p].start == elements@[k].start);
                }
            }
        } else {
            last_element += 1;
            elements[last_element] = next;
            proof {
                assert(elements@.take(last_element + 1) =~= head.push(next));
                lemma_total_push(head, next);
                let ghost grown = sorted.take(i + 1);
                assert forall|ptr: Address|
                    covered(elements@.take(last_element + 1), ptr) == #[trigger] covered(grown, ptr) by {
                    lemma_covered_push(head, next, ptr);
                    lemma_covered_push(sorted.take(i as int), next, ptr);
                }
                assert forall|k: int| 0 <= k <= last_element implies exists|p: int|
                    0 <= p < len && (#[trigger] sorted[p]).start == (#[trigger] elements@[k]).start by {
                    if k < last_element {
                        let p = choose|p: int|
                            0 <= p < len && (#[trigger] sorted[p]).start == (
                            #[trigger] before[k]).start;
                        assert(sorted[p].start == elements@[k].start);
                    } else {
                        assert(sorted[i as int].start == elements@[k].start);
                    }
                }
                assert forall|a: int, b: int| 0 <= a < b <= last_element implies (
                #[trigger] elements@[a]).end@ < (#[trigger] elements@[b]).start@ by {
                    if b == last_element {
                        if a < last_element - 1 {
                            assert(before[a].end@ < before[last_element - 1].start@);
                        }
                    } else {
                        assert(before[a].end@ < before[b].start@);
                    }
                }
            }
        }
        i += 1;
    }
    elements.truncate(last_element + 1);
    proof {
        assert(sorted.take(len as int) =~= sorted);
    }
}

/// Whether the ranges ascend with a gap between any two of them.
pub open spec fn sorted_apart(s: Seq<Range>) -> bool {
    forall|i: int, j: int| 0 <= i < j < s.len() ==> #[trigger] s[i].end@ < #[trigger] s[j].start@
}

/// Whether no two of the ranges share an address.
pub open spec fn pairwise_disjoint(s: Seq<Range>) -> bool {
    forall|i: int, j: int| 0 <= i < j < s.len() ==> (#[trigger] s[i]).disjoint(#[trigger] s[j])
}

/// The ranges of `live` whose flag in `keep` is set, in their order.
pub open spec fn kept(live: Seq<Range>, keep: Seq<bool>) -> Seq<Range>
    decreases live.len(),
{
    if live.len() == 0 || keep.len() == 0 {
        Seq::empty()
    } else if keep.last() {
        kept(live.drop_last(), keep.drop_last()).push(live.last())
    } else {
        kept(live.drop_last(), keep.drop_last())
    }
}

/// The ranges of `live` whose flag in `keep` is clear, in their order.
pub open spec fn dropped(live: Seq<Range>, keep: Seq<bool>) -> Seq<Range>
    decreases live.len(),
{
    if live.len() == 0 || keep.len() == 0 {
        Seq::empty()
    } else if keep.last() {
        dropped(live.drop_last(), keep.drop_last())
    } else {
        dropped(live.drop_last(), keep.drop_last()).push(live.last())
    }
}

/// Whether `range` is one of the ranges `live` whose flag in `keep` is set.
pub open spec fn flagged(live: Seq<Range>, keep: Seq<bool>, range: Range) -> bool {
    exists|j: int| 0 <= j < live.len() && #[trigger] live[j] == range && keep[j]
}

/// What a sweep keeps: each range kept is one of the ranges swept, with
/// its flag set.
pub proof fn lemma_kept_members(live: Seq<Range>, keep: Seq<bool>)
    requires
        keep.len() == live.len(),
    ensures
        forall|i: int|
            0 <= i < kept(live, keep).len() ==> flagged(live, keep, #[trigger] kept(live, keep)[i]),
    decreases live.len(),
{
    let r = kept(live, keep);
    if live.len() > 0 {
        let front = live.drop_last();
        let flags = keep.drop_last();
        let rest = kept(front, flags);
        lemma_kept_members(front, flags);
        let n = live.len() - 1;
        assert forall|i: int| 0 <= i < r.len() implies flagged(live, keep, #[trigger] r[i]) by {
            if keep.last() && i == rest.len() {
                assert(live[n] == r[i] && keep[n]);
            } else {
                assert(rest[i] == r[i]);
                assert(flagged(front, flags, rest[i]));
                let j = choose|j: int| 0 <= j < front.len() && #[trigger] front[j] == rest[i] && flags[j];
                assert(live[j] == r[i] && keep[j]);
            }
        }
    }
}

/// The address of the object in each allocation.
pub open spec fn object_addresses(live: Seq<Range>) -> Seq<Address> {
    Seq::new(live.len(), |i: int| Address((live[i].start@ + LARGE_ALLOC_SIZE) as usize))
}

/// What the large object space holds: the range it manages, its free ranges in
/// the order of the free list, and its live allocations from the head of the list.
pub ghost struct LargeSpaceView {
    pub total: Region,
    pub free: Seq<Range>,
    pub live: Seq<Range>,
}

impl LargeSpaceView {
    /// Whether `r` is a non-empty range of the space that starts at a page.
    pub open spec fn range_ok(self, r: Range) -> bool {
        &&& r.start@ < r.end@
        &&& self.total.start@ <= r.start@
        &&& r.end@ <= self.total.end@
        &&& spec_is_page_aligned(r.start.0)
    }

    /// The invariant of the space: free ranges and allocations are non-empty,
    /// start at a page, lie in the space, share no address, and together have
    /// the size of the space; allocations are whole pages.
    #[verifier::opaque]
    pub open spec fn inv(self) -> bool {
        &&& 0 < self.total.start@ < self.total.end@
        &&& spec_is_page_aligned(self.total.start.0)
        &&& forall|i: int| 0 <= i < self.free.len() ==> self.range_ok(#[trigger] self.free[i])
        &&& forall|i: int| 0 <= i < self.live.len() ==> self.range_ok(#[trigger] self.live[i])
        &&& forall|i: int|
            0 <= i < self.live.len() ==> (#[trigger] self.live[i]).spec_size() % (PAGE_SIZE as int)
                == 0
        &&& pairwise_disjoint(self.free)
        &&& pairwise_disjoint(self.live)
        &&& forall|i: int, j: int|
            0 <= i < self.free.len() && 0 <= j < self.live.len() ==> (#[trigger] self.free[i]).disjoint(
                #[trigger] self.live[j],
            )
        &&& ranges_total(self.free) + ranges_total(self.live) == self.total.spec_size()
    }

    /// Whether `i` is the first free range that holds `size` bytes.
    pub open spec fn first_fit(self, size: usize, i: int) -> bool {
        &&& 0 <= i < self.free.len()
        &&& self.free[i].spec_size() >= size
        &&& forall|k: int| 0 <= k < i ==> (#[trigger] self.free[k]).spec_size() < size
    }

    /// Whether no free range holds `size` bytes.
    pub open spec fn no_fit(self, size: usize) -> bool {
        forall|k: int| 0 <= k < self.free.len() ==> (#[trigger] self.free[k]).spec_size() < size
    }

    /// Whether `after` and `r` are what an allocation of `size` bytes makes of
    /// the space: where no free range holds them, the space as it was and
    /// null; otherwise the space with the bytes taken from the first free
    /// range that holds them, and the address behind the record at their start.
    pub open spec fn takes(self, size: usize, after: LargeSpaceView, r: Address) -> bool {
        &&& r@ == 0 <==> self.no_fit(size)
        &&& r@ == 0 ==> after == self
        &&& r@ != 0 ==> exists|i: int| #[trigger]
            self.first_fit(size, i) && after == self.allocated(i, size) && r@ == self.free[i].start@
                + LARGE_ALLOC_SIZE
        &&& forall|i: int| #[trigger]
            self.first_fit(size, i) ==> after == self.allocated(i, size) && r@ == self.free[i].start@
                + LARGE_ALLOC_SIZE
    }

    /// Whether `after`, `granted` and `r` are what an allocation of an object
    /// of `size` bytes makes of the space under the controller `config`: the
    /// record and the object, rounded up to whole pages, are asked of the
    /// controller; where it refuses, nothing changes and `r` is null;
    /// otherwise the growth is counted and the pages are taken from the space.
    pub open spec fn allocates(
        self,
        config: HeapConfig,
        size: usize,
        after: LargeSpaceView,
        granted: HeapConfig,
        r: Address,
    ) -> bool {
        let need = spec_page_align(LARGE_ALLOC_SIZE + size);
        if !config.can_grow_old(need) {
            r@ == 0 && after == self && granted == config
        } else {
            &&& granted == (HeapConfig {
                old_size: (config.old_size + need) as usize,
                old_limit: config.old_limit,
            })
            &&& self.takes(need as usize, after, r)
        }
    }

    /// The space after allocation `x` was given back to the free list.
    pub open spec fn released(self, x: int) -> LargeSpaceView {
        LargeSpaceView {
            total: self.total,
            free: self.free.push(self.live[x]),
            live: self.live.remove(x),
        }
    }

    /// The space after `size` bytes were taken from the start of free range `i`.
    pub open spec fn allocated(self, i: int, size: usize) -> LargeSpaceView {
        let range = self.free[i];
        let taken = Range { start: range.start, end: Address((range.start@ + size) as usize) };
        LargeSpaceView {
            total: self.total,
            free: if range.spec_size() == size {
                self.free.remove(i)
            } else {
                self.free.update(i, Range { start: taken.end, end: range.end })
            },
            live: seq![taken] + self.live,
        }
    }
}

/// Taking `size` bytes from the start of a free range that holds them keeps
/// the invariant, and adds `size` to the size of all allocations.
pub proof fn lemma_allocate_inv(v: LargeSpaceView, i: int, size: usize)
    requires
        v.inv(),
        0 <= i < v.free.len(),
        v.free[i].spec_size() >= size,
        size > 0,
        spec_is_page_aligned(size),
    ensures
        v.allocated(i, size).inv(),
        ranges_total(v.allocated(i, size).live) == ranges_total(v.live) + size,
        ranges_total(v.allocated(i, size).live) <= v.total.spec_size(),
        0 < v.free[i].start@,
        forall|j: int| 0 <= j < v.live.len() ==> (#[trigger] v.live[j]).start != v.free[i].start,
{
    reveal(LargeSpaceView::inv);
    let range = v.free[i];
    let taken = Range { start: range.start, end: Address((range.start@ + size) as usize) };
    let rest = Range { start: taken.end, end: range.end };
    let w = v.allocated(i, size);
    assert(v.range_ok(range));
    assert(taken.spec_size() == size);
    lemma_total_single(taken);
    lemma_total_concat(seq![taken], v.live);
    if range.spec_size() == size {
        lemma_total_remove(v.free, i);
        assert forall|k: int| 0 <= k < w.free.len() implies w.range_ok(#[trigger] w.free[k]) && w.free[k].disjoint(taken) by {
            if k < i {
                assert(w.free[k] == v.free[k]);
                assert(v.free[k].disjoint(v.free[i]));
            } else {
                assert(w.free[k] == v.free[k + 1]);
                assert(v.free[i].disjoint(v.free[k + 1]));
            }
        }
        assert forall|k: int, l: int| 0 <= k < l < w.free.len() implies (#[trigger] w.free[k]).disjoint(#[trigger] w.free[l]) by {
            let k0 = if k < i { k } else { k + 1 };
            let l0 = if l < i { l } else { l + 1 };
            assert(w.free[k] == v.free[k0]);
            assert(w.free[l] == v.free[l0]);
            assert(v.free[k0].disjoint(v.free[l0]));
        }
        assert forall|k: int, l: int| 0 <= k < w.free.len() && 0 <= l < v.live.len() implies (#[trigger] w.free[k]).disjoint(#[trigger] v.live[l]) by {
            let k0 = if k < i { k } else { k + 1 };
            assert(w.free[k] == v.free[k0]);
            assert(v.free[k0].disjoint(v.live[l]));
        }
    } else {
        lemma_total_update(v.free, i, rest);
        assert forall|k: int| 0 <= k < w.free.len() implies w.range_ok(#[trigger] w.free[k]) && w.free[k].disjoint(taken) by {
            if k != i {
                assert(w.free[k] == v.free[k]);
                if k < i {
                    assert(v.free[k].disjoint(v.free[i]));
                } else {
                    assert(v.free[i].disjoint(v.free[k]));
                }
            }
        }
        assert forall|k: int, l: int| 0 <= k < l < w.free.len() implies (#[trigger] w.free[k]).disjoint(#[trigger] w.free[l]) by {
            assert(v.free[k].disjoint(v.free[l]));
        }
        assert forall|k: int, l: int| 0 <= k < w.free.len() && 0 <= l < v.live.len() implies (#[trigger] w.free[k]).disjoint(#[trigger] v.live[l]) by {
            assert(v.free[k].disjoint(v.live[l]));
        }
    }
    lemma_total_nonneg(w.free);
    assert forall|j: int| 0 <= j < v.live.len() implies (#[trigger] v.live[j]).start != v.free[i].start by {
        assert(v.free[i].disjoint(v.live[j]));
        assert(v.range_ok(v.live[j]));
    }
    assert forall|l: int| 0 <= l < w.live.len() implies w.range_ok(#[trigger] w.live[l])
        && w.live[l].spec_size() % (PAGE_SIZE as int) == 0 by {
        if l > 0 {
            assert(w.live[l] == v.live[l - 1]);
        }
    }
    assert forall|k: int, l: int| 0 <= k < l < w.live.len() implies (#[trigger] w.live[k]).disjoint(#[trigger] w.live[l]) by {
        assert(w.live[l] == v.live[l - 1]);
        assert(v.free[i].disjoint(v.live[l - 1]));
        if k > 0 {
            assert(w.live[k] == v.live[k - 1]);
            assert(v.live[k - 1].disjoint(v.live[l - 1]));
        }
    }
    assert forall|k: int, l: int| 0 <= k < w.free.len() && 0 <= l < w.live.len() implies (#[trigger] w.free[k]).disjoint(#[trigger] w.live[l]) by {
        if l > 0 {
            assert(w.live[l] == v.live[l - 1]);
            assert(w.free[k].disjoint(v.live[l - 1]));
        }
    }
}

/// Giving an allocation back to the free list keeps the invariant, and takes
/// its size from the size of all allocations.
pub proof fn lemma_release_inv(v: LargeSpaceView, x: int)
    requires
        v.inv(),
        0 <= x < v.live.len(),
    ensures
        v.released(x).inv(),
        ranges_total(v.released(x).live) == ranges_total(v.live) - v.live[x].spec_size(),
        ranges_total(v.released(x).live) >= 0,
{
    reveal(LargeSpaceView::inv);
    let w = v.released(x);
    let given = v.live[x];
    lemma_total_remove(v.live, x);
    lemma_total_push(v.free, given);
    assert forall|l: int| 0 <= l < w.live.len() implies w.range_ok(#[trigger] w.live[l])
        && w.live[l].spec_size() % (PAGE_SIZE as int) == 0 && w.live[l].disjoint(given) by {
        let l0 = if l < x { l } else { l + 1 };
        assert(w.live[l] == v.live[l0]);
        assert(v.range_ok(v.live[l0]));
        if l0 < x {
            assert(v.live[l0].disjoint(v.live[x]));
        } else {
            assert(v.live[x].disjoint(v.live[l0]));
        }
    }
    lemma_total_nonneg(w.live);
    assert forall|k: int| 0 <= k < w.free.len() implies w.range_ok(#[trigger] w.free[k]) by {
        if k < v.free.len() {
            assert(w.free[k] == v.free[k]);
            assert(v.range_ok(v.free[k]));
        } else {
            assert(v.range_ok(v.live[x]));
        }
    }
    assert forall|k: int, l: int| 0 <= k < l < w.free.len() implies (#[trigger] w.free[k]).disjoint(
        #[trigger] w.free[l],
    ) by {
        if l < v.free.len() {
            assert(v.free[k].disjoint(v.free[l]));
        } else {
            assert(v.free[k].disjoint(v.live[x]));
        }
    }
    assert forall|k: int, l: int| 0 <= k < l < w.live.len() implies (#[trigger] w.live[k]).disjoint(
        #[trigger] w.live[l],
    ) by {
        let k0 = if k < x { k } else { k + 1 };
        let l0 = if l < x { l } else { l + 1 };
        assert(w.live[k] == v.live[k0]);
        assert(w.live[l] == v.live[l0]);
        assert(v.live[k0].disjoint(v.live[l0]));
    }
    assert forall|k: int, l: int| 0 <= k < w.free.len() && 0 <= l < w.live.len() implies (
    #[trigger] w.free[k]).disjoint(#[trigger] w.live[l]) by {
        let l0 = if l < x { l } else { l + 1 };
        assert(w.live[l] == v.live[l0]);
        if k < v.free.len() {
            assert(v.free[k].disjoint(v.live[l0]));
        } else {
            assert(w.live[l].disjoint(given));
        }
    }
}

/// What the invariant says of each allocation: it is not empty, does not
/// start at null, is made of whole pages, and starts where no other does.
pub proof fn lemma_live_ranges(v: LargeSpaceView)
    requires
        v.inv(),
    ensures
        forall|i: int|
            0 <= i < v.live.len() ==> {
                &&& 0 < (#[trigger] v.live[i]).start@
                &&& v.live[i].start@ + PAGE_SIZE <= v.live[i].end@
                &&& v.live[i].spec_size() % (PAGE_SIZE as int) == 0
                &&& spec_is_page_aligned(v.live[i].start.0)
                &&& v.total.start@ <= v.live[i].start@
                &&& v.live[i].end@ <= v.total.end@
            },
        forall|i: int, j: int|
            0 <= i < v.live.len() && 0 <= j < v.live.len() && i != j ==> (#[trigger] v.live[i]).start
                != (#[trigger] v.live[j]).start,
{
    reveal(LargeSpaceView::inv);
    assert forall|i: int| 0 <= i < v.live.len() implies {
        &&& 0 < (#[trigger] v.live[i]).start@
        &&& v.live[i].start@ + PAGE_SIZE <= v.live[i].end@
        &&& v.live[i].spec_size() % (PAGE_SIZE as int) == 0
        &&& spec_is_page_aligned(v.live[i].start.0)
        &&& v.total.start@ <= v.live[i].start@
        &&& v.live[i].end@ <= v.total.end@
    } by {
        assert(v.range_ok(v.live[i]));
    }
    assert forall|i: int, j: int|
        0 <= i < v.live.len() && 0 <= j < v.live.len() && i != j implies (#[trigger] v.live[i]).start
        != (#[trigger] v.live[j]).start by {
        assert(v.range_ok(v.live[i]));
        assert(v.range_ok(v.live[j]));
        if i < j {
            assert(v.live[i].disjoint(v.live[j]));
        } else {
            assert(v.live[j].disjoint(v.live[i]));
        }
    }
}

/// Whether `records` holds the list of the allocations `live` in the middle
/// of a sweep that has decided to keep the first `k` of them: every
/// allocation has its record, each kept one points back to the kept one
/// before it and, but for the last, on to the next, and those not yet seen
/// point on as they did.
#[verifier::opaque]
pub open spec fn sweeping(
    records: Map<usize, LargeAlloc>,
    live: Seq<Range>,
    k: int,
    head: Address,
    prev: Address,
    cur: Address,
) -> bool {
    &&& 0 <= k <= live.len()
    &&& forall|m: int|
        0 <= m < live.len() ==> {
            &&& records.contains_key(#[trigger] live[m].start.0)
            &&& live[m].start@ != 0
            &&& live[m].start@ <= live[m].end@
            &&& records[live[m].start.0].addr == live[m].start
            &&& records[live[m].start.0].size == live[m].spec_size()
        }
    &&& forall|m: int| 0 <= m < k ==> records[#[trigger] live[m].start.0].prev == link(live, m - 1)
    &&& forall|m: int| 0 <= m < k - 1 ==> records[#[trigger] live[m].start.0].next == live[m + 1].start
    &&& forall|m: int|
        k <= m < live.len() ==> records[#[trigger] live[m].start.0].next == link(live, m + 1)
    &&& forall|key: usize| #[trigger]
        records.contains_key(key) ==> exists|m: int|
            0 <= m < live.len() && #[trigger] live[m].start.0 == key
    &&& k > 0 ==> head == live[0].start
    &&& prev == link(live, k - 1)
    &&& cur == link(live, k)
}

/// In the middle of a sweep the allocation to be decided next is null exactly
/// when all were decided, and is the one at `k` otherwise.
pub proof fn lemma_sweeping_current(
    records: Map<usize, LargeAlloc>,
    live: Seq<Range>,
    k: int,
    head: Address,
    prev: Address,
    cur: Address,
)
    requires
        sweeping(records, live, k, head, prev, cur),
    ensures
        0 <= k <= live.len(),
        cur@ == 0 <==> k == live.len(),
        k < live.len() ==> cur == live[k].start,
{
    reveal(sweeping);
    if k < live.len() {
        assert(records.contains_key(live[k].start.0));
    }
}

/// Ranges that ascend with a gap between any two of them are sorted by their
/// start and share no address.
pub proof fn lemma_sorted_apart_disjoint(s: Seq<Range>)
    requires
        sorted_apart(s),
        forall|i: int| 0 <= i < s.len() ==> (#[trigger] s[i]).start@ < s[i].end@,
    ensures
        pairwise_disjoint(s),
        forall|i: int, j: int| 0 <= i < j < s.len() ==> (#[trigger] s[i]).start@ < (#[trigger] s[j]).start@,
        forall|i: int, j: int, ptr: Address|
            0 <= i < s.len() && 0 <= j < s.len() && #[trigger] s[i].spec_contains(ptr)
                && #[trigger] s[j].spec_contains(ptr) ==> i == j,
{
    assert forall|i: int, j: int| 0 <= i < j < s.len() implies (#[trigger] s[i]).disjoint(
        #[trigger] s[j],
    ) by {
        assert(s[i].end@ < s[j].start@);
    }
    assert forall|i: int, j: int, ptr: Address|
        0 <= i < s.len() && 0 <= j < s.len() && #[trigger] s[i].spec_contains(ptr)
            && #[trigger] s[j].spec_contains(ptr) implies i == j by {
        if i < j {
            assert(s[i].end@ < s[j].start@);
        }
        if j < i {
            assert(s[j].end@ < s[i].start@);
        }
    }
}

/// Ranges that ascend with a gap between any two of them are shorter in all
/// than the stretch from the first start to the last end, by a byte for each gap.
pub proof fn lemma_sorted_apart_total(s: Seq<Range>)
    requires
        s.len() > 0,
        sorted_apart(s),
        forall|i: int| 0 <= i < s.len() ==> (#[trigger] s[i]).start@ < s[i].end@,
    ensures
        ranges_total(s) + s.len() - 1 <= s.last().end@ - s[0].start@,
    decreases s.len(),
{
    if s.len() == 1 {
        assert(s.drop_last() =~= Seq::<Range>::empty());
        reveal_with_fuel(ranges_total, 2);
    } else {
        let front = s.drop_last();
        assert forall|i: int, j: int| 0 <= i < j < front.len() implies #[trigger] front[i].end@
            < #[trigger] front[j].start@ by {
            assert(s[i].end@ < s[j].start@);
        }
        lemma_sorted_apart_total(front);
        assert(front.last() == s[s.len() - 2]);
        assert(s[s.len() - 2].end@ < s[s.len() - 1].start@);
    }
}

/// A space with no allocation whose free list was merged has one free range,
/// which is the whole space.
pub proof fn lemma_empty_merged_is_total(v: LargeSpaceView)
    requires
        v.inv(),
        v.live.len() == 0,
        sorted_apart(v.free),
    ensures
        v.free == seq![Range { start: v.total.start, end: v.total.end }],
{
    reveal(LargeSpaceView::inv);
    let s = v.free;
    assert(ranges_total(v.live) == 0);
    if s.len() == 0 {
        assert(ranges_total(s) == 0);
    } else {
        assert(v.range_ok(s[0]));
        assert(v.range_ok(s.last()));
        assert forall|i: int| 0 <= i < s.len() implies (#[trigger] s[i]).start@ < s[i].end@ by {
            assert(v.range_ok(s[i]));
        }
        lemma_sorted_apart_total(s);
        assert(s.len() == 1);
        assert(s =~= seq![Range { start: v.total.start, end: v.total.end }]);
    }
}

/// The state of the large object space that its lock guards.
pub struct LargeSpaceProtected {
    elements: Vec<Range>,
    head: Address,
    committed_size: usize,
    allocs: HashMap<usize, LargeAlloc>,
    live: Ghost<Seq<Range>>,
    total: Ghost<Region>,
}

impl View for LargeSpaceProtected {
    type V = LargeSpaceView;

    closed spec fn view(&self) -> LargeSpaceView {
        LargeSpaceView { total: self.total@, free: self.elements@, live: self.live@ }
    }
}

/// The address of the allocation at `i`, or null where the list has no such place.
pub open spec fn link(live: Seq<Range>, i: int) -> Address {
    if 0 <= i < live.len() {
        live[i].start
    } else {
        Address(0)
    }
}

/// Whether `records` holds the doubly-linked list of the allocations `live`
/// that starts at `head`, and nothing else.
pub open spec fn linked(records: Map<usize, LargeAlloc>, live: Seq<Range>, head: Address) -> bool {
    &&& forall|i: int|
        0 <= i < live.len() ==> {
            &&& records.contains_key(#[trigger] live[i].start.0)
            &&& live[i].start@ != 0
            &&& live[i].start@ <= live[i].end@
            &&& records[live[i].start.0] == (LargeAlloc {
                addr: live[i].start,
                prev: link(live, i - 1),
                next: link(live, i + 1),
                size: live[i].spec_size() as usize,
            })
        }
    &&& forall|k: usize| #[trigger]
        records.contains_key(k) ==> exists|i: int| 0 <= i < live.len() && #[trigger] live[i].start.0 == k
    &&& head == link(live, 0)
}

impl LargeSpaceProtected {
    /// Whether `addr` is the start of a live allocation.
    pub closed spec fn is_allocation(&self, addr: Address) -> bool {
        self.allocs@.contains_key(addr.0)
    }

    /// The record stored at `addr`.
    pub closed spec fn record(&self, addr: Address) -> LargeAlloc {
        self.allocs@[addr.0]
    }

    pub closed spec fn spec_head(&self) -> Address {
        self.head
    }

    pub closed spec fn spec_committed_size(&self) -> usize {
        self.committed_size
    }

    /// Whether the records form the doubly-linked list of the live allocations:
    /// each allocation has a record with its size and its neighbours, no other
    /// record exists, and the head is the first allocation.
    pub closed spec fn list_ok(&self) -> bool {
        linked(self.allocs@, self.live@, self.head)
    }

    /// What `list_ok` says of the records, of the addresses that have one, and
    /// of the head.
    pub proof fn lemma_list_ok(&self)
        requires
            self.list_ok(),
        ensures
            forall|i: int|
                0 <= i < self@.live.len() ==> {
                    &&& self.is_allocation(#[trigger] self@.live[i].start)
                    &&& self.record(self@.live[i].start) == (LargeAlloc {
                        addr: self@.live[i].start,
                        prev: link(self@.live, i - 1),
                        next: link(self@.live, i + 1),
                        size: self@.live[i].spec_size() as usize,
                    })
                },
            forall|a: Address|
                self.is_allocation(a) ==> exists|i: int|
                    0 <= i < self@.live.len() && #[trigger] self@.live[i].start == a,
            self.spec_head() == link(self@.live, 0),
    {
        assert forall|a: Address| self.is_allocation(a) implies exists|i: int|
            0 <= i < self@.live.len() && #[trigger] self@.live[i].start == a by {
            let i = choose|i: int| 0 <= i < self.live@.len() && #[trigger] self.live@[i].start.0 == a.0;
            assert(self@.live[i].start == a);
        }
    }

    /// Whether the space is well formed: its view meets the invariant, the
    /// records form the list, and the committed size is the size of all
    /// allocations.
    pub open spec fn wf(&self) -> bool {
        &&& self@.inv()
        &&& self.list_ok()
        &&& self.spec_committed_size() == ranges_total(self@.live)
    }

    /// A space over `[start, end)` with nothing allocated.
    pub fn new(start: Address, end: Address) -> (r: LargeSpaceProtected)
        requires
            0 < start@ < end@,
            is_page_aligned(start.0),
        ensures
            r.wf(),
            r@ == (LargeSpaceView {
                total: Region { start, end },
                free: seq![Range { start, end }],
                live: Seq::empty(),
            }),
    {
        let mut elements: Vec<Range> = Vec::new();
        elements.push(Range::new(start, end));
        let r = LargeSpaceProtected {
            elements,
            head: Address::null(),
            committed_size: 0,
            allocs: HashMap::new(),
            live: Ghost(Seq::empty()),
            total: Ghost(Region { start, end }),
        };
        proof {
            assert(r@.free =~= seq![Range { start, end }]);
            assert(r@.free.drop_last() =~= Seq::<Range>::empty());
            reveal_with_fuel(ranges_total, 2);
            reveal(LargeSpaceView::inv);
        }
        r
    }

    pub fn committed_size(&self) -> (r: usize)
        ensures
            r == self.spec_committed_size(),
    {
        self.committed_size
    }

    /// The start of the first live allocation, or null.
    pub fn head(&self) -> (r: Address)
        ensures
            r == self.spec_head(),
    {
        self.head
    }

    /// The free ranges, in the order of the free list.
    pub fn free_ranges(&self) -> (r: Vec<Range>)
        ensures
            r@ == self@.free,
    {
        let mut out: Vec<Range> = Vec::new();
        let mut i: usize = 0;
        while i < self.elements.len()
            invariant
                i <= self.elements.len(),
                out@ == self.elements@.take(i as int),
            decreases self.elements.len() - i,
        {
            out.push(self.elements[i]);
            proof {
                assert(self.elements@.take(i + 1) =~= self.elements@.take(i as int).push(
                    self.elements@[i as int],
                ));
            }
            i += 1;
        }
        proof {
            assert(self.elements@.take(i as int) =~= self.elements@);
        }
        out
    }

    /// Whether `ptr` lies in a free range.
    pub fn contains(&self, ptr: Address) -> (r: bool)
        ensures
            r == covered(self@.free, ptr),
    {
        let mut i: usize = 0;
        while i < self.elements.len()
            invariant
                i <= self.elements.len(),
                forall|k: int| 0 <= k < i ==> !(#[trigger] self.elements@[k]).spec_contains(ptr),
            decreases self.elements.len() - i,
        {
            if self.elements[i].contains(ptr) {
                return true;
            }
            i += 1;
        }
        false
    }

    /// Puts a record for the allocation `[addr, addr + size)` at the head of
    /// the list of live allocations.
    pub fn append_large_alloc(&mut self, addr: Address, size: usize)
        requires
            old(self).list_ok(),
            addr@ != 0,
            size > 0,
            addr@ + size <= usize::MAX,
            !old(self).is_allocation(addr),
        ensures
            final(self).list_ok(),
            final(self)@ == (LargeSpaceView {
                live: seq![Range { start: addr, end: Address((addr@ + size) as usize) }] + old(
                    self,
                )@.live,
                ..old(self)@
            }),
            final(self).spec_committed_size() == old(self).spec_committed_size(),
    {
        broadcast use vstd::std_specs::hash::group_hash_axioms;

        let ghost before = self.live@;
        let ghost taken = Range { start: addr, end: Address((addr@ + size) as usize) };
        if !self.head.is_null() {
            assert(self.allocs@.contains_key(before[0].start.0));
            let mut old_head = *self.allocs.get(&self.head.0).unwrap();
            old_head.prev = addr;
            self.allocs.insert(self.head.0, old_head);
        }
        let new_head = LargeAlloc { addr, prev: Address::null(), next: self.head, size };
        self.allocs.insert(addr.0, new_head);
        self.head = addr;
        self.live = Ghost(seq![taken] + before);
        proof {
            let live = self.live@;
            let records = self.allocs@;
            let old_records = old(self).allocs@;
            assert forall|i: int| 0 <= i < live.len() implies {
                &&& records.contains_key(#[trigger] live[i].start.0)
                &&& live[i].start@ != 0
                &&& live[i].start@ <= live[i].end@
                &&& records[live[i].start.0] == (LargeAlloc {
                    addr: live[i].start,
                    prev: link(live, i - 1),
                    next: link(live, i + 1),
                    size: live[i].spec_size() as usize,
                })
            } by {
                if i > 0 {
                    assert(live[i] == before[i - 1]);
                    assert(old_records.contains_key(before[i - 1].start.0));
                    assert(link(live, i + 1) == link(before, i));
                    if i > 1 {
                        assert(old_records.contains_key(before[0].start.0));
                        assert(before[i - 1].start != before[0].start);
                    }
                }
            }
            assert forall|k: usize| #[trigger] records.contains_key(k) implies exists|i: int|
                0 <= i < live.len() && #[trigger] live[i].start.0 == k by {
                if k == addr.0 {
                    assert(live[0].start.0 == k);
                } else {
                    assert(old_records.contains_key(k));
                    let j = choose|j: int| 0 <= j < before.len() && #[trigger] before[j].start.0 == k;
                    assert(live[j + 1].start.0 == k);
                }
            }
        }
    }

    /// Takes `size` bytes from the start of free range `i` and makes them the
    /// allocation at the head of the list.
    fn take_from(&mut self, i: usize, size: usize) -> (r: Address)
        requires
            old(self).wf(),
            size > 0,
            is_page_aligned(size),
            i < old(self)@.free.len(),
            old(self)@.free[i as int].spec_size() >= size,
        ensures
            final(self).wf(),
            final(self)@ == old(self)@.allocated(i as int, size),
            r@ == old(self)@.free[i as int].start@ + LARGE_ALLOC_SIZE,
    {
        let range = self.elements[i];
        let addr = range.start;
        proof {
            lemma_allocate_inv(self@, i as int, size);
            if self.is_allocation(addr) {
                self.lemma_list_ok();
                let j = choose|j: int|
                    0 <= j < self@.live.len() && #[trigger] self@.live[j].start == addr;
                assert(self@.live[j].start != self@.free[i as int].start);
            }
        }
        if range.size() == size {
            self.elements.remove(i);
        } else {
            self.elements[i] = Range::new(range.start.offset(size), range.end);
        }
        self.append_large_alloc(addr, size);
        self.committed_size += size;
        assert(self@ == old(self)@.allocated(i as int, size));
        addr.offset(LARGE_ALLOC_SIZE)
    }

    /// Takes `size` bytes from the first free range that holds them, makes
    /// them the allocation at the head of the list, and returns the address of
    /// the object in it; null, with nothing changed, where no free range holds
    /// `size` bytes.
    pub fn allocate(&mut self, size: usize) -> (r: Address)
        requires
            old(self).wf(),
            size > 0,
            is_page_aligned(size),
        ensures
            final(self).wf(),
            final(self)@.total == old(self)@.total,
            old(self)@.takes(size, final(self)@, r),
    {
        let len = self.elements.len();
        let mut i: usize = 0;
        while i < len
            invariant
                i <= len,
                len == self.elements@.len(),
                *self == *old(self),
                self.wf(),
                size > 0,
                is_page_aligned(size),
                forall|k: int| 0 <= k < i ==> (#[trigger] self.elements@[k]).spec_size() < size,
            decreases len - i,
        {
            proof {
                reveal(LargeSpaceView::inv);
                assert(self@.range_ok(self@.free[i as int]));
            }
            if self.elements[i].size() >= size {
                assert(old(self)@.first_fit(size, i as int));
                let r = self.take_from(i, size);
                proof {
                    assert forall|k: int| #[trigger] old(self)@.first_fit(size, k) implies k == i by {
                        if k < i {
                            assert(old(self)@.free[k].spec_size() < size);
                        }
                        if i < k {
                            assert(old(self)@.free[i as int].spec_size() < size);
                        }
                    }
                }
                return r;
            }
            i += 1;
        }
        Address::null()
    }

    /// Sorts the free ranges by their start and joins those that touch: the
    /// free list then ascends with a gap between any two ranges, and covers
    /// the addresses that it covered before. The allocations stay as they are.
    pub fn merge(&mut self)
        requires
            old(self).wf(),
        ensures
            final(self).wf(),
            final(self)@.total == old(self)@.total,
            final(self)@.live == old(self)@.live,
            sorted_apart(final(self)@.free),
            forall|ptr: Address| covered(final(self)@.free, ptr) == covered(old(self)@.free, ptr),
    {
        let ghost before = self.elements@;
        let ghost view = self@;
        sort_by_start(&mut self.elements);
        let ghost sorted = self.elements@;
        proof {
            reveal(LargeSpaceView::inv);
            broadcast use vstd::seq_lib::group_to_multiset_ensures;

            assert forall|i: int, j: int| 0 <= i < before.len() && 0 <= j < before.len() && i
                != j implies before[i] != before[j] by {
                assert(view.range_ok(before[i]));
                if i < j {
                    assert(before[i].disjoint(before[j]));
                } else {
                    assert(before[j].disjoint(before[i]));
                }
            }
            before.lemma_multiset_has_no_duplicates();
            sorted.lemma_multiset_has_no_duplicates_conv();
            lemma_total_permutation(sorted, before);
            assert forall|k: int| 0 <= k < sorted.len() implies before.contains(#[trigger] sorted[k]) by {
                assert(sorted.contains(sorted[k]));
                assert(sorted.to_multiset().count(sorted[k]) > 0);
            }
            assert forall|k: int| 0 <= k < before.len() implies sorted.contains(#[trigger] before[k]) by {
                assert(before.contains(before[k]));
                assert(before.to_multiset().count(before[k]) > 0);
            }
            assert forall|i: int| 0 <= i < sorted.len() implies (#[trigger] sorted[i]).start@
                < sorted[i].end@ by {
                assert(before.contains(sorted[i]));
            }
            assert forall|i: int, j: int| 0 <= i < j < sorted.len() implies (#[trigger] sorted[i]).end@
                <= (#[trigger] sorted[j]).start@ by {
                assert(before.contains(sorted[i]));
                assert(before.contains(sorted[j]));
                let a = choose|a: int| 0 <= a < before.len() && before[a] == sorted[i];
                let b = choose|b: int| 0 <= b < before.len() && before[b] == sorted[j];
                assert(sorted[i] != sorted[j]);
                if a < b {
                    assert(before[a].disjoint(before[b]));
                } else {
                    assert(before[b].disjoint(before[a]));
                }
                assert(view.range_ok(before[a]));
                assert(view.range_ok(before[b]));
            }
            assert forall|ptr: Address| covered(sorted, ptr) == covered(before, ptr) by {
                if covered(sorted, ptr) {
                    let k = choose|k: int| 0 <= k < sorted.len() && #[trigger] sorted[k].spec_contains(ptr);
                    assert(before.contains(sorted[k]));
                    let a = choose|a: int| 0 <= a < before.len() && before[a] == sorted[k];
                    assert(before[a].spec_contains(ptr));
                }
                if covered(before, ptr) {
                    let k = choose|k: int| 0 <= k < before.len() && #[trigger] before[k].spec_contains(ptr);
                    assert(sorted.contains(before[k]));
                    let a = choose|a: int| 0 <= a < sorted.len() && sorted[a] == before[k];
                    assert(sorted[a].spec_contains(ptr));
                }
            }
        }
        coalesce(&mut self.elements);
        proof {
            reveal(LargeSpaceView::inv);
            let merged = self.elements@;
            let live = view.live;
            assert forall|k: int| 0 <= k < merged.len() implies view.range_ok(#[trigger] merged[k]) by {
                let r = merged[k];
                let p = choose|p: int|
                    0 <= p < sorted.len() && (#[trigger] sorted[p]).start == (#[trigger] merged[k]).start;
                assert(before.contains(sorted[p]));
                let low = Address(r.start.0);
                let high = Address((r.end@ - 1) as usize);
                assert(merged[k].spec_contains(high));
                assert(covered(merged, high));
                assert(covered(before, high));
                let q = choose|q: int| 0 <= q < before.len() && #[trigger] before[q].spec_contains(high);
                assert(view.range_ok(before[q]));
            }
            assert forall|i: int, j: int| 0 <= i < j < merged.len() implies (#[trigger] merged[i]).disjoint(
                #[trigger] merged[j],
            ) by {
                assert(merged[i].end@ < merged[j].start@);
            }
            assert forall|i: int, j: int| 0 <= i < merged.len() && 0 <= j < live.len() implies (
            #[trigger] merged[i]).disjoint(#[trigger] live[j]) by {
                if !merged[i].disjoint(live[j]) {
                    assert(view.range_ok(live[j]));
                    let at = if merged[i].start@ <= live[j].start@ {
                        live[j].start
                    } else {
                        merged[i].start
                    };
                    assert(merged[i].spec_contains(at));
                    assert(covered(merged, at));
                    assert(covered(before, at));
                    let q = choose|q: int| 0 <= q < before.len() && #[trigger] before[q].spec_contains(at);
                    assert(before[q].disjoint(live[j]));
                }
            }
        }
    }

    /// The addresses of the objects in the live allocations, from the head of
    /// the list.
    pub fn visit_objects(&self) -> (r: Vec<Address>)
        requires
            self.wf(),
        ensures
            r@ == object_addresses(self@.live),
    {
        broadcast use vstd::std_specs::hash::group_hash_axioms;

        let mut out: Vec<Address> = Vec::new();
        let mut addr = self.head;
        let ghost live = self.live@;
        let ghost mut i: int = 0;
        proof {
            lemma_live_ranges(self@);
        }
        while !addr.is_null()
            invariant
                0 <= i <= live.len(),
                live == self.live@,
                linked(self.allocs@, live, self.head),
                addr == link(live, i),
                out@ == object_addresses(live.take(i)),
                forall|m: int| 0 <= m < live.len() ==> (#[trigger] live[m]).start@ + PAGE_SIZE <= live[m].end@,
            decreases live.len() - i,
        {
            assert(self.allocs@.contains_key(live[i].start.0));
            let record = *self.allocs.get(&addr.0).unwrap();
            out.push(record.object_address());
            addr = record.next;
            proof {
                assert(live.take(i + 1) =~= live.take(i).push(live[i]));
                assert(out@ =~= object_addresses(live.take(i + 1)));
                i = i + 1;
            }
        }
        proof {
            assert(live.take(i) =~= live);
        }
        out
    }

    /// Puts the range `[ptr, ptr + size)` at the end of the free list and
    /// takes its size from the committed size.
    fn free(&mut self, ptr: Address, size: usize)
        requires
            size > 0,
            ptr@ + size <= usize::MAX,
            old(self).committed_size >= size,
        ensures
            final(self).elements@ == old(self).elements@.push(
                Range { start: ptr, end: Address((ptr@ + size) as usize) },
            ),
            final(self).committed_size == old(self).committed_size - size,
            final(self).allocs == old(self).allocs,
            final(self).live == old(self).live,
            final(self).head == old(self).head,
            final(self).total == old(self).total,
    {
        self.elements.push(Range::new(ptr, ptr.offset(size)));
        self.committed_size -= size;
    }

    /// Keeps the allocation at `addr`, the next to be decided: links it behind
    /// `prev`, the last one kept, or makes it the head where none was kept.
    /// Returns the allocation that followed it.
    fn keep_current(&mut self, prev: Address, addr: Address, Ghost(k): Ghost<int>) -> (next:
        Address)
        requires
            sweeping(old(self).allocs@, old(self).live@, k, old(self).head, prev, addr),
            k < old(self).live@.len(),
            forall|a: int, b: int|
                0 <= a < old(self).live@.len() && 0 <= b < old(self).live@.len() && a != b ==> (
                #[trigger] old(self).live@[a]).start != (#[trigger] old(self).live@[b]).start,
        ensures
            sweeping(final(self).allocs@, final(self).live@, k + 1, final(self).head, addr, next),
            final(self).live == old(self).live,
            final(self).elements == old(self).elements,
            final(self).committed_size == old(self).committed_size,
            final(self).total == old(self).total,
    {
        broadcast use vstd::std_specs::hash::group_hash_axioms;

        reveal(sweeping);
        let ghost live = self.live@;
        let ghost records = self.allocs@;
        assert(records.contains_key(live[k].start.0));
        let record = *self.allocs.get(&addr.0).unwrap();
        let next = record.next;
        if prev.is_null() {
            self.head = addr;
        } else {
            assert(records.contains_key(live[k - 1].start.0));
            let mut before = *self.allocs.get(&prev.0).unwrap();
            before.next = addr;
            self.allocs.insert(prev.0, before);
        }
        let mut current = record;
        current.prev = prev;
        self.allocs.insert(addr.0, current);
        proof {
            let after = self.allocs@;
            assert forall|key: usize| #[trigger] after.contains_key(key) implies exists|m: int|
                0 <= m < live.len() && #[trigger] live[m].start.0 == key by {
                assert(records.contains_key(key));
            }
            assert forall|m: int| 0 <= m < live.len() implies {
                &&& after.contains_key(#[trigger] live[m].start.0)
                &&& after[live[m].start.0].addr == live[m].start
                &&& after[live[m].start.0].size == live[m].spec_size()
            } by {
                assert(records.contains_key(live[m].start.0));
            }
            assert forall|m: int| 0 <= m < k + 1 implies after[#[trigger] live[m].start.0].prev == link(
                live,
                m - 1,
            ) by {
                assert(records.contains_key(live[m].start.0));
            }
            assert forall|m: int| 0 <= m < k implies after[#[trigger] live[m].start.0].next == live[m
                + 1].start by {
                assert(records.contains_key(live[m].start.0));
            }
            assert forall|m: int| k + 1 <= m < live.len() implies after[#[trigger] live[m].start.0].next
                == link(live, m + 1) by {
                assert(records.contains_key(live[m].start.0));
            }
        }
        next
    }

    /// Gives up the allocation at `addr`, the next to be decided: its record
    /// goes, and its range joins the free list. Returns the allocation that
    /// followed it and the range given up.
    fn drop_current(&mut self, prev: Address, addr: Address, Ghost(k): Ghost<int>) -> (r: (
        Address,
        Range,
    ))
        requires
            sweeping(old(self).allocs@, old(self).live@, k, old(self).head, prev, addr),
            k < old(self).live@.len(),
            old(self).committed_size >= old(self).live@[k].spec_size(),
            old(self).live@[k].start@ < old(self).live@[k].end@,
            forall|a: int, b: int|
                0 <= a < old(self).live@.len() && 0 <= b < old(self).live@.len() && a != b ==> (
                #[trigger] old(self).live@[a]).start != (#[trigger] old(self).live@[b]).start,
        ensures
            sweeping(final(self).allocs@, final(self).live@, k, final(self).head, prev, r.0),
            r.1 == old(self).live@[k],
            final(self).live@ == old(self).live@.remove(k),
            final(self).elements@ == old(self).elements@.push(old(self).live@[k]),
            final(self).committed_size == old(self).committed_size - old(self).live@[k].spec_size(),
            final(self).total == old(self).total,
    {
        broadcast use vstd::std_specs::hash::group_hash_axioms;

        reveal(sweeping);
        let ghost live = self.live@;
        let ghost records = self.allocs@;
        assert(records.contains_key(live[k].start.0));
        let record = *self.allocs.get(&addr.0).unwrap();
        let next = record.next;
        let size = record.size;
        self.free(addr, size);
        self.allocs.remove(&addr.0);
        self.live = Ghost(live.remove(k));
        proof {
            let after = self.allocs@;
            let rest = self.live@;
            assert forall|m: int| 0 <= m < rest.len() implies {
                &&& after.contains_key(#[trigger] rest[m].start.0)
                &&& rest[m].start@ != 0
                &&& rest[m].start@ <= rest[m].end@
                &&& after[rest[m].start.0].addr == rest[m].start
                &&& after[rest[m].start.0].size == rest[m].spec_size()
            } by {
                let m0 = if m < k { m } else { m + 1 };
                assert(rest[m] == live[m0]);
                assert(records.contains_key(live[m0].start.0));
            }
            assert forall|m: int| 0 <= m < k implies after[#[trigger] rest[m].start.0].prev == link(
                rest,
                m - 1,
            ) by {
                assert(rest[m] == live[m]);
                assert(records[live[m].start.0].prev == link(live, m - 1));
            }
            assert forall|m: int| 0 <= m < k - 1 implies after[#[trigger] rest[m].start.0].next
                == rest[m + 1].start by {
                assert(rest[m] == live[m]);
                assert(records[live[m].start.0].next == live[m + 1].start);
            }
            assert forall|m: int| k <= m < rest.len() implies after[#[trigger] rest[m].start.0].next
                == link(rest, m + 1) by {
                assert(rest[m] == live[m + 1]);
                assert(records[live[m + 1].start.0].next == link(live, m + 2));
            }
            assert forall|key: usize| #[trigger] after.contains_key(key) implies exists|m: int|
                0 <= m < rest.len() && #[trigger] rest[m].start.0 == key by {
                assert(records.contains_key(key));
                let m0 = choose|m0: int| 0 <= m0 < live.len() && #[trigger] live[m0].start.0 == key;
                let m = if m0 < k { m0 } else { m0 - 1 };
                assert(rest[m].start.0 == key);
            }
            if k > 0 {
                assert(rest[0] == live[0]);
            }
        }
        (next, Range::new(addr, addr.offset(size)))
    }

    /// Ends the list behind `prev`, the last allocation kept, or empties it
    /// where none was kept.
    fn close_list(&mut self, prev: Address)
        requires
            sweeping(
                old(self).allocs@,
                old(self).live@,
                old(self).live@.len() as int,
                old(self).head,
                prev,
                Address(0),
            ),
            forall|a: int, b: int|
                0 <= a < old(self).live@.len() && 0 <= b < old(self).live@.len() && a != b ==> (
                #[trigger] old(self).live@[a]).start != (#[trigger] old(self).live@[b]).start,
        ensures
            final(self).list_ok(),
            final(self).live == old(self).live,
            final(self).elements == old(self).elements,
            final(self).committed_size == old(self).committed_size,
            final(self).total == old(self).total,
    {
        broadcast use vstd::std_specs::hash::group_hash_axioms;

        reveal(sweeping);
        let ghost live = self.live@;
        let ghost records = self.allocs@;
        if prev.is_null() {
            self.head = Address::null();
        } else {
            assert(records.contains_key(live[live.len() - 1].start.0));
            let mut last = *self.allocs.get(&prev.0).unwrap();
            last.next = Address::null();
            self.allocs.insert(prev.0, last);
        }
        proof {
            let after = self.allocs@;
            assert forall|key: usize| #[trigger] after.contains_key(key) implies exists|m: int|
                0 <= m < live.len() && #[trigger] live[m].start.0 == key by {
                assert(records.contains_key(key));
            }
            assert forall|i: int| 0 <= i < live.len() implies {
                &&& after.contains_key(#[trigger] live[i].start.0)
                &&& live[i].start@ != 0
                &&& live[i].start@ <= live[i].end@
                &&& after[live[i].start.0] == (LargeAlloc {
                    addr: live[i].start,
                    prev: link(live, i - 1),
                    next: link(live, i + 1),
                    size: live[i].spec_size() as usize,
                })
            } by {
                assert(records.contains_key(live[i].start.0));
                assert(records[live[i].start.0].prev == link(live, i - 1));
                if i < live.len() - 1 {
                    assert(records[live[i].start.0].next == live[i + 1].start);
                }
            }
        }
    }

    /// Sweeps the list of live allocations: `keep` holds, for each allocation
    /// from the head of the list, whether it stays. The others leave the list
    /// and their ranges go to the free list, which is then merged. Returns the
    /// ranges that were given up, in the order of the list.
    pub fn remove_objects(&mut self, keep: &Vec<bool>) -> (freed: Vec<Range>)
        requires
            old(self).wf(),
            keep@.len() == old(self)@.live.len(),
        ensures
            final(self).wf(),
            final(self)@.total == old(self)@.total,
            final(self)@.live == kept(old(self)@.live, keep@),
            freed@ == dropped(old(self)@.live, keep@),
            freed@.len() == 0 ==> final(self)@.free == old(self)@.free,
            freed@.len() > 0 ==> sorted_apart(final(self)@.free),
            forall|ptr: Address|
                covered(final(self)@.free, ptr) == covered(old(self)@.free + freed@, ptr),
    {
        let ghost all = self.live@;
        let ghost free_before = self.elements@;
        let mut addr = self.head;
        let mut prev = Address::null();
        let mut freed: Vec<Range> = Vec::new();
        let mut i: usize = 0;
        let count = keep.len();
        let ghost mut k: int = 0;
        proof {
            assert(all.skip(0) =~= all);
            assert(all.take(0) =~= Seq::<Range>::empty());
            assert(kept(all.take(0), keep@.take(0)) =~= Seq::<Range>::empty());
            assert(dropped(all.take(0), keep@.take(0)) =~= Seq::<Range>::empty());
            assert(self.live@ =~= kept(all.take(0), keep@.take(0)) + all.skip(0));
            assert(self.elements@ =~= free_before + dropped(all.take(0), keep@.take(0)));
            reveal(sweeping);
        }
        while !addr.is_null()
            invariant
                0 <= i <= all.len(),
                keep@.len() == all.len(),
                count == all.len(),
                self@.inv(),
                self.total@ == old(self).total@,
                self.live@ == kept(all.take(i as int), keep@.take(i as int)) + all.skip(i as int),
                k == kept(all.take(i as int), keep@.take(i as int)).len(),
                self.elements@ == free_before + dropped(all.take(i as int), keep@.take(i as int)),
                freed@ == dropped(all.take(i as int), keep@.take(i as int)),
                sweeping(self.allocs@, self.live@, k, self.head, prev, addr),
                self.committed_size == ranges_total(self.live@),
            decreases all.len() - i,
        {
            let ghost live = self.live@;
            let ghost seen = kept(all.take(i as int), keep@.take(i as int));
            let ghost gone = dropped(all.take(i as int), keep@.take(i as int));
            proof {
                lemma_live_ranges(self@);
                assert(self@.live == live);
                lemma_sweeping_current(self.allocs@, live, k, self.head, prev, addr);
                assert(live.len() == seen.len() + all.skip(i as int).len());
                assert(i < all.len());
                assert(live[k] == all[i as int]);
                assert(all.take(i + 1).drop_last() =~= all.take(i as int));
                assert(keep@.take(i + 1).drop_last() =~= keep@.take(i as int));
            }
            if keep[i] {
                let next = self.keep_current(prev, addr, Ghost(k));
                prev = addr;
                addr = next;
                proof {
                    assert(kept(all.take(i + 1), keep@.take(i + 1)) == seen.push(all[i as int]));
                    assert(dropped(all.take(i + 1), keep@.take(i + 1)) == gone);
                    assert(live =~= seen.push(all[i as int]) + all.skip(i + 1));
                    k = k + 1;
                }
            } else {
                proof {
                    lemma_release_inv(self@, k);
                }
                let (next, range) = self.drop_current(prev, addr, Ghost(k));
                freed.push(range);
                addr = next;
                proof {
                    assert(kept(all.take(i + 1), keep@.take(i + 1)) == seen);
                    assert(dropped(all.take(i + 1), keep@.take(i + 1)) == gone.push(all[i as int]));
                    assert(live.remove(k) =~= seen + all.skip(i + 1));
                    assert(self.elements@ =~= free_before + gone.push(all[i as int]));
                    assert(self@ == (LargeSpaceView {
                        total: old(self).total@,
                        free: (free_before + gone).push(live[k]),
                        live: live.remove(k),
                    }));
                }
            }
            i += 1;
        }
        proof {
            lemma_live_ranges(self@);
            assert(self@.live == self.live@);
            lemma_sweeping_current(self.allocs@, self.live@, k, self.head, prev, addr);
            assert(self.live@.len() == k + all.skip(i as int).len());
            assert(all.take(i as int) =~= all);
            assert(keep@.take(i as int) =~= keep@);
            assert(all.skip(i as int) =~= Seq::<Range>::empty());
            assert(self.live@ =~= kept(all, keep@));
        }
        self.close_list(prev);
        if freed.len() > 0 {
            self.merge();
        }
        freed
    }
}

/// The large object space: the range it manages and its guarded state.
pub struct LargeSpace {
    total: Region,
    space: LargeSpaceProtected,
}

impl View for LargeSpace {
    type V = LargeSpaceView;

    closed spec fn view(&self) -> LargeSpaceView {
        self.space@
    }
}

impl LargeSpace {
    pub closed spec fn spec_total(&self) -> Region {
        self.total
    }

    /// The guarded state of the space.
    pub closed spec fn protected(&self) -> LargeSpaceProtected {
        self.space
    }

    /// Whether the space is well formed: its guarded state is, and manages
    /// the range of the space.
    pub open spec fn wf(&self) -> bool {
        &&& self.protected().wf()
        &&& self.protected()@ == self@
        &&& self@.total == self.spec_total()
    }

    /// A space over `[start, end)` with nothing allocated.
    pub fn new(start: Address, end: Address) -> (r: LargeSpace)
        requires
            0 < start@ < end@,
            is_page_aligned(start.0),
        ensures
            r.wf(),
            r@ == (LargeSpaceView {
                total: Region { start, end },
                free: seq![Range { start, end }],
                live: Seq::empty(),
            }),
    {
        LargeSpace { total: Region::new(start, end), space: LargeSpaceProtected::new(start, end) }
    }

    /// Allocates an object of `size` bytes: the record and the object, rounded
    /// up to whole pages, are asked of `config` and then taken from the first
    /// free range that holds them. Returns the address of the object, or null
    /// where `config` refuses the growth or no free range is large enough;
    /// growth that was granted stays counted.
    pub fn allocate(&mut self, config: &mut HeapConfig, size: usize) -> (r: Address)
        requires
            old(self).wf(),
        ensures
            final(self).wf(),
            final(self)@.total == old(self)@.total,
            final(self).spec_total() == old(self).spec_total(),
            old(self)@.allocates(*old(config), size, final(self)@, *final(config), r),
    {
        proof {
            crate::mem::lemma_page_align(LARGE_ALLOC_SIZE + size);
        }
        if size > usize::MAX - LARGE_ALLOC_SIZE - (PAGE_SIZE - 1) {
            return Address::null();
        }
        let need = page_align(LARGE_ALLOC_SIZE + size);
        if !config.grow_old(need) {
            return Address::null();
        }
        self.space.allocate(need)
    }

    /// The free ranges, in the order of the free list.
    pub fn free_ranges(&self) -> (r: Vec<Range>)
        ensures
            r@ == self@.free,
    {
        self.space.free_ranges()
    }

    /// The range that the space manages.
    pub fn total(&self) -> (r: Region)
        ensures
            r == self.spec_total(),
    {
        self.total
    }

    /// Whether `addr` lies in the range that the space manages.
    pub fn contains(&self, addr: Address) -> (r: bool)
        ensures
            r == self.spec_total().spec_contains(addr),
    {
        self.total.contains(addr)
    }

    /// The start of the first live allocation, or null.
    pub fn head(&self) -> (r: Address)
        requires
            self.wf(),
        ensures
            r == link(self@.live, 0),
    {
        proof {
            self.space.lemma_list_ok();
        }
        self.space.head()
    }

    /// The addresses of the objects in the live allocations, from the head of
    /// the list.
    pub fn visit_objects(&self) -> (r: Vec<Address>)
        requires
            self.wf(),
        ensures
            r@ == object_addresses(self@.live),
    {
        self.space.visit_objects()
    }

    /// Sweeps the live allocations as `LargeSpaceProtected::remove_objects` does.
    pub fn remove_objects(&mut self, keep: &Vec<bool>) -> (freed: Vec<Range>)
        requires
            old(self).wf(),
            keep@.len() == old(self)@.live.len(),
        ensures
            final(self).wf(),
            final(self)@.total == old(self)@.total,
            final(self)@.live == kept(old(self)@.live, keep@),
            freed@ == dropped(old(self)@.live, keep@),
            freed@.len() == 0 ==> final(self)@.free == old(self)@.free,
            freed@.len() > 0 ==> sorted_apart(final(self)@.free),
            forall|ptr: Address|
                covered(final(self)@.free, ptr) == covered(old(self)@.free + freed@, ptr),
    {
        self.space.remove_objects(keep)
    }

    /// The size in bytes of all live allocations.
    pub fn committed_size(&self) -> (r: usize)
        requires
            self.wf(),
        ensures
            r == ranges_total(self@.live),
    {
        self.space.committed_size()
    }
}

} // verus!
