use dora_gc::address::{Address, Region};
use dora_gc::full::{FullCollector, GcReason, Slot};
use dora_gc::heap::Heap;
use dora_gc::large::{Range, LARGE_ALLOC_SIZE, LARGE_OBJECT_SIZE};
use dora_gc::mem::PAGE_SIZE;

const EDEN: usize = 0x10_0000;
const FROM: usize = 0x20_0000;
const TO: usize = 0x28_0000;
const OLD: usize = 0x30_0000;
const LARGE: usize = 0x50_0000;
const END: usize = 0x90_0000;
const PERM: usize = 0x1_0000;

fn addr(value: usize) -> Address {
    Address::from_usize(value)
}

fn region(start: usize, end: usize) -> Region {
    Region::new(addr(start), addr(end))
}

fn heap_with_large(large_end: usize) -> Heap {
    Heap::new(
        region(EDEN, END),
        region(EDEN, FROM),
        region(FROM, TO),
        region(TO, OLD),
        region(OLD, LARGE),
        region(LARGE, large_end),
        region(PERM, 2 * PERM),
        usize::MAX,
    )
}

fn heap() -> Heap {
    heap_with_large(END)
}

fn collect(heap: Heap, roots: Vec<Address>) -> FullCollector {
    let mut full = FullCollector::new(heap, roots, GcReason::ForceCollect, 0, END - EDEN, true);
    full.collect();
    full
}

#[test]
fn linked_list_survives() {
    let mut heap = heap();
    let mut objects = Vec::new();
    for _ in 0..1000 {
        objects.push(heap.alloc_young(24, 1, false));
    }
    for i in 0..999 {
        heap.set_field(objects[i], 0, objects[i + 1]);
    }
    let full = collect(heap, vec![objects[0]]);

    let mut seen = Vec::new();
    let mut cur = full.rootset[0];
    while !cur.is_null() {
        assert!(full.old_committed.contains(cur));
        assert!(full.heap.memory.contains(cur));
        assert!(!full.heap.memory.is_marked(cur));
        assert!(!seen.contains(&cur));
        seen.push(cur);
        cur = full.heap.memory.field(cur, 0);
    }
    assert_eq!(seen.len(), 1000);
    assert_eq!(full.old_top, addr(OLD + 24 * 1000));
    assert_eq!(full.old_committed, region(OLD, OLD + 24 * 1000));
}

#[test]
fn unreachable_dies() {
    let mut heap = heap();
    let mut objects = Vec::new();
    for _ in 0..100 {
        objects.push(heap.alloc_young(32, 2, false));
    }
    heap.set_field(objects[0], 1, objects[1]);
    let large = heap.alloc_large(LARGE_OBJECT_SIZE, 0, false);
    assert!(!large.is_null());
    let full = collect(heap, Vec::new());

    assert_eq!(full.old_top, addr(OLD));
    assert!(full.heap.large_space.head().is_null());
    assert_eq!(full.heap.large_space.committed_size(), 0);
    assert_eq!(full.heap.large_space.free_ranges(), vec![Range::new(addr(LARGE), addr(END))]);
    for object in objects {
        assert!(!full.heap.memory.contains(object));
    }
    assert!(!full.heap.memory.contains(large));
}

#[test]
fn large_objects_are_retained_in_place() {
    let mut heap = heap();
    let first = heap.alloc_large(LARGE_OBJECT_SIZE, 1, false);
    let second = heap.alloc_large(2 * LARGE_OBJECT_SIZE, 0, false);
    let dead = heap.alloc_large(LARGE_OBJECT_SIZE, 0, false);
    heap.set_field(first, 0, second);
    let full = collect(heap, vec![first]);

    assert_eq!(full.rootset, vec![first]);
    assert_eq!(full.heap.memory.field(first, 0), second);
    assert!(full.heap.large_space.contains(first));
    assert!(full.heap.large_space.contains(second));
    assert!(full.heap.memory.contains(first));
    assert!(full.heap.memory.contains(second));
    assert!(!full.heap.memory.contains(dead));
    assert!(!full.heap.memory.is_marked(first));
    assert!(!full.heap.memory.is_marked(second));
    assert_eq!(full.heap.large_space.visit_objects(), vec![second, first]);
    assert_eq!(full.old_top, addr(OLD));
}

#[test]
fn large_object_fragmentation_heals() {
    let pages = (LARGE_ALLOC_SIZE + LARGE_OBJECT_SIZE + PAGE_SIZE - 1) / PAGE_SIZE * PAGE_SIZE;
    let mut heap = heap_with_large(LARGE + 3 * pages);
    let a = heap.alloc_large(LARGE_OBJECT_SIZE, 0, false);
    let b = heap.alloc_large(LARGE_OBJECT_SIZE, 0, false);
    let c = heap.alloc_large(LARGE_OBJECT_SIZE, 0, false);
    assert_eq!(a, addr(LARGE + LARGE_ALLOC_SIZE));
    assert_eq!(b, addr(LARGE + pages + LARGE_ALLOC_SIZE));
    assert_eq!(c, addr(LARGE + 2 * pages + LARGE_ALLOC_SIZE));
    assert!(heap.large_space.free_ranges().is_empty());
    assert!(heap.alloc_large(LARGE_OBJECT_SIZE, 0, false).is_null());

    let full = collect(heap, vec![a, c]);
    assert_eq!(
        full.heap.large_space.free_ranges(),
        vec![Range::new(addr(LARGE + pages), addr(LARGE + 2 * pages))]
    );
    assert_eq!(full.heap.large_space.committed_size(), 2 * pages);

    let FullCollector { heap, .. } = full;
    let full = collect(heap, Vec::new());
    assert_eq!(
        full.heap.large_space.free_ranges(),
        vec![Range::new(addr(LARGE), addr(LARGE + 3 * pages))]
    );
    assert_eq!(full.heap.large_space.committed_size(), 0);
}

#[test]
fn references_are_forwarded() {
    let mut heap = heap();
    let garbage = heap.alloc_young(40, 0, false);
    let a = heap.alloc_young(24, 1, false);
    let more_garbage = heap.alloc_young(16, 0, false);
    let b = heap.alloc_young(32, 2, false);
    let c = heap.alloc_young(48, 1, true);
    heap.set_field(a, 0, b);
    heap.set_field(b, 1, c);
    heap.set_field(b, 0, addr(PERM + 8));
    heap.set_field(c, 0, a);
    let full = collect(heap, vec![a, Address::null(), addr(PERM), c]);

    let new_a = addr(OLD);
    let new_b = addr(OLD + 24);
    let new_c = addr(OLD + 24 + 32);
    assert_eq!(full.rootset, vec![new_a, Address::null(), addr(PERM), new_c]);
    assert_eq!(full.heap.memory.field(new_a, 0), new_b);
    assert_eq!(full.heap.memory.field(new_b, 1), new_c);
    assert_eq!(full.heap.memory.field(new_b, 0), addr(PERM + 8));
    assert_eq!(full.heap.memory.field(new_c, 0), new_a);
    assert_eq!(full.heap.memory.size(new_a), 24);
    assert_eq!(full.heap.memory.size(new_b), 32);
    assert_eq!(full.heap.memory.size(new_c), 48);
    assert!(full.heap.memory.is_array_ref(new_c));
    assert_eq!(full.heap.memory.fwdptr(new_b), new_b);
    assert_eq!(full.old_top, addr(OLD + 24 + 32 + 48));
    assert!(!full.heap.memory.contains(garbage));
    assert!(!full.heap.memory.contains(more_garbage));
    assert!(!full.heap.memory.contains(a));
    assert_eq!(full.heap.young.eden.top, addr(EDEN));
    assert!(full.heap.young.to_protected);
    assert_eq!(full.heap.walk_old_and_young(), vec![new_a, new_b, new_c]);
}

#[test]
fn old_objects_slide_down() {
    let mut heap = heap();
    let a = heap.alloc_young(24, 1, false);
    let b = heap.alloc_young(64, 0, false);
    let c = heap.alloc_young(24, 1, false);
    heap.set_field(a, 0, c);
    let full = collect(heap, vec![a, b]);
    assert_eq!(full.rootset, vec![addr(OLD), addr(OLD + 24)]);
    assert_eq!(full.heap.memory.field(addr(OLD), 0), addr(OLD + 24 + 64));

    let FullCollector { mut heap, rootset, .. } = full;
    let d = heap.alloc_young(16, 1, false);
    heap.set_field(d, 0, addr(OLD + 24 + 64));
    let full = collect(heap, vec![rootset[0], d]);
    assert_eq!(full.rootset, vec![addr(OLD), addr(OLD + 24 + 24)]);
    assert_eq!(full.heap.memory.field(addr(OLD), 0), addr(OLD + 24));
    assert_eq!(full.heap.memory.field(addr(OLD + 48), 0), addr(OLD + 24));
    assert!(!full.heap.memory.contains(addr(OLD + 24 + 64)));
    assert_eq!(full.old_top, addr(OLD + 24 + 24 + 16));
    assert_eq!(full.heap.old.protected.regions.len(), 1);
    assert_eq!(full.heap.old.protected.regions[0].top, full.old_top);
    assert_eq!(full.heap.old.protected.committed, addr(OLD + PAGE_SIZE));
}

#[test]
fn collecting_twice_changes_nothing() {
    let mut heap = heap();
    let a = heap.alloc_young(24, 2, false);
    let _dead = heap.alloc_young(24, 0, false);
    let b = heap.alloc_young(40, 1, false);
    let large = heap.alloc_large(LARGE_OBJECT_SIZE, 1, true);
    heap.set_field(a, 0, b);
    heap.set_field(a, 1, large);
    heap.set_field(large, 0, a);
    heap.set_field(b, 0, b);
    let first = collect(heap, vec![a]);
    let top = first.old_top;
    let order = first.heap.walk_old_and_young();
    let fields = first.heap.memory.field(order[0], 0);
    let FullCollector { heap, rootset, .. } = first;

    let second = collect(heap, rootset.clone());
    assert_eq!(second.old_top, top);
    assert_eq!(second.rootset, rootset);
    assert_eq!(second.heap.walk_old_and_young(), order);
    assert_eq!(second.heap.memory.field(order[0], 0), fields);
    assert_eq!(second.heap.memory.field(order[0], 1), large);
    assert_eq!(second.heap.memory.field(large, 0), order[0]);
    assert_eq!(second.heap.large_space.visit_objects(), vec![large]);
}

#[test]
fn cards_are_reset() {
    let mut heap = heap();
    let a = heap.alloc_young(600, 0, false);
    let b = heap.alloc_young(600, 0, false);
    let array = heap.alloc_large(LARGE_OBJECT_SIZE, 4, true);
    let plain = heap.alloc_large(LARGE_OBJECT_SIZE, 0, false);
    let dead = heap.alloc_large(LARGE_OBJECT_SIZE, 0, false);
    let first = collect(heap, vec![a, b, array, plain]);
    let FullCollector { mut heap, rootset, .. } = first;

    heap.card_table.mark_dirty(addr(OLD));
    heap.card_table.mark_dirty(addr(OLD + 700));
    heap.card_table.mark_dirty(addr(OLD + 1199));
    heap.card_table.mark_dirty(addr(OLD + 4096));
    heap.card_table.mark_dirty(array);
    heap.card_table.mark_dirty(array.offset(LARGE_OBJECT_SIZE - 1));
    heap.card_table.mark_dirty(plain);
    heap.card_table.mark_dirty(plain.offset(4096));
    heap.card_table.mark_dirty(dead);
    heap.card_table.mark_dirty(addr(EDEN + 8));
    let second = collect(heap, vec![rootset[1], array, plain]);

    let cards = &second.heap.card_table;
    assert!(!cards.is_dirty(addr(OLD)));
    assert!(!cards.is_dirty(addr(OLD + 700)));
    assert!(!cards.is_dirty(addr(OLD + 1199)));
    assert!(cards.is_dirty(addr(OLD + 4096)));
    assert!(!cards.is_dirty(array));
    assert!(!cards.is_dirty(array.offset(LARGE_OBJECT_SIZE - 1)));
    assert!(!cards.is_dirty(plain));
    assert!(cards.is_dirty(plain.offset(4096)));
    assert!(cards.is_dirty(dead));
    assert!(cards.is_dirty(addr(EDEN + 8)));
    assert_eq!(second.old_top, addr(OLD + 600));
}

#[test]
fn references_stay_valid_and_the_heap_does_not_grow() {
    let mut heap = heap();
    let mut young = Vec::new();
    for i in 0..50 {
        young.push(heap.alloc_young(16 + 8 * (i % 4), 2, i % 5 == 0));
    }
    let mut large = Vec::new();
    for _ in 0..4 {
        large.push(heap.alloc_large(LARGE_OBJECT_SIZE, 2, true));
    }
    for i in 0..50 {
        heap.set_field(young[i], 0, young[(7 * i + 3) % 50]);
        if i % 3 == 0 {
            heap.set_field(young[i], 1, large[i % 4]);
        } else if i % 3 == 1 {
            heap.set_field(young[i], 1, addr(PERM + 8 * i));
        }
    }
    heap.set_field(large[0], 0, young[10]);
    heap.set_field(large[0], 1, large[2]);
    heap.set_field(large[1], 0, young[0]);
    let used: usize = heap.walk_old_and_young().iter().map(|&o| heap.memory.size(o)).sum();
    let committed = heap.large_space.committed_size();
    let full = collect(heap, vec![young[1], large[0]]);

    let live = full.heap.walk_old_and_young();
    let kept = full.heap.large_space.visit_objects();
    assert!(!live.is_empty() && live.len() < 50);
    assert_eq!(kept, vec![large[2], large[0]]);
    let bytes: usize = live.iter().map(|&o| full.heap.memory.size(o)).sum();
    assert_eq!(full.old_top, addr(OLD + bytes));
    assert!(bytes <= used);
    assert!(full.heap.large_space.committed_size() <= committed);
    for &object in live.iter().chain(kept.iter()) {
        assert!(!full.heap.memory.is_marked(object));
        for k in 0..full.heap.memory.field_count(object) {
            let value = full.heap.memory.field(object, k);
            let in_perm = PERM <= value.to_usize() && value.to_usize() < 2 * PERM;
            let in_old = live.contains(&value) && full.old_committed.contains(value);
            assert!(value.is_null() || in_perm || kept.contains(&value) || in_old);
        }
    }
    for &root in &full.rootset {
        assert!(live.contains(&root) || kept.contains(&root));
    }
}

#[test]
fn a_collection_starts_on_a_heap_without_marks() {
    let mut heap = heap();
    let a = heap.alloc_young(24, 1, false);
    let large = heap.alloc_large(LARGE_OBJECT_SIZE, 0, false);
    assert!(heap.is_unmarked());
    heap.memory.mark(large);
    assert!(!heap.is_unmarked());
    heap.memory.unmark(large);
    heap.memory.mark(a);
    assert!(!heap.is_unmarked());
    heap.memory.unmark(a);
    assert!(heap.is_unmarked());

    let full = FullCollector::new(heap, vec![a, addr(EDEN + 8)], GcReason::ForceCollect, 0, 0, false);
    assert!(!full.is_startable());
    let FullCollector { heap, .. } = full;
    let mut full = FullCollector::new(heap, vec![a, large], GcReason::ForceCollect, 0, 0, false);
    assert!(full.is_startable());
    full.mark_live();
    assert!(!full.is_startable());
    assert!(!full.heap.is_unmarked());
}

#[test]
fn the_phases_run_one_by_one() {
    let mut heap = heap();
    let garbage = heap.alloc_young(40, 0, false);
    let a = heap.alloc_young(24, 1, false);
    let b = heap.alloc_young(32, 0, false);
    let kept = heap.alloc_large(LARGE_OBJECT_SIZE, 0, true);
    let dead = heap.alloc_large(LARGE_OBJECT_SIZE, 0, false);
    heap.set_field(a, 0, b);
    heap.card_table.mark_dirty(kept);
    heap.card_table.mark_dirty(dead);
    heap.card_table.mark_dirty(dead.offset(600));
    heap.card_table.mark_dirty(addr(OLD));
    let mut full = FullCollector::new(heap, vec![a, kept], GcReason::ForceCollect, 0, 0, false);
    full.init_old_top = full.region_tops();
    assert_eq!(full.walk_old_and_young(), vec![garbage, a, b]);

    full.mark_live();
    assert!(full.heap.memory.is_marked(a));
    assert!(full.heap.memory.is_marked(b));
    assert!(full.heap.memory.is_marked(kept));
    assert!(!full.heap.memory.is_marked(garbage));
    assert!(!full.heap.memory.is_marked(dead));
    assert!(full.marked_fit());

    let commit = full.compute_forward();
    assert_eq!(commit, Some(region(OLD, OLD + PAGE_SIZE)));
    assert_eq!(full.heap.memory.fwdptr(a), addr(OLD));
    assert_eq!(full.heap.memory.fwdptr(b), addr(OLD + 24));
    assert!(full.heap.memory.fwdptr(garbage).is_null());
    assert_eq!(full.old_top, addr(OLD + 56));
    assert_eq!(full.old_committed, region(OLD, OLD + 56));

    full.forward_reference(Slot::Root(1));
    assert_eq!(full.rootset, vec![a, kept]);
    full.forward_reference(Slot::Root(0));
    assert_eq!(full.rootset, vec![addr(OLD), kept]);
    full.forward_reference(Slot::Field(a, 0));
    assert_eq!(full.heap.memory.field(a, 0), addr(OLD + 24));
    assert!(full.heap.memory.is_marked(a));

    let freed = full.update_large_objects();
    assert_eq!(freed.len(), 1);
    assert!(freed[0].contains(dead));
    assert_eq!(full.heap.large_space.visit_objects(), vec![kept]);
    assert!(!full.heap.memory.is_marked(kept));
    assert!(!full.heap.memory.contains(dead));
    assert!(!full.heap.card_table.is_dirty(kept));
    assert!(!full.heap.card_table.is_dirty(dead));
    assert!(full.heap.card_table.is_dirty(dead.offset(600)));

    assert!(full.heap.card_table.is_dirty(addr(OLD)));
    full.heap.old.protected.update_single_region(full.old_top);
    full.reset_cards();
    assert!(!full.heap.card_table.is_dirty(addr(OLD)));
}

#[test]
fn the_survivors_fill_the_old_generation() {
    let mut heap = heap();
    let mut objects = Vec::new();
    let mut sum = 0;
    for i in 0..1000 {
        let size = 24 + 8 * (i % 5);
        objects.push(heap.alloc_young(size, 1, false));
        sum += size;
    }
    for i in 0..999 {
        heap.set_field(objects[i], 0, objects[i + 1]);
    }
    let full = collect(heap, vec![objects[0]]);
    assert_eq!(full.old_top, addr(OLD + sum));
    assert_eq!(full.heap.young.eden.top, addr(EDEN));
    assert_eq!(full.heap.young.from.top, addr(FROM));
    assert_eq!(full.heap.young.to.top, addr(TO));
    let survivors = full.heap.walk_old_and_young();
    assert_eq!(survivors.len(), 1000);
    for object in survivors {
        assert!(OLD <= object.to_usize());
        assert!(object.to_usize() + full.heap.memory.size(object) <= OLD + sum);
    }
}
