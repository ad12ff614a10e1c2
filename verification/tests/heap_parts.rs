use dora_gc::address::{Address, Region};
use dora_gc::card::{CardTable, CARD_SIZE};
use dora_gc::crossing::{CrossingEntry, CrossingMap};
use dora_gc::full::{FullCollector, GcReason};
use dora_gc::heap::{walk_region, Heap};
use dora_gc::mark::{
    check_marking, check_marking_object, check_marking_region, mark_live, verify_marking,
    verify_marking_object, verify_marking_region,
};
use dora_gc::mem::PAGE_SIZE;
use dora_gc::object::{Header, Memory, Obj};
use dora_gc::old_gen::{OldGen, OldRegion};
use dora_gc::young_gen::YoungGen;

const EDEN: usize = 0x10_0000;
const FROM: usize = 0x20_0000;
const TO: usize = 0x28_0000;
const OLD: usize = 0x30_0000;
const LARGE: usize = 0x50_0000;
const END: usize = 0x90_0000;
const PERM: usize = 0x1_0000;

fn addr(value: usize) -> Address {
    Address::from_usize(value)
}

fn region(start: usize, end: usize) -> Region {
    Region::new(addr(start), addr(end))
}

fn heap(old_end: usize) -> Heap {
    Heap::new(
        region(EDEN, END),
        region(EDEN, FROM),
        region(FROM, TO),
        region(TO, OLD),
        region(OLD, old_end),
        region(LARGE, END),
        region(PERM, 2 * PERM),
        usize::MAX,
    )
}

#[test]
fn header_holds_mark_and_forwarding_slot() {
    let mut header = Header::new();
    assert!(!header.is_marked_non_atomic());
    assert!(header.fwdptr_non_atomic().is_null());
    header.mark_non_atomic();
    header.set_fwdptr_non_atomic(addr(0x40));
    assert!(header.is_marked_non_atomic());
    assert_eq!(header.fwdptr_non_atomic(), addr(0x40));
    header.unmark_non_atomic();
    assert!(!header.is_marked_non_atomic());
    assert_eq!(header.fwdptr_non_atomic(), addr(0x40));
}

#[test]
fn memory_holds_objects_by_address() {
    let mut memory = Memory::new();
    let obj = Obj::new(48, 3, true);
    assert_eq!(obj.size(), 48);
    assert!(obj.is_array_ref());
    assert_eq!(obj.visit_reference_fields(), vec![Address::null(); 3]);
    assert!(!obj.header().is_marked_non_atomic());
    memory.insert(addr(0x1000), obj);
    memory.insert(addr(0x2000), Obj::new(16, 0, false));
    assert!(memory.contains(addr(0x1000)));
    assert!(!memory.contains(addr(0x1008)));
    assert_eq!(memory.field_count(addr(0x1000)), 3);
    memory.set_field(addr(0x1000), 2, addr(0x2000));
    assert_eq!(memory.field(addr(0x1000), 2), addr(0x2000));
    assert!(memory.field(addr(0x1000), 1).is_null());
    memory.mark(addr(0x1000));
    assert!(memory.is_marked(addr(0x1000)));
    assert!(!memory.is_marked(addr(0x2000)));
    memory.set_fwdptr(addr(0x1000), addr(0x800));
    assert_eq!(memory.fwdptr(addr(0x1000)), addr(0x800));
    memory.copy_to(addr(0x1000), addr(0x800));
    assert!(!memory.contains(addr(0x1000)));
    assert!(memory.is_marked(addr(0x800)));
    assert_eq!(memory.size(addr(0x800)), 48);
    assert!(memory.is_array_ref(addr(0x800)));
    assert_eq!(memory.field(addr(0x800), 2), addr(0x2000));
    memory.unmark(addr(0x800));
    assert!(!memory.is_marked(addr(0x800)));
    memory.remove(addr(0x2000));
    assert!(!memory.contains(addr(0x2000)));
}

#[test]
fn cards_are_marked_and_reset() {
    let mut cards = CardTable::new(addr(0x1000), 8);
    assert_eq!(CARD_SIZE, 512);
    assert_eq!(cards.card_idx(addr(0x1000)), 0);
    assert_eq!(cards.card_idx(addr(0x11ff)), 0);
    assert_eq!(cards.card_idx(addr(0x1200)), 1);
    assert_eq!(cards.card_idx(addr(0x1fff)), 7);
    for card in 0..8 {
        assert!(!cards.is_dirty(addr(0x1000 + card * CARD_SIZE)));
        cards.mark_dirty(addr(0x1000 + card * CARD_SIZE + 17));
    }
    cards.reset_addr(addr(0x1000 + 5 * CARD_SIZE + 511));
    cards.reset_region(addr(0x1000 + 511), addr(0x1000 + 2 * CARD_SIZE + 1));
    cards.reset_region(addr(0x1000 + 7 * CARD_SIZE), addr(0x1000 + 7 * CARD_SIZE));
    let dirty: Vec<bool> =
        (0..8).map(|card| cards.is_dirty(addr(0x1000 + card * CARD_SIZE))).collect();
    assert_eq!(dirty, vec![false, false, false, true, true, false, true, true]);
    cards.reset_region(addr(0x1000 + 3 * CARD_SIZE), addr(0x1000 + 4 * CARD_SIZE));
    assert!(!cards.is_dirty(addr(0x1000 + 3 * CARD_SIZE)));
    assert!(cards.is_dirty(addr(0x1000 + 4 * CARD_SIZE)));
    cards.reset_region(addr(0x1000), addr(0x2000));
    assert!(!cards.is_dirty(addr(0x1fff)));
}

#[test]
fn crossing_map_records_where_objects_start() {
    let old = OldGen::new(addr(OLD), addr(OLD + 4 * PAGE_SIZE));
    assert_eq!(old.total(), region(OLD, OLD + 4 * PAGE_SIZE));
    assert_eq!(old.total_start(), addr(OLD));
    let mut map = CrossingMap::new(33);
    assert_eq!(map.len(), 33);
    assert_eq!(map.get(0), CrossingEntry::NoRefs);
    map.set_first_object(0, 0);

    old.update_crossing(&mut map, addr(OLD), addr(OLD + 24), false);
    assert_eq!(map.get(0), CrossingEntry::FirstObject(0));
    assert_eq!(map.get(1), CrossingEntry::NoRefs);

    old.update_crossing(&mut map, addr(OLD + 24), addr(OLD + 3 * CARD_SIZE + 16), true);
    assert_eq!(map.get(0), CrossingEntry::FirstObject(0));
    assert_eq!(map.get(1), CrossingEntry::ArrayRefs);
    assert_eq!(map.get(2), CrossingEntry::ArrayRefs);
    assert_eq!(map.get(3), CrossingEntry::FirstObject(2));
    assert_eq!(map.get(4), CrossingEntry::NoRefs);

    old.update_crossing(&mut map, addr(OLD + 3 * CARD_SIZE + 16), addr(OLD + 5 * CARD_SIZE), false);
    assert_eq!(map.get(3), CrossingEntry::FirstObject(2));
    assert_eq!(map.get(4), CrossingEntry::NoRefs);
    assert_eq!(map.get(5), CrossingEntry::FirstObject(0));

    map.set_array_references(7);
    map.set_no_references(5);
    assert_eq!(map.get(7), CrossingEntry::ArrayRefs);
    assert_eq!(map.get(5), CrossingEntry::NoRefs);
}

#[test]
fn old_generation_commits_whole_pages() {
    let mut old = OldGen::new(addr(OLD), addr(OLD + 8 * PAGE_SIZE));
    assert_eq!(old.protected.regions.len(), 1);
    let first = old.protected.regions[0];
    assert_eq!((first.start(), first.top(), first.end()), (addr(OLD), addr(OLD), addr(OLD + 8 * PAGE_SIZE)));
    assert_eq!(first.active_region(), region(OLD, OLD));

    let commit = old.protected.commit_single_region(addr(OLD + PAGE_SIZE + 1));
    assert_eq!(commit, Some(region(OLD, OLD + 2 * PAGE_SIZE)));
    assert_eq!(old.protected.committed, addr(OLD + 2 * PAGE_SIZE));
    assert_eq!(old.protected.commit_single_region(addr(OLD + 8)), None);
    assert_eq!(old.protected.committed, addr(OLD + 2 * PAGE_SIZE));

    let forget = old.protected.update_single_region(addr(OLD + 100));
    assert_eq!(forget, Some(region(OLD + PAGE_SIZE, OLD + 2 * PAGE_SIZE)));
    assert_eq!(old.protected.committed, addr(OLD + PAGE_SIZE));
    assert_eq!(
        old.protected.regions,
        vec![OldRegion::new(addr(OLD), addr(OLD + 100), addr(OLD + 8 * PAGE_SIZE))]
    );
    assert_eq!(old.protected.update_single_region(addr(OLD + 3 * PAGE_SIZE)), None);
    assert_eq!(old.protected.committed, addr(OLD + 3 * PAGE_SIZE));
}

#[test]
fn young_generation_is_cleared() {
    let mut young = YoungGen::new(region(EDEN, FROM), region(FROM, TO), region(TO, OLD));
    young.eden.top = addr(EDEN + 64);
    young.to.top = addr(TO + 8);
    assert_eq!(young.eden_active(), region(EDEN, EDEN + 64));
    assert_eq!(young.from_active(), region(FROM, FROM));
    assert_eq!(young.to_active(), region(TO, TO + 8));
    assert!(!young.to_protected);
    young.clear();
    young.protect_to();
    assert_eq!(young.eden_active(), region(EDEN, EDEN));
    assert_eq!(young.to_active(), region(TO, TO));
    assert!(young.to_protected);
}

#[test]
fn eden_fills_up() {
    let mut heap = heap(LARGE);
    let a = heap.alloc_young(FROM - EDEN - 8, 0, false);
    assert_eq!(a, addr(EDEN));
    assert!(heap.alloc_young(16, 0, false).is_null());
    let b = heap.alloc_young(8, 1, false);
    assert_eq!(b, addr(FROM - 8));
    assert!(heap.alloc_young(1, 0, false).is_null());
    assert_eq!(heap.walk_old_and_young(), vec![a, b]);
    assert_eq!(walk_region(&heap.memory, heap.young.eden_active()), vec![a, b]);
    assert!(walk_region(&heap.memory, heap.young.from_active()).is_empty());
    assert!(heap.is_valid_ref(a));
    assert!(heap.is_valid_ref(Address::null()));
    assert!(heap.is_valid_ref(addr(PERM)));
    assert!(!heap.is_valid_ref(addr(EDEN + 8)));
    assert!(!heap.is_valid_ref(addr(8)));
    assert!(heap.are_valid_refs(&vec![a, b, Address::null()]));
    assert!(!heap.are_valid_refs(&vec![a, addr(2 * PERM)]));
}

#[test]
fn marking_marks_what_the_roots_reach() {
    let mut heap = heap(LARGE);
    let a = heap.alloc_young(24, 2, false);
    let b = heap.alloc_young(24, 1, false);
    let c = heap.alloc_young(24, 0, false);
    let d = heap.alloc_young(24, 1, false);
    let large = heap.alloc_large(20000, 1, false);
    let dead = heap.alloc_large(20000, 1, false);
    heap.set_field(a, 0, b);
    heap.set_field(a, 1, large);
    heap.set_field(b, 0, a);
    heap.set_field(large, 0, d);
    heap.set_field(dead, 0, c);
    heap.set_field(d, 0, addr(PERM + 16));
    assert!(check_marking(&heap));

    mark_live(&mut heap, &vec![Address::null(), a, addr(PERM)]);
    for object in [a, b, d, large] {
        assert!(heap.memory.is_marked(object));
    }
    for object in [c, dead] {
        assert!(!heap.memory.is_marked(object));
    }
    assert!(check_marking(&heap));
    assert!(check_marking_object(&heap.memory, a, heap.total));
    assert!(check_marking_region(&heap.memory, heap.young.eden_active(), heap.total));
    verify_marking(&heap);
    verify_marking_object(&heap.memory, a, heap.total);
    verify_marking_region(&heap.memory, heap.young.eden_active(), heap.total);
    assert!(heap.memory.is_marked(a));

    heap.memory.unmark(d);
    assert!(!check_marking(&heap));
    assert!(!check_marking_object(&heap.memory, large, heap.total));
    assert!(check_marking_object(&heap.memory, a, heap.total));
    assert!(check_marking_object(&heap.memory, d, heap.total));
    assert!(check_marking_region(&heap.memory, heap.young.eden_active(), heap.total));
    heap.memory.mark(d);
    heap.memory.unmark(b);
    assert!(!check_marking_region(&heap.memory, heap.young.eden_active(), heap.total));
}

#[test]
fn collection_needs_room_in_the_old_generation() {
    let mut heap = heap(OLD + PAGE_SIZE);
    let a = heap.alloc_young(3000, 1, false);
    let b = heap.alloc_young(1000, 0, false);
    let c = heap.alloc_young(97, 0, false);
    heap.set_field(a, 0, b);
    let mut full = FullCollector::new(heap, vec![a, c], GcReason::AllocationFailure, 0, 0, false);
    assert!(full.try_collect().is_none());
    assert!(full.heap.memory.is_marked(a));
    assert!(full.heap.memory.is_marked(c));
    assert!(full.heap.memory.contains(b));
    assert_eq!(full.old_top, addr(OLD));
    assert_eq!(full.rootset, vec![a, c]);

    let mut heap = heap_again();
    let a = heap.alloc_young(3000, 1, false);
    let b = heap.alloc_young(1000, 0, false);
    let c = heap.alloc_young(96, 0, false);
    heap.set_field(a, 0, b);
    let mut full = FullCollector::new(heap, vec![a, c], GcReason::AllocationFailure, 0, 0, false);
    let released = full.try_collect().unwrap();
    assert_eq!(released.commit, Some(region(OLD, OLD + PAGE_SIZE)));
    assert_eq!(released.forget, None);
    assert!(released.large.is_empty());
    assert_eq!(full.old_top, addr(OLD + PAGE_SIZE));
    assert_eq!(full.rootset, vec![addr(OLD), addr(OLD + 4000)]);
}

fn heap_again() -> Heap {
    heap(OLD + PAGE_SIZE)
}

#[test]
fn collection_describes_the_old_generation_in_the_crossing_map() {
    let mut heap = heap(LARGE);
    let a = heap.alloc_young(24, 0, false);
    let _dead = heap.alloc_young(1000, 0, false);
    let b = heap.alloc_young(1512, 0, true);
    let c = heap.alloc_young(512, 0, false);
    let d = heap.alloc_young(8, 0, false);
    let mut full = FullCollector::new(heap, vec![a, b, c, d], GcReason::ForceCollect, 0, 0, true);
    let released = full.collect();
    assert_eq!(released.commit, Some(region(OLD, OLD + PAGE_SIZE)));
    assert_eq!(full.rootset, vec![addr(OLD), addr(OLD + 24), addr(OLD + 1536), addr(OLD + 2048)]);
    let map = &full.heap.crossing_map;
    assert_eq!(map.get(0), CrossingEntry::FirstObject(0));
    assert_eq!(map.get(1), CrossingEntry::ArrayRefs);
    assert_eq!(map.get(2), CrossingEntry::ArrayRefs);
    assert_eq!(map.get(3), CrossingEntry::FirstObject(0));
    assert_eq!(map.get(4), CrossingEntry::FirstObject(0));
    assert_eq!(map.get(5), CrossingEntry::NoRefs);
    assert_eq!(full.old_top, addr(OLD + 2056));

    let FullCollector { heap, rootset, .. } = full;
    let mut full =
        FullCollector::new(heap, vec![rootset[0], rootset[3]], GcReason::ForceCollect, 0, 0, false);
    let released = full.collect();
    assert_eq!(released.commit, None);
    assert_eq!(released.forget, None);
    assert_eq!(full.rootset, vec![addr(OLD), addr(OLD + 24)]);
    assert_eq!(full.old_top, addr(OLD + 32));
    assert_eq!(full.heap.crossing_map.get(0), CrossingEntry::FirstObject(0));
    assert_eq!(full.heap.crossing_map.get(1), CrossingEntry::ArrayRefs);
}

#[test]
fn several_regions_of_the_old_generation_are_compacted_into_one() {
    let mut heap = heap(LARGE);
    let a = heap.alloc_old(40, 1, false);
    let dead = heap.alloc_old(600, 0, false);
    let b = heap.alloc_old(24, 1, false);
    assert_eq!((a, dead, b), (addr(OLD), addr(OLD + 40), addr(OLD + 640)));
    heap.add_old_region(addr(OLD + 2 * PAGE_SIZE), addr(OLD + 3 * PAGE_SIZE));
    let c = heap.alloc_old(4000, 1, true);
    let gone = heap.alloc_old(90, 0, false);
    assert_eq!(c, addr(OLD + 2 * PAGE_SIZE));
    assert!(heap.alloc_old(7, 0, false).is_null());
    let d = heap.alloc_old(6, 0, false);
    assert_eq!(d, addr(OLD + 2 * PAGE_SIZE + 4090));
    heap.add_old_region(addr(OLD + 4 * PAGE_SIZE), addr(OLD + 5 * PAGE_SIZE));
    heap.add_old_region(addr(OLD + 6 * PAGE_SIZE), addr(LARGE));
    let e = heap.alloc_old(16, 0, false);
    let young = heap.alloc_young(32, 2, false);
    assert_eq!(heap.old.protected.regions.len(), 4);
    assert_eq!(
        heap.old.protected.regions[0],
        OldRegion::new(addr(OLD), addr(OLD + 664), addr(OLD + 664))
    );
    assert_eq!(heap.walk_old_and_young(), vec![a, dead, b, c, gone, d, e, young]);

    heap.set_field(a, 0, c);
    heap.set_field(c, 0, young);
    heap.set_field(young, 0, e);
    heap.set_field(young, 1, b);
    heap.set_field(b, 0, a);
    heap.card_table.mark_dirty(a);
    heap.card_table.mark_dirty(dead.offset(599));
    heap.card_table.mark_dirty(c.offset(2000));
    heap.card_table.mark_dirty(e);
    heap.card_table.mark_dirty(addr(OLD + PAGE_SIZE));
    let mut full = FullCollector::new(heap, vec![a], GcReason::PromotionFailure, 0, 0, true);
    let released = full.collect();

    let (na, nb, nc, ne, ny) =
        (addr(OLD), addr(OLD + 40), addr(OLD + 64), addr(OLD + 4064), addr(OLD + 4080));
    assert_eq!(full.rootset, vec![na]);
    assert_eq!(full.heap.walk_old_and_young(), vec![na, nb, nc, ne, ny]);
    assert_eq!(full.heap.memory.field(na, 0), nc);
    assert_eq!(full.heap.memory.field(nc, 0), ny);
    assert_eq!(full.heap.memory.field(ny, 0), ne);
    assert_eq!(full.heap.memory.field(ny, 1), nb);
    assert_eq!(full.heap.memory.field(nb, 0), na);
    assert_eq!(full.old_top, addr(OLD + 4112));
    assert_eq!(
        full.heap.old.protected.regions,
        vec![OldRegion::new(addr(OLD), addr(OLD + 4112), addr(LARGE))]
    );
    assert_eq!(released.commit, Some(region(OLD, OLD + 2 * PAGE_SIZE)));
    assert_eq!(full.init_old_top, vec![addr(OLD + 664), d.offset(6), addr(OLD + 4 * PAGE_SIZE), e.offset(16)]);
    let cards = &full.heap.card_table;
    assert!(!cards.is_dirty(a));
    assert!(!cards.is_dirty(dead.offset(599)));
    assert!(!cards.is_dirty(c.offset(2000)));
    assert!(!cards.is_dirty(e));
    assert!(cards.is_dirty(addr(OLD + PAGE_SIZE)));
    let map = &full.heap.crossing_map;
    assert_eq!(map.get(0), CrossingEntry::FirstObject(0));
    assert_eq!(map.get(1), CrossingEntry::ArrayRefs);
    assert_eq!(map.get(7), CrossingEntry::FirstObject(60));
    assert_eq!(map.get(8), CrossingEntry::FirstObject(2));
}
