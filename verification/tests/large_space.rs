use dora_gc::address::Address;
use dora_gc::large::{LargeAlloc, LargeSpaceProtected, Range, LARGE_ALLOC_SIZE};
use dora_gc::mem::PAGE_SIZE;

const BASE: usize = 0x10000;

fn range(start: usize, end: usize) -> Range {
    Range::new(Address::from_usize(start), Address::from_usize(end))
}

fn space(pages: usize) -> LargeSpaceProtected {
    LargeSpaceProtected::new(
        Address::from_usize(BASE),
        Address::from_usize(BASE + pages * PAGE_SIZE),
    )
}

#[test]
fn new_space_is_one_free_range() {
    let los = space(8);
    assert_eq!(los.free_ranges(), vec![range(BASE, BASE + 8 * PAGE_SIZE)]);
    assert!(los.head().is_null());
    assert_eq!(los.committed_size(), 0);
    assert!(los.visit_objects().is_empty());
}

#[test]
fn allocate_takes_the_first_fit() {
    let mut los = space(8);
    let a = los.allocate(2 * PAGE_SIZE);
    assert_eq!(a, Address::from_usize(BASE + LARGE_ALLOC_SIZE));
    assert_eq!(los.free_ranges(), vec![range(BASE + 2 * PAGE_SIZE, BASE + 8 * PAGE_SIZE)]);
    assert_eq!(los.committed_size(), 2 * PAGE_SIZE);
    assert_eq!(los.head(), Address::from_usize(BASE));

    let b = los.allocate(6 * PAGE_SIZE);
    assert_eq!(b, Address::from_usize(BASE + 2 * PAGE_SIZE + LARGE_ALLOC_SIZE));
    assert!(los.free_ranges().is_empty());
    assert_eq!(los.committed_size(), 8 * PAGE_SIZE);

    let c = los.allocate(PAGE_SIZE);
    assert!(c.is_null());
    assert_eq!(los.committed_size(), 8 * PAGE_SIZE);
}

#[test]
fn records_are_linked_from_the_newest() {
    let mut los = space(8);
    let a = los.allocate(PAGE_SIZE);
    let b = los.allocate(2 * PAGE_SIZE);
    let c = los.allocate(PAGE_SIZE);
    assert_eq!(los.visit_objects(), vec![c, b, a]);

    let first = Address::from_usize(BASE);
    let second = Address::from_usize(BASE + PAGE_SIZE);
    let third = Address::from_usize(BASE + 3 * PAGE_SIZE);
    assert_eq!(los.head(), third);
    let record = LargeAlloc::from_address(&los, second).unwrap();
    assert_eq!(record.prev, third);
    assert_eq!(record.next, first);
    assert_eq!(record.size, 2 * PAGE_SIZE);
    assert_eq!(record.object_address(), b);
    assert!(LargeAlloc::from_address(&los, Address::from_usize(BASE + 2 * PAGE_SIZE)).is_none());
}

#[test]
fn sweep_sorts_and_merges_the_free_list() {
    let mut los = space(8);
    let a = los.allocate(PAGE_SIZE);
    let b = los.allocate(PAGE_SIZE);
    let c = los.allocate(2 * PAGE_SIZE);
    let d = los.allocate(PAGE_SIZE);
    assert_eq!(los.visit_objects(), vec![d, c, b, a]);
    assert_eq!(los.free_ranges(), vec![range(BASE + 5 * PAGE_SIZE, BASE + 8 * PAGE_SIZE)]);

    let freed = los.remove_objects(&vec![true, false, true, false]);
    assert_eq!(
        freed,
        vec![range(BASE + 2 * PAGE_SIZE, BASE + 4 * PAGE_SIZE), range(BASE, BASE + PAGE_SIZE)]
    );
    assert_eq!(
        los.free_ranges(),
        vec![
            range(BASE, BASE + PAGE_SIZE),
            range(BASE + 2 * PAGE_SIZE, BASE + 4 * PAGE_SIZE),
            range(BASE + 5 * PAGE_SIZE, BASE + 8 * PAGE_SIZE),
        ]
    );
    assert_eq!(los.visit_objects(), vec![d, b]);
    assert_eq!(los.committed_size(), 2 * PAGE_SIZE);
    assert_eq!(los.head(), Address::from_usize(BASE + 4 * PAGE_SIZE));
    let first = LargeAlloc::from_address(&los, Address::from_usize(BASE + 4 * PAGE_SIZE)).unwrap();
    let second = LargeAlloc::from_address(&los, Address::from_usize(BASE + PAGE_SIZE)).unwrap();
    assert!(first.prev.is_null());
    assert_eq!(first.next, second.addr);
    assert_eq!(second.prev, first.addr);
    assert!(second.next.is_null());

    let freed = los.remove_objects(&vec![false, true]);
    assert_eq!(freed, vec![range(BASE + 4 * PAGE_SIZE, BASE + 5 * PAGE_SIZE)]);
    assert_eq!(
        los.free_ranges(),
        vec![range(BASE, BASE + PAGE_SIZE), range(BASE + 2 * PAGE_SIZE, BASE + 8 * PAGE_SIZE)]
    );
    assert_eq!(los.visit_objects(), vec![b]);
}

#[test]
fn sweep_that_keeps_all_leaves_the_free_list() {
    let mut los = space(4);
    los.allocate(PAGE_SIZE);
    los.allocate(PAGE_SIZE);
    let before = los.free_ranges();
    let freed = los.remove_objects(&vec![true, true]);
    assert!(freed.is_empty());
    assert_eq!(los.free_ranges(), before);
    assert_eq!(los.committed_size(), 2 * PAGE_SIZE);
    let freed = los.remove_objects(&vec![true, true]);
    assert!(freed.is_empty());
}

#[test]
fn allocating_and_freeing_returns_to_one_free_range() {
    let mut los = space(16);
    for round in 1..8 {
        let mut live = Vec::new();
        for i in 0..round {
            let object = los.allocate((1 + (i + round) % 3) * PAGE_SIZE);
            assert!(!object.is_null());
            live.push(object);
        }
        assert_eq!(los.visit_objects().len(), round);
        let freed = los.remove_objects(&vec![false; round]);
        assert_eq!(freed.len(), round);
        assert_eq!(los.free_ranges(), vec![range(BASE, BASE + 16 * PAGE_SIZE)]);
        assert_eq!(los.committed_size(), 0);
        assert!(los.head().is_null());
    }
}

#[test]
fn merge_joins_ranges_that_touch() {
    let mut los = space(6);
    los.allocate(PAGE_SIZE);
    los.allocate(PAGE_SIZE);
    los.allocate(PAGE_SIZE);
    los.remove_objects(&vec![false, true, false]);
    assert_eq!(
        los.free_ranges(),
        vec![range(BASE, BASE + PAGE_SIZE), range(BASE + 2 * PAGE_SIZE, BASE + 6 * PAGE_SIZE)]
    );
    los.merge();
    assert_eq!(
        los.free_ranges(),
        vec![range(BASE, BASE + PAGE_SIZE), range(BASE + 2 * PAGE_SIZE, BASE + 6 * PAGE_SIZE)]
    );
    assert!(los.contains(Address::from_usize(BASE)));
    assert!(los.contains(Address::from_usize(BASE + PAGE_SIZE - 1)));
    assert!(!los.contains(Address::from_usize(BASE + PAGE_SIZE)));
    assert!(los.contains(Address::from_usize(BASE + 2 * PAGE_SIZE)));
    assert!(!los.contains(Address::from_usize(BASE + 6 * PAGE_SIZE)));
    assert!(!los.contains(Address::from_usize(BASE - 1)));
}

#[test]
fn first_fit_skips_ranges_that_are_too_small() {
    let mut los = space(8);
    los.allocate(PAGE_SIZE);
    los.allocate(PAGE_SIZE);
    los.allocate(3 * PAGE_SIZE);
    los.allocate(PAGE_SIZE);
    los.remove_objects(&vec![true, false, true, false]);
    // free: [0, 1), [2, 5), [6, 8)
    let object = los.allocate(2 * PAGE_SIZE);
    assert_eq!(object, Address::from_usize(BASE + 2 * PAGE_SIZE + LARGE_ALLOC_SIZE));
    assert_eq!(
        los.free_ranges(),
        vec![
            range(BASE, BASE + PAGE_SIZE),
            range(BASE + 4 * PAGE_SIZE, BASE + 5 * PAGE_SIZE),
            range(BASE + 6 * PAGE_SIZE, BASE + 8 * PAGE_SIZE),
        ]
    );
    let object = los.allocate(2 * PAGE_SIZE);
    assert_eq!(object, Address::from_usize(BASE + 6 * PAGE_SIZE + LARGE_ALLOC_SIZE));
    assert!(los.allocate(2 * PAGE_SIZE).is_null());
    let object = los.allocate(PAGE_SIZE);
    assert_eq!(object, Address::from_usize(BASE + LARGE_ALLOC_SIZE));
}
