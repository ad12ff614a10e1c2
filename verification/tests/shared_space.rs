use dora_gc::address::{Address, Region};
use dora_gc::controller::HeapConfig;
use dora_gc::large::{LargeSpace, Range, LARGE_ALLOC_SIZE, LARGE_OBJECT_SIZE};
use dora_gc::mem::{is_page_aligned, page_align, PAGE_SIZE};

const BASE: usize = 0x40_0000;

fn addr(value: usize) -> Address {
    Address::from_usize(value)
}

#[test]
fn pages_are_rounded_up() {
    assert_eq!(PAGE_SIZE, 4096);
    assert_eq!(page_align(0), 0);
    assert_eq!(page_align(1), 4096);
    assert_eq!(page_align(4096), 4096);
    assert_eq!(page_align(4097), 8192);
    assert_eq!(page_align(LARGE_ALLOC_SIZE + LARGE_OBJECT_SIZE), 20480);
    assert!(is_page_aligned(0));
    assert!(is_page_aligned(8192));
    assert!(!is_page_aligned(8200));
}

#[test]
fn addresses_and_regions() {
    let a = addr(0x1000);
    assert_eq!(a.offset(0x20), addr(0x1020));
    assert_eq!(a.offset(0x20).offset_from(a), 0x20);
    assert_eq!(a.to_usize(), 0x1000);
    assert!(Address::null().is_null());
    assert!(!a.is_null());
    assert!(a.is_non_null());
    assert!(a < addr(0x1001));

    let region = Region::new(addr(0x1000), addr(0x2000));
    assert!(region.contains(addr(0x1000)));
    assert!(region.contains(addr(0x1fff)));
    assert!(!region.contains(addr(0x2000)));
    assert!(!region.contains(addr(0xfff)));
    assert!(region.valid_top(addr(0x2000)));
    assert!(region.valid_top(addr(0x1000)));
    assert!(!region.valid_top(addr(0x2001)));
    assert_eq!(region.size(), 0x1000);
    assert_eq!(Region::empty().size(), 0);

    let range = Range::new(addr(0x1000), addr(0x2000));
    assert!(range.contains(addr(0x1000)));
    assert!(!range.contains(addr(0x2000)));
    assert_eq!(range.size(), 0x1000);
}

#[test]
fn controller_counts_what_it_grants() {
    let mut config = HeapConfig::new(100);
    assert!(config.grow_old(60));
    assert_eq!(config.old_size, 60);
    assert!(!config.grow_old(41));
    assert_eq!(config.old_size, 60);
    assert!(config.grow_old(40));
    assert_eq!(config.old_size, 100);
    assert!(config.grow_old(0));
    assert!(!config.grow_old(usize::MAX));
    assert_eq!(config, HeapConfig { old_size: 100, old_limit: 100 });
}

#[test]
fn large_space_asks_the_controller() {
    let mut space = LargeSpace::new(addr(BASE), addr(BASE + 16 * PAGE_SIZE));
    let mut config = HeapConfig::new(8 * PAGE_SIZE);
    assert_eq!(space.total(), Region::new(addr(BASE), addr(BASE + 16 * PAGE_SIZE)));
    assert!(space.contains(addr(BASE)));
    assert!(!space.contains(addr(BASE + 16 * PAGE_SIZE)));

    let a = space.allocate(&mut config, LARGE_OBJECT_SIZE);
    assert_eq!(a, addr(BASE + LARGE_ALLOC_SIZE));
    assert_eq!(config.old_size, 5 * PAGE_SIZE);
    assert_eq!(space.committed_size(), 5 * PAGE_SIZE);
    assert_eq!(space.head(), addr(BASE));

    let refused = space.allocate(&mut config, LARGE_OBJECT_SIZE);
    assert!(refused.is_null());
    assert_eq!(config.old_size, 5 * PAGE_SIZE);
    assert_eq!(space.committed_size(), 5 * PAGE_SIZE);

    let b = space.allocate(&mut config, 3 * PAGE_SIZE - LARGE_ALLOC_SIZE);
    assert_eq!(b, addr(BASE + 5 * PAGE_SIZE + LARGE_ALLOC_SIZE));
    assert_eq!(config.old_size, 8 * PAGE_SIZE);
    assert_eq!(space.visit_objects(), vec![b, a]);

    let huge = space.allocate(&mut config, usize::MAX - 8);
    assert!(huge.is_null());
    assert_eq!(config.old_size, 8 * PAGE_SIZE);

    let freed = space.remove_objects(&vec![false, true]);
    assert_eq!(freed, vec![Range::new(addr(BASE + 5 * PAGE_SIZE), addr(BASE + 8 * PAGE_SIZE))]);
    assert_eq!(
        space.free_ranges(),
        vec![Range::new(addr(BASE + 5 * PAGE_SIZE), addr(BASE + 16 * PAGE_SIZE))]
    );
}

#[test]
fn growth_that_was_granted_stays_counted() {
    let mut space = LargeSpace::new(addr(BASE), addr(BASE + 4 * PAGE_SIZE));
    let mut config = HeapConfig::new(100 * PAGE_SIZE);
    let object = space.allocate(&mut config, LARGE_OBJECT_SIZE);
    assert!(object.is_null());
    assert_eq!(config.old_size, 5 * PAGE_SIZE);
    assert_eq!(space.committed_size(), 0);
    assert!(space.head().is_null());
}
