use dora_gc::address::Address;
use dora_gc::ctxt::{
    Args, CodeMap, Context, Fct, FctId, FctKind, Gcpoint, JitFct, SafepointFrameInfo, StackMemory,
};
use dora_gc::gc::{Gc, INITIAL_THRESHOLD};

fn addr(value: usize) -> Address {
    Address::from_usize(value)
}

fn args(stress: bool) -> Args {
    Args {
        flag_gc_stress: stress,
        flag_gc_dump: false,
        flag_gc_stats: false,
        flag_gc_verify: false,
        flag_gc_dev_verbose: false,
    }
}

fn context(stress: bool, literals: Vec<Address>) -> Context {
    Context {
        args: args(stress),
        literals,
        code_map: CodeMap::new(),
        fcts: Vec::new(),
        sfi: Some(SafepointFrameInfo { ra: 0, fp: 0 }),
        stack: StackMemory::new(),
    }
}

fn object(gc: &mut Gc, at: usize, size: usize, fields: usize) -> Address {
    gc.append_object(addr(at), size, fields);
    addr(at)
}

#[test]
fn new_collector_is_empty() {
    let gc = Gc::new();
    assert!(gc.obj_start.is_null());
    assert!(gc.obj_end.is_null());
    assert_eq!(gc.bytes_allocated, 0);
    assert_eq!(gc.threshold, INITIAL_THRESHOLD);
    assert_eq!(gc.threshold, 128);
    assert!(gc.cur_marked);
    assert_eq!(gc.collections, 0);
    assert_eq!(gc.allocations, 0);
    assert_eq!(gc.total_allocated, 0);
    assert_eq!(gc.collect_duration, 0);
}

#[test]
fn objects_are_appended_to_the_list() {
    let mut gc = Gc::new();
    let a = object(&mut gc, 0x1000, 24, 1);
    assert_eq!(gc.obj_start, a);
    assert_eq!(gc.obj_end, a);
    let b = object(&mut gc, 0x800, 40, 2);
    let c = object(&mut gc, 0x2000, 8, 0);
    assert_eq!(gc.obj_start, a);
    assert_eq!(gc.obj_end, c);
    assert_eq!(gc.store.succ(a), b);
    assert_eq!(gc.store.succ(b), c);
    assert!(gc.store.succ(c).is_null());
    assert_eq!(gc.bytes_allocated, 72);
    assert_eq!(gc.total_allocated, 72);
    assert_eq!(gc.allocations, 3);
    assert!(!gc.store.marked(b));
    assert_eq!(gc.store.field_count(b), 2);
    assert!(gc.store.field(b, 1).is_null());
}

#[test]
fn simple_linked_list_survives() {
    let mut gc = Gc::new();
    let mut objects = Vec::new();
    for i in 0..1000 {
        objects.push(object(&mut gc, 0x10000 + 32 * i, 16, 1));
    }
    for i in 0..999 {
        gc.set_field(objects[i], 0, objects[i + 1]);
    }
    let ctxt = context(false, vec![objects[0]]);
    let freed = gc.collect(&ctxt);
    assert!(freed.is_empty());
    assert_eq!(gc.bytes_allocated, 16 * 1000);
    assert_eq!(gc.collections, 1);
    assert!(!gc.cur_marked);

    let mut seen = 0;
    let mut cur = objects[0];
    while !cur.is_null() {
        assert!(gc.store.contains(cur));
        assert!(gc.store.marked(cur));
        seen += 1;
        cur = gc.store.field(cur, 0);
    }
    assert_eq!(seen, 1000);
    assert_eq!(gc.obj_start, objects[0]);
    assert_eq!(gc.obj_end, objects[999]);
}

#[test]
fn simple_unreachable_dies() {
    let mut gc = Gc::new();
    let mut objects = Vec::new();
    for i in 0..100 {
        objects.push(object(&mut gc, 0x10000 + 64 * i, 48, 2));
    }
    gc.set_field(objects[3], 1, objects[4]);
    let ctxt = context(false, Vec::new());
    let freed = gc.collect(&ctxt);
    assert_eq!(freed, objects);
    assert_eq!(gc.bytes_allocated, 0);
    assert!(gc.obj_start.is_null());
    assert!(gc.obj_end.is_null());
    assert_eq!(gc.total_allocated, 4800);
    assert!(!gc.store.contains(objects[0]));
}

#[test]
fn sweep_relinks_the_survivors() {
    let mut gc = Gc::new();
    let a = object(&mut gc, 0x100, 8, 0);
    let b = object(&mut gc, 0x200, 16, 1);
    let c = object(&mut gc, 0x300, 24, 0);
    let d = object(&mut gc, 0x400, 32, 1);
    let e = object(&mut gc, 0x500, 40, 0);
    gc.set_field(d, 0, b);
    gc.set_field(b, 0, b);
    let ctxt = context(false, vec![Address::null(), d]);
    let freed = gc.collect(&ctxt);
    assert_eq!(freed, vec![a, c, e]);
    assert_eq!(gc.obj_start, b);
    assert_eq!(gc.obj_end, d);
    assert_eq!(gc.store.succ(b), d);
    assert!(gc.store.succ(d).is_null());
    assert_eq!(gc.bytes_allocated, 48);
    assert_eq!(gc.store.field(d, 0), b);

    let ctxt = context(false, vec![b]);
    let freed = gc.collect(&ctxt);
    assert_eq!(freed, vec![d]);
    assert_eq!(gc.obj_start, b);
    assert_eq!(gc.obj_end, b);
    assert!(gc.cur_marked);
    assert!(!gc.store.marked(b));
    assert_eq!(gc.collections, 2);
}

#[test]
fn allocation_below_the_threshold_does_not_collect() {
    let mut gc = Gc::new();
    let ctxt = context(false, Vec::new());
    let freed = gc.allocate(&ctxt, 100);
    assert!(freed.is_empty());
    assert_eq!(gc.collections, 0);
    object(&mut gc, 0x100, 100, 0);
    let freed = gc.allocate(&ctxt, 28);
    assert!(freed.is_empty());
    assert_eq!(gc.collections, 0);
    assert_eq!(gc.threshold, 128);
}

#[test]
fn allocation_over_the_threshold_collects_and_raises_it() {
    let mut gc = Gc::new();
    let a = object(&mut gc, 0x100, 100, 0);
    let ctxt = context(false, vec![a]);
    let freed = gc.allocate(&ctxt, 29);
    assert!(freed.is_empty());
    assert_eq!(gc.collections, 1);
    assert_eq!(gc.threshold, 170);
    assert_eq!(gc.bytes_allocated, 100);

    let mut gc = Gc::new();
    let a = object(&mut gc, 0x100, 100, 0);
    let ctxt = context(false, Vec::new());
    let freed = gc.allocate(&ctxt, 96);
    assert_eq!(freed, vec![a]);
    assert_eq!(gc.collections, 1);
    assert_eq!(gc.threshold, 128);
    assert_eq!(gc.bytes_allocated, 0);

    let mut gc = Gc::new();
    let a = object(&mut gc, 0x100, 100, 0);
    let freed = gc.allocate(&ctxt, 97);
    assert_eq!(freed, vec![a]);
    assert_eq!(gc.threshold, 170);
}

#[test]
fn stress_collects_at_every_allocation() {
    let mut gc = Gc::new();
    let a = object(&mut gc, 0x100, 8, 0);
    let ctxt = context(true, Vec::new());
    let freed = gc.allocate(&ctxt, 8);
    assert_eq!(freed, vec![a]);
    assert_eq!(gc.collections, 1);
    assert_eq!(gc.threshold, 128);
    let freed = gc.allocate(&ctxt, 1000);
    assert!(freed.is_empty());
    assert_eq!(gc.collections, 2);
    assert_eq!(gc.threshold, 170);
}

#[test]
fn roots_come_from_the_stack() {
    let mut gc = Gc::new();
    let a = object(&mut gc, 0x10_0000, 16, 1);
    let b = object(&mut gc, 0x10_0100, 16, 0);
    let c = object(&mut gc, 0x10_0200, 16, 0);
    let d = object(&mut gc, 0x10_0300, 16, 0);
    let e = object(&mut gc, 0x10_0400, 16, 0);
    gc.set_field(a, 0, e);

    let mut stack = StackMemory::new();
    stack.write(0x7000, 0x7100);
    stack.write(0x7008, 0x1050);
    stack.write(0x6ff8, a.to_usize());
    stack.write(0x7010, 0);
    stack.write(0x7100, 0);
    stack.write(0x7108, 0x9999);
    stack.write(0x70f0, c.to_usize());
    stack.write(0x70f8, d.to_usize());
    let mut code_map = CodeMap::new();
    code_map.insert(0x1000, 0x1100, FctId(0));
    let jit = JitFct {
        fct_start: 0x1000,
        gcpoints: vec![
            (0x20, Gcpoint { offsets: vec![-8, 16] }),
            (0x50, Gcpoint { offsets: vec![-16] }),
        ],
        linenos: Vec::new(),
    };
    let ctxt = Context {
        args: args(false),
        literals: Vec::new(),
        code_map,
        fcts: vec![Fct { kind: FctKind::Source(Some(jit)) }],
        sfi: Some(SafepointFrameInfo { ra: 0x1020, fp: 0x7000 }),
        stack,
    };
    let freed = gc.collect(&ctxt);
    assert_eq!(freed, vec![b, d]);
    assert_eq!(gc.bytes_allocated, 48);
    assert_eq!(gc.store.succ(a), c);
    assert_eq!(gc.store.succ(c), e);
}

#[test]
fn duration_is_recorded_and_all_is_released() {
    let mut gc = Gc::new();
    let a = object(&mut gc, 0x100, 8, 0);
    let b = object(&mut gc, 0x200, 8, 0);
    gc.record_duration(5);
    gc.record_duration(7);
    assert_eq!(gc.collect_duration, 12);
    let freed = gc.release();
    assert_eq!(freed, vec![a, b]);
    assert_eq!(gc.bytes_allocated, 0);
    assert!(gc.obj_start.is_null());
    assert!(!gc.store.contains(a));
    assert_eq!(gc.allocations, 2);
}

#[test]
fn references_are_checked() {
    let mut gc = Gc::new();
    let a = object(&mut gc, 0x100, 16, 0);
    assert!(gc.references_ok());
    let freed = gc.collect(&context(false, vec![a]));
    assert!(freed.is_empty());
    assert!(gc.references_ok());
    assert!(!gc.cur_marked);

    // a new object has the mark of this cycle already: it is kept, and what
    // it alone refers to is not
    let b = object(&mut gc, 0x200, 16, 1);
    gc.set_field(b, 0, a);
    assert!(gc.references_ok());
    let freed = gc.collect(&context(false, vec![b]));
    assert_eq!(freed, vec![a]);
    assert!(gc.store.contains(b));
    assert_eq!(gc.store.field(b, 0), a);
    assert!(!gc.references_ok());
}

#[test]
fn stress_raises_the_threshold_too() {
    let mut gc = Gc::new();
    let ctxt = context(true, Vec::new());
    let freed = gc.allocate(&ctxt, 96);
    assert!(freed.is_empty());
    assert_eq!(gc.threshold, 128);
    let freed = gc.allocate(&ctxt, 97);
    assert!(freed.is_empty());
    assert_eq!(gc.threshold, 170);
    assert_eq!(gc.collections, 2);
}
