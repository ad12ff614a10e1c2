use dora_gc::ctxt::{
    Args, CodeMap, Context, Fct, FctId, FctKind, Gcpoint, JitFct, SafepointFrameInfo, StackMemory,
};
use dora_gc::rootset::{
    determine_rootset, get_rootset, slot_at, try_determine_rootset, try_get_rootset,
};
use dora_gc::x64;
use dora_gc::x64::StackElem;

fn args() -> Args {
    Args {
        flag_gc_stress: false,
        flag_gc_dump: false,
        flag_gc_stats: false,
        flag_gc_verify: false,
        flag_gc_dev_verbose: false,
    }
}

fn jit() -> JitFct {
    JitFct {
        fct_start: 0x1000,
        gcpoints: vec![
            (0x20, Gcpoint { offsets: vec![-8, 16] }),
            (0x50, Gcpoint { offsets: vec![-16] }),
            (0x50, Gcpoint { offsets: vec![24] }),
            (0x60, Gcpoint { offsets: Vec::new() }),
        ],
        linenos: vec![(0x20, 3), (0x50, 7), (0x50, 9), (0x60, 12)],
    }
}

fn program(kind: FctKind, sfi: Option<SafepointFrameInfo>) -> Context {
    let mut stack = StackMemory::new();
    stack.write(0x7000, 0x7100);
    stack.write(0x7008, 0x1050);
    stack.write(0x6ff0, 44);
    stack.write(0x6ff8, 11);
    stack.write(0x7010, 22);
    stack.write(0x7100, 0x7200);
    stack.write(0x7108, 0x2010);
    stack.write(0x70f0, 33);
    stack.write(0x7200, 0);
    stack.write(0x7208, 0x1060);
    let mut code_map = CodeMap::new();
    code_map.insert(0x1000, 0x1100, FctId(0));
    code_map.insert(0x2000, 0x2100, FctId(1));
    code_map.insert(0x1000, 0x3000, FctId(2));
    Context {
        args: args(),
        literals: Vec::new(),
        code_map,
        fcts: vec![Fct { kind: FctKind::Source(Some(jit())) }, Fct { kind }],
        sfi,
        stack,
    }
}

#[test]
fn slots_are_offsets_from_the_frame_pointer() {
    assert_eq!(slot_at(0x7000, -8), Some(0x6ff8));
    assert_eq!(slot_at(0x7000, 16), Some(0x7010));
    assert_eq!(slot_at(4, -8), None);
    assert_eq!(slot_at(8, -8), Some(0));
    assert_eq!(slot_at(usize::MAX, 1), None);
    assert_eq!(slot_at(0x8000_0000, i32::MIN), Some(0));
    assert_eq!(slot_at(0x7fff_ffff, i32::MIN), None);
}

#[test]
fn code_map_finds_the_first_entry() {
    let ctxt = program(FctKind::Builtin, None);
    assert_eq!(ctxt.code_map.get(0x1000), Some(FctId(0)));
    assert_eq!(ctxt.code_map.get(0x10ff), Some(FctId(0)));
    assert_eq!(ctxt.code_map.get(0x1100), Some(FctId(2)));
    assert_eq!(ctxt.code_map.get(0x2050), Some(FctId(1)));
    assert_eq!(ctxt.code_map.get(0x3000), None);
    assert_eq!(ctxt.code_map.get(0xfff), None);
}

#[test]
fn gcpoints_and_lines_are_found_by_offset() {
    let jit = jit();
    assert_eq!(jit.gcpoint_for_offset(0x50), Some(1));
    assert_eq!(jit.gcpoint_for_offset(0x60), Some(3));
    assert_eq!(jit.gcpoint_for_offset(0x21), None);
    assert_eq!(jit.lineno_for_offset(0x50), 7);
    assert_eq!(jit.lineno_for_offset(0x20), 3);
    assert_eq!(jit.lineno_for_offset(0x30), 0);
    assert_eq!(jit.fct_ptr(), 0x1000);
}

#[test]
fn walk_stops_at_an_unknown_function() {
    let ctxt = program(FctKind::Builtin, Some(SafepointFrameInfo { ra: 0x1020, fp: 0x7000 }));
    let mut roots = vec![1];
    assert_eq!(try_determine_rootset(&mut roots, &ctxt, 0x7000, 0x1020), Some(true));
    assert_eq!(roots, vec![1, 11, 22]);
    assert_eq!(try_determine_rootset(&mut roots, &ctxt, 0x7000, 0x4000), Some(false));
    assert_eq!(roots, vec![1, 11, 22]);
    assert_eq!(try_determine_rootset(&mut roots, &ctxt, 0x7000, 0x1021), None);
    assert_eq!(try_determine_rootset(&mut roots, &ctxt, 0x7000, 0x2010), None);
    assert_eq!(try_determine_rootset(&mut roots, &ctxt, 0x100, 0x1020), None);

    let ctxt = program(FctKind::Builtin, Some(SafepointFrameInfo { ra: 0x4000, fp: 0x7000 }));
    assert_eq!(get_rootset(&ctxt), Vec::<usize>::new());
    let ctxt = program(FctKind::Builtin, Some(SafepointFrameInfo { ra: 0x1060, fp: 0x7200 }));
    assert_eq!(get_rootset(&ctxt), Vec::<usize>::new());
    let ctxt = program(FctKind::Builtin, Some(SafepointFrameInfo { ra: 0x1020, fp: 0 }));
    assert_eq!(get_rootset(&ctxt), Vec::<usize>::new());
}

#[test]
fn walk_is_fatal_without_a_source_function() {
    let ctxt = program(FctKind::Builtin, Some(SafepointFrameInfo { ra: 0x1020, fp: 0x7000 }));
    assert_eq!(try_get_rootset(&ctxt), None);
    let ctxt = program(FctKind::Source(None), Some(SafepointFrameInfo { ra: 0x1020, fp: 0x7000 }));
    assert_eq!(try_get_rootset(&ctxt), None);
    let ctxt = program(FctKind::Builtin, None);
    assert_eq!(try_get_rootset(&ctxt), None);
    let ctxt = program(FctKind::Builtin, Some(SafepointFrameInfo { ra: 0x1020, fp: 0x6000 }));
    assert_eq!(try_get_rootset(&ctxt), None);
}

#[test]
fn walk_collects_the_roots_of_every_frame() {
    let other = JitFct {
        fct_start: 0x2000,
        gcpoints: vec![(0x10, Gcpoint { offsets: vec![8, 0] })],
        linenos: vec![(0x10, 40)],
    };
    let ctxt = program(
        FctKind::Source(Some(other)),
        Some(SafepointFrameInfo { ra: 0x1020, fp: 0x7000 }),
    );
    assert_eq!(try_get_rootset(&ctxt), Some(vec![11, 22, 33, 0x1060, 0]));
    assert_eq!(get_rootset(&ctxt), vec![11, 22, 33, 0x1060, 0]);
}

#[test]
fn x64_walk_reads_each_frame_at_its_return_address() {
    let ctxt = program(FctKind::Builtin, None);
    assert_eq!(x64::try_get_rootset(&ctxt, 0x7000, 0x1020), Some(vec![11, 22, 44]));
    assert_eq!(x64::get_rootset(&ctxt, 0x7000, 0x1020), vec![11, 22, 44]);
    assert_eq!(x64::try_get_rootset(&ctxt, 0x7000, 0x4000), Some(vec![44]));
    assert_eq!(x64::try_get_rootset(&ctxt, 0, 0x1060), Some(Vec::new()));
    assert_eq!(x64::try_get_rootset(&ctxt, 0x7000, 0x1021), None);
    assert_eq!(x64::try_get_rootset(&ctxt, 0x6000, 0x4000), None);
    let ctxt = program(FctKind::Source(None), None);
    assert_eq!(x64::try_get_rootset(&ctxt, 0x7000, 0x1020), Some(vec![11, 22, 44]));
}

#[test]
fn stack_trace_names_function_and_line() {
    let ctxt = program(FctKind::Builtin, None);
    let trace = x64::get_stacktrace(&ctxt, 0x1020, 0x7000);
    assert_eq!(
        trace.elems,
        vec![
            StackElem { fct_id: FctId(0), lineno: 3 },
            StackElem { fct_id: FctId(0), lineno: 7 },
            StackElem { fct_id: FctId(1), lineno: 0 },
            StackElem { fct_id: FctId(0), lineno: 12 },
        ]
    );
    assert!(x64::try_get_stacktrace(&ctxt, 0x1030, 0x7000).is_none());
    assert!(x64::try_get_stacktrace(&ctxt, 0x1020, 0x7008).is_none());
    let trace = x64::try_get_stacktrace(&ctxt, 0x4000, 0).unwrap();
    assert!(trace.elems.is_empty());
    let ctxt = program(FctKind::Source(None), None);
    assert!(x64::try_get_stacktrace(&ctxt, 0x1020, 0x7000).is_none());
}

#[test]
fn a_frame_gives_its_roots_in_the_order_of_the_gcpoint() {
    let ctxt = program(FctKind::Builtin, None);
    let mut roots = vec![5, 6];
    assert!(determine_rootset(&mut roots, &ctxt, 0x7000, 0x1020));
    assert_eq!(roots, vec![5, 6, 11, 22]);
    assert!(determine_rootset(&mut roots, &ctxt, 0x7000, 0x1050));
    assert_eq!(roots, vec![5, 6, 11, 22, 44]);
    assert!(determine_rootset(&mut roots, &ctxt, 0x7000, 0x1060));
    assert_eq!(roots, vec![5, 6, 11, 22, 44]);
    assert!(!determine_rootset(&mut roots, &ctxt, 0x7000, 0x3000));
    assert!(!determine_rootset(&mut roots, &ctxt, 0x7000, 0xfff));
    assert_eq!(roots, vec![5, 6, 11, 22, 44]);
}

#[test]
fn a_frame_of_the_thread_gives_roots_and_a_line() {
    let ctxt = program(FctKind::Builtin, None);
    let mut roots = vec![9];
    x64::determine_rootset(&mut roots, &ctxt, 0x7000, 0x1020);
    assert_eq!(roots, vec![9, 11, 22]);
    x64::determine_rootset(&mut roots, &ctxt, 0x7000, 0x2010);
    x64::determine_rootset(&mut roots, &ctxt, 0x7000, 0x4000);
    assert_eq!(roots, vec![9, 11, 22]);
    assert!(!x64::try_determine_rootset(&mut roots, &ctxt, 0x7000, 0x1021));

    let mut trace = x64::Stacktrace::new();
    x64::determine_stack_entry(&mut trace, &ctxt, 0x1050);
    x64::determine_stack_entry(&mut trace, &ctxt, 0x4000);
    x64::determine_stack_entry(&mut trace, &ctxt, 0x2010);
    assert_eq!(
        trace.elems,
        vec![StackElem { fct_id: FctId(0), lineno: 7 }, StackElem { fct_id: FctId(1), lineno: 0 }]
    );
    assert!(!x64::try_determine_stack_entry(&mut trace, &ctxt, 0x1030));
    assert_eq!(trace.elems.len(), 2);
}
