//! The walks of the stack that start from the registers of the running
//! thread: for the rootset, and for a stack trace.

use crate::ctxt::{Context, FctId, FctKind};
use crate::rootset::{caller, caller_of, push_slots, slots};
use vstd::prelude::*;

verus! {

/// The roots of the frame at `fp` that stands at `pc`: none where the code
/// map knows no function for `pc` or the function is not compiled from
/// source, and the words in the slots of the gcpoint for `pc` otherwise.
/// `None` where the function has no gcpoint for `pc`, or a slot is not a
/// word of the stack.
pub open spec fn frame_roots(ctxt: &Context, fp: usize, pc: usize) -> Option<Seq<usize>> {
    match ctxt.code_map.spec_get(pc) {
        None => Some(Seq::empty()),
        Some(id) => if id.0 < ctxt.fcts@.len() {
            match ctxt.fcts@[id.0 as int].kind {
                FctKind::Source(Some(jit)) => {
                    let offset = (pc - jit.fct_start) as i32;
                    if pc >= jit.fct_start && jit.has_gcpoint(offset) {
                        slots(
                            ctxt.stack.words@,
                            fp,
                            jit.gcpoint_offsets(offset),
                            jit.gcpoint_offsets(offset).len() as int,
                        )
                    } else {
                        None
                    }
                },
                _ => Some(Seq::empty()),
            }
        } else {
            None
        },
    }
}

/// The roots that the walk up from the frame at `fp` finds: for each frame
/// from this one up to the end of the stack, the roots of the frame at the
/// return address that it holds. `None` where the walk is fatal.
pub open spec fn walk(ctxt: &Context, fp: usize) -> Option<Seq<usize>>
    decreases usize::MAX - fp,
{
    if fp == 0 {
        Some(Seq::empty())
    } else {
        match caller(ctxt.stack.words@, fp) {
            Some(above) => match frame_roots(ctxt, fp, above.0) {
                Some(roots) => if above.1 > fp {
                    match walk(ctxt, above.1) {
                        Some(rest) => Some(roots + rest),
                        None => None,
                    }
                } else {
                    Some(roots)
                },
                None => None,
            },
            None => None,
        }
    }
}

/// The rootset of a thread whose frame pointer is `fp` and which stands at
/// `pc`: the roots of its frame at `pc`, then what the walk up from the
/// frame finds.
pub open spec fn rootset(ctxt: &Context, fp: usize, pc: usize) -> Option<Seq<usize>> {
    match (frame_roots(ctxt, fp, pc), walk(ctxt, fp)) {
        (Some(top), Some(rest)) => Some(top + rest),
        _ => None,
    }
}

/// Appends the roots of the frame at `fp`, which stands at `pc`, to
/// `rootset`. Returns whether the frame was not fatal.
pub fn try_determine_rootset(rootset: &mut Vec<usize>, ctxt: &Context, fp: usize, pc: usize) -> (ok:
    bool)
    ensures
        ok == frame_roots(ctxt, fp, pc).is_some(),
        ok ==> final(rootset)@ == old(rootset)@ + frame_roots(ctxt, fp, pc).unwrap(),
{
    match ctxt.code_map.get(pc) {
        Some(fct_id) => {
            if fct_id.0 >= ctxt.fcts.len() {
                return false;
            }
            match &ctxt.fcts[fct_id.0].kind {
                FctKind::Source(Some(jit_fct)) => {
                    if pc < jit_fct.fct_ptr() {
                        return false;
                    }
                    let offset = pc - jit_fct.fct_ptr();
                    match jit_fct.gcpoint_for_offset(#[verifier::truncate] (offset as i32)) {
                        Some(idx) => push_slots(
                            rootset,
                            &ctxt.stack,
                            fp,
                            &jit_fct.gcpoints[idx].1.offsets,
                        ),
                        None => false,
                    }
                },
                _ => {
                    proof {
                        assert(rootset@ + Seq::<usize>::empty() =~= rootset@);
                    }
                    true
                },
            }
        },
        None => {
            proof {
                assert(rootset@ + Seq::<usize>::empty() =~= rootset@);
            }
            true
        },
    }
}

/// Appends the roots of the frame at `fp`, which stands at `pc`, to
/// `rootset`; nothing where the code map knows no function for `pc`, or
/// one without compiled code. The frame must not be fatal: a function with
/// compiled code has a gcpoint for `pc`, whose slots are words of the stack.
pub fn determine_rootset(rootset: &mut Vec<usize>, ctxt: &Context, fp: usize, pc: usize)
    requires
        frame_roots(ctxt, fp, pc).is_some(),
    ensures
        final(rootset)@ == old(rootset)@ + frame_roots(ctxt, fp, pc).unwrap(),
{
    let found = try_determine_rootset(rootset, ctxt, fp, pc);
    assert(found);
}

/// The rootset of a thread whose frame pointer is `fp` and which stands at
/// `pc`; `None` where the walk is fatal.
pub fn try_get_rootset(ctxt: &Context, fp: usize, pc: usize) -> (r: Option<Vec<usize>>)
    ensures
        r.is_some() == rootset(ctxt, fp, pc).is_some(),
        r.is_some() ==> r.unwrap()@ == rootset(ctxt, fp, pc).unwrap(),
{
    let mut roots: Vec<usize> = Vec::new();
    if !try_determine_rootset(&mut roots, ctxt, fp, pc) {
        return None;
    }
    let ghost top = roots@;
    let ghost start = fp;
    let mut cur = fp;
    while cur != 0
        invariant
            start == fp,
            frame_roots(ctxt, start, pc) == Some(top),
            match walk(ctxt, cur) {
                Some(rest) => match walk(ctxt, start) {
                    Some(all) => top + all == roots@ + rest,
                    None => false,
                },
                None => walk(ctxt, start).is_none(),
            },
        decreases usize::MAX - cur,
    {
        let ghost before = roots@;
        let (ra, next) = match caller_of(&ctxt.stack, cur) {
            Some(above) => above,
            None => {
                return None;
            },
        };
        if !try_determine_rootset(&mut roots, ctxt, cur, ra) {
            return None;
        }
        proof {
            let here = frame_roots(ctxt, cur, ra).unwrap();
            let all = walk(ctxt, start);
            if next > cur {
                match walk(ctxt, next) {
                    Some(rest) => {
                        assert(walk(ctxt, cur) == Some(here + rest));
                        assert(before + (here + rest) =~= roots@ + rest);
                    },
                    None => {},
                }
            } else {
                assert(walk(ctxt, cur) == Some(here));
                assert(roots@ =~= before + here);
            }
        }
        if next == 0 {
            proof {
                assert(roots@ + Seq::<usize>::empty() =~= roots@);
            }
            return Some(roots);
        }
        cur = next;
    }
    proof {
        assert(roots@ + Seq::<usize>::empty() =~= roots@);
    }
    Some(roots)
}

/// The rootset of a thread whose frame pointer is `fp` and which stands at
/// `pc`. The walk must not be fatal.
pub fn get_rootset(ctxt: &Context, fp: usize, pc: usize) -> (r: Vec<usize>)
    requires
        rootset(ctxt, fp, pc).is_some(),
    ensures
        r@ == rootset(ctxt, fp, pc).unwrap(),
{
    try_get_rootset(ctxt, fp, pc).unwrap()
}

/// One entry of a stack trace: a function and the line it stands at.
#[derive(Copy, Clone, PartialEq, Eq, Structural, Debug)]
pub struct StackElem {
    pub fct_id: FctId,
    pub lineno: i32,
}

/// A stack trace, from the innermost frame outwards.
pub struct Stacktrace {
    pub elems: Vec<StackElem>,
}

impl Stacktrace {
    /// A stack trace without entries.
    pub fn new() -> (r: Stacktrace)
        ensures
            r.elems@.len() == 0,
    {
        Stacktrace { elems: Vec::new() }
    }

    /// Appends the entry of a frame further out.
    pub fn push_entry(&mut self, fct_id: FctId, lineno: i32)
        ensures
            final(self).elems@ == old(self).elems@.push(StackElem { fct_id, lineno }),
    {
        self.elems.push(StackElem { fct_id, lineno });
    }
}

/// The entry of the stack trace for a frame that stands at `pc`: none where
/// the code map knows no function for `pc`; the function with line 0 where
/// it is not one with source; the function with the line recorded for `pc`
/// otherwise. `None` where the function with source is not compiled, or no
/// line is recorded for `pc`.
pub open spec fn stack_entry(ctxt: &Context, pc: usize) -> Option<Seq<StackElem>> {
    match ctxt.code_map.spec_get(pc) {
        None => Some(Seq::empty()),
        Some(id) => if id.0 < ctxt.fcts@.len() {
            match ctxt.fcts@[id.0 as int].kind {
                FctKind::Source(Some(jit)) => {
                    let lineno = jit.spec_lineno(
                        (pc - jit.fct_start) as i32,
                        jit.linenos@.len() as int,
                    );
                    if pc >= jit.fct_start && lineno != 0 {
                        Some(seq![StackElem { fct_id: id, lineno }])
                    } else {
                        None
                    }
                },
                FctKind::Source(None) => None,
                _ => Some(seq![StackElem { fct_id: id, lineno: 0 }]),
            }
        } else {
            None
        },
    }
}

/// The entries of the stack trace for the frames from the one at `rbp` up
/// to the end of the stack, each at the return address that the frame
/// holds. `None` where the walk is fatal.
pub open spec fn trace(ctxt: &Context, rbp: usize) -> Option<Seq<StackElem>>
    decreases usize::MAX - rbp,
{
    if rbp == 0 {
        Some(Seq::empty())
    } else {
        match caller(ctxt.stack.words@, rbp) {
            Some(above) => match stack_entry(ctxt, above.0) {
                Some(entry) => if above.1 > rbp {
                    match trace(ctxt, above.1) {
                        Some(rest) => Some(entry + rest),
                        None => None,
                    }
                } else {
                    Some(entry)
                },
                None => None,
            },
            None => None,
        }
    }
}

/// The stack trace of a thread that stands at `pc` with the frame pointer `rbp`.
pub open spec fn stacktrace(ctxt: &Context, pc: usize, rbp: usize) -> Option<Seq<StackElem>> {
    match (stack_entry(ctxt, pc), trace(ctxt, rbp)) {
        (Some(top), Some(rest)) => Some(top + rest),
        _ => None,
    }
}

/// Appends the entry for a frame that stands at `pc` to `stacktrace`.
/// Returns whether the frame was not fatal.
pub fn try_determine_stack_entry(stacktrace: &mut Stacktrace, ctxt: &Context, pc: usize) -> (ok:
    bool)
    ensures
        ok == stack_entry(ctxt, pc).is_some(),
        ok ==> final(stacktrace).elems@ == old(stacktrace).elems@ + stack_entry(ctxt, pc).unwrap(),
{
    match ctxt.code_map.get(pc) {
        Some(fct_id) => {
            if fct_id.0 >= ctxt.fcts.len() {
                return false;
            }
            let mut lineno: i32 = 0;
            match &ctxt.fcts[fct_id.0].kind {
                FctKind::Source(Some(jit_fct)) => {
                    if pc < jit_fct.fct_ptr() {
                        return false;
                    }
                    let offset = pc - jit_fct.fct_ptr();
                    lineno = jit_fct.lineno_for_offset(#[verifier::truncate] (offset as i32));
                    if lineno == 0 {
                        return false;
                    }
                },
                FctKind::Source(None) => {
                    return false;
                },
                _ => {},
            }
            let ghost before = stacktrace.elems@;
            stacktrace.push_entry(fct_id, lineno);
            proof {
                assert(stacktrace.elems@ =~= before + seq![StackElem { fct_id, lineno }]);
            }
            true
        },
        None => {
            proof {
                assert(stacktrace.elems@ + Seq::<StackElem>::empty() =~= stacktrace.elems@);
            }
            true
        },
    }
}

/// Appends the entry for a frame that stands at `pc` to `stacktrace`;
/// nothing where the code map knows no function for `pc`. The frame must
/// not be fatal: a function with source is compiled and has a line for `pc`.
pub fn determine_stack_entry(stacktrace: &mut Stacktrace, ctxt: &Context, pc: usize)
    requires
        stack_entry(ctxt, pc).is_some(),
    ensures
        final(stacktrace).elems@ == old(stacktrace).elems@ + stack_entry(ctxt, pc).unwrap(),
{
    let found = try_determine_stack_entry(stacktrace, ctxt, pc);
    assert(found);
}

/// The stack trace of a thread that stands at `pc` with the frame pointer
/// `rbp`; `None` where the walk is fatal.
pub fn try_get_stacktrace(ctxt: &Context, pc: usize, rbp: usize) -> (r: Option<Stacktrace>)
    ensures
        r.is_some() == stacktrace(ctxt, pc, rbp).is_some(),
        r.is_some() ==> r.unwrap().elems@ == stacktrace(ctxt, pc, rbp).unwrap(),
{
    let mut result = Stacktrace::new();
    if !try_determine_stack_entry(&mut result, ctxt, pc) {
        return None;
    }
    let ghost top = result.elems@;
    let ghost start = rbp;
    let mut cur = rbp;
    while cur != 0
        invariant
            start == rbp,
            stack_entry(ctxt, pc) == Some(top),
            match trace(ctxt, cur) {
                Some(rest) => match trace(ctxt, start) {
                    Some(all) => top + all == result.elems@ + rest,
                    None => false,
                },
                None => trace(ctxt, start).is_none(),
            },
        decreases usize::MAX - cur,
    {
        let ghost before = result.elems@;
        let (ra, next) = match caller_of(&ctxt.stack, cur) {
            Some(above) => above,
            None => {
                return None;
            },
        };
        if !try_determine_stack_entry(&mut result, ctxt, ra) {
            return None;
        }
        proof {
            let here = stack_entry(ctxt, ra).unwrap();
            if next > cur {
                match trace(ctxt, next) {
                    Some(rest) => {
                        assert(trace(ctxt, cur) == Some(here + rest));
                        assert(before + (here + rest) =~= result.elems@ + rest);
                    },
                    None => {},
                }
            } else {
                assert(trace(ctxt, cur) == Some(here));
                assert(result.elems@ =~= before + here);
            }
        }
        if next == 0 {
            proof {
                assert(result.elems@ + Seq::<StackElem>::empty() =~= result.elems@);
            }
            return Some(result);
        }
        cur = next;
    }
    proof {
        assert(result.elems@ + Seq::<StackElem>::empty() =~= result.elems@);
    }
    Some(result)
}

/// The stack trace of a thread that stands at `pc` with the frame pointer
/// `rbp`. The walk must not be fatal.
pub fn get_stacktrace(ctxt: &Context, pc: usize, rbp: usize) -> (r: Stacktrace)
    requires
        stacktrace(ctxt, pc, rbp).is_some(),
    ensures
        r.elems@ == stacktrace(ctxt, pc, rbp).unwrap(),
{
    try_get_stacktrace(ctxt, pc, rbp).unwrap()
}

} // verus!
