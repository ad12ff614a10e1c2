//! The rootset: the references in the stack slots that the gcpoints of the
//! frames on the stack name, found by a walk from the frame that entered
//! the collector up the saved frame pointers.

use crate::ctxt::{Context, FctKind, JitFct, StackMemory};
use vstd::prelude::*;

verus! {

/// The address `offset` bytes from `fp`, if it is an address.
pub open spec fn slot_address(fp: usize, offset: i32) -> Option<usize> {
    if 0 <= fp + offset <= usize::MAX {
        Some((fp + offset) as usize)
    } else {
        None
    }
}

/// The address `offset` bytes from `fp`, if it is an address.
pub fn slot_at(fp: usize, offset: i32) -> (r: Option<usize>)
    ensures
        r == slot_address(fp, offset),
{
    if offset >= 0 {
        let up: usize = offset as usize;
        if fp <= usize::MAX - up {
            Some(fp + up)
        } else {
            None
        }
    } else {
        let down: usize = (-(offset + 1)) as usize + 1;
        if down <= fp {
            Some(fp - down)
        } else {
            None
        }
    }
}

/// The words in the stack slots at `offsets` from `fp`, the first `upto` of
/// them; `None` where one of the slots is not a word of the stack.
pub open spec fn slots(stack: Map<usize, usize>, fp: usize, offsets: Seq<i32>, upto: int) -> Option<
    Seq<usize>,
>
    decreases upto,
{
    if upto <= 0 {
        Some(Seq::empty())
    } else {
        match (slots(stack, fp, offsets, upto - 1), slot_address(fp, offsets[upto - 1])) {
            (Some(front), Some(addr)) => if stack.contains_key(addr) {
                Some(front.push(stack[addr]))
            } else {
                None
            },
            _ => None,
        }
    }
}

/// The code of the function that holds `pc`, if that is a function with
/// source that is compiled.
pub open spec fn jit_of(ctxt: &Context, pc: usize) -> Option<JitFct> {
    match ctxt.code_map.spec_get(pc) {
        Some(id) => if id.0 < ctxt.fcts@.len() {
            match ctxt.fcts@[id.0 as int].kind {
                FctKind::Source(Some(jit)) => Some(jit),
                _ => None,
            }
        } else {
            None
        },
        None => None,
    }
}

/// The roots of the frame at `fp` that stands at `pc` in a function of the
/// code map: the words in the slots of the gcpoint for `pc`. `None` where
/// the function is not one with source that is compiled, where it has no
/// gcpoint for `pc`, or where a slot is not a word of the stack.
pub open spec fn frame_roots(ctxt: &Context, fp: usize, pc: usize) -> Option<Seq<usize>> {
    match jit_of(ctxt, pc) {
        Some(jit) => {
            let offset = (pc - jit.fct_start) as i32;
            if pc >= jit.fct_start && jit.has_gcpoint(offset) {
                slots(
                    ctxt.stack.words@,
                    fp,
                    jit.gcpoint_offsets(offset),
                    jit.gcpoint_offsets(offset).len() as int,
                )
            } else {
                None
            }
        },
        None => None,
    }
}

/// The frame above the frame at `fp`: its return address and its frame
/// pointer, as saved in the frame at `fp`. `None` where they are not words
/// of the stack, or where the frame above does not lie above.
pub open spec fn caller(stack: Map<usize, usize>, fp: usize) -> Option<(usize, usize)> {
    if fp + 8 <= usize::MAX && stack.contains_key((fp + 8) as usize) && stack.contains_key(fp) && (
    stack[fp] == 0 || stack[fp] > fp) {
        Some((stack[(fp + 8) as usize], stack[fp]))
    } else {
        None
    }
}

/// The frame above the frame at `fp`.
pub fn caller_of(stack: &StackMemory, fp: usize) -> (r: Option<(usize, usize)>)
    ensures
        r == caller(stack.words@, fp),
{
    if fp > usize::MAX - 8 {
        return None;
    }
    match (stack.read(fp + 8), stack.read(fp)) {
        (Some(pc), Some(next)) => if next == 0 || next > fp {
            Some((pc, next))
        } else {
            None
        },
        _ => None,
    }
}

/// The rootset that the walk from the frame at `fp`, which stands at `pc`,
/// finds: the roots of each frame up to the first whose function the code
/// map does not know, or to the end of the stack. `None` where the walk
/// is fatal: where a frame of a known function has no roots to give, or the
/// frame above it cannot be read.
pub open spec fn walk(ctxt: &Context, fp: usize, pc: usize) -> Option<Seq<usize>>
    decreases usize::MAX - fp,
{
    if fp == 0 || ctxt.code_map.spec_get(pc).is_none() {
        Some(Seq::empty())
    } else {
        match (frame_roots(ctxt, fp, pc), caller(ctxt.stack.words@, fp)) {
            (Some(roots), Some(above)) => if above.1 > fp {
                match walk(ctxt, above.1, above.0) {
                    Some(rest) => Some(roots + rest),
                    None => None,
                }
            } else {
                Some(roots)
            },
            _ => None,
        }
    }
}

/// The rootset of the program: what the walk from the frame that entered
/// the collector finds. `None` where no such frame is recorded, or the walk
/// is fatal.
pub open spec fn rootset(ctxt: &Context) -> Option<Seq<usize>> {
    match ctxt.sfi {
        Some(sfi) => walk(ctxt, sfi.fp, sfi.ra),
        None => None,
    }
}

/// Reads the words in the stack slots at `offsets` from `fp` and appends
/// them to `rootset`. Returns whether all slots could be read.
pub fn push_slots(rootset: &mut Vec<usize>, stack: &StackMemory, fp: usize, offsets: &Vec<i32>) -> (ok:
    bool)
    ensures
        ok == slots(stack.words@, fp, offsets@, offsets@.len() as int).is_some(),
        ok ==> final(rootset)@ == old(rootset)@ + slots(
            stack.words@,
            fp,
            offsets@,
            offsets@.len() as int,
        ).unwrap(),
{
    let mut i: usize = 0;
    while i < offsets.len()
        invariant
            i <= offsets@.len(),
            slots(stack.words@, fp, offsets@, i as int).is_some(),
            rootset@ == old(rootset)@ + slots(stack.words@, fp, offsets@, i as int).unwrap(),
        decreases offsets@.len() - i,
    {
        let ghost front = slots(stack.words@, fp, offsets@, i as int).unwrap();
        let word = match slot_at(fp, offsets[i]) {
            Some(addr) => stack.read(addr),
            None => None,
        };
        match word {
            Some(obj) => {
                rootset.push(obj);
                proof {
                    assert(rootset@ =~= old(rootset)@ + front.push(obj));
                }
            },
            None => {
                proof {
                    lemma_slots_fail(stack.words@, fp, offsets@, i + 1, offsets@.len() as int);
                }
                return false;
            },
        }
        i += 1;
    }
    true
}

/// Where the first slots cannot all be read, neither can more of them.
pub proof fn lemma_slots_fail(
    stack: Map<usize, usize>,
    fp: usize,
    offsets: Seq<i32>,
    failed: int,
    upto: int,
)
    requires
        slots(stack, fp, offsets, failed).is_none(),
        failed <= upto,
    ensures
        slots(stack, fp, offsets, upto).is_none(),
    decreases upto - failed,
{
    if failed < upto {
        lemma_slots_fail(stack, fp, offsets, failed, upto - 1);
    }
}

/// Appends the roots of the frame at `fp`, which stands at `pc`, to
/// `rootset`. Returns `Some(false)` where the code map knows no function
/// for `pc`, `Some(true)` where it does and the roots were appended, and
/// `None` where the frame is fatal.
pub fn try_determine_rootset(rootset: &mut Vec<usize>, ctxt: &Context, fp: usize, pc: usize) -> (r:
    Option<bool>)
    ensures
        ctxt.code_map.spec_get(pc).is_none() ==> r == Some(false) && final(rootset)@ == old(
            rootset,
        )@,
        ctxt.code_map.spec_get(pc).is_some() ==> match frame_roots(ctxt, fp, pc) {
            Some(roots) => r == Some(true) && final(rootset)@ == old(rootset)@ + roots,
            None => r.is_none(),
        },
{
    match ctxt.code_map.get(pc) {
        Some(fct_id) => {
            if fct_id.0 >= ctxt.fcts.len() {
                return None;
            }
            match &ctxt.fcts[fct_id.0].kind {
                FctKind::Source(Some(jit_fct)) => {
                    if pc < jit_fct.fct_ptr() {
                        return None;
                    }
                    let offset = pc - jit_fct.fct_ptr();
                    match jit_fct.gcpoint_for_offset(#[verifier::truncate] (offset as i32)) {
                        Some(idx) => {
                            if push_slots(rootset, &ctxt.stack, fp, &jit_fct.gcpoints[idx].1.offsets) {
                                Some(true)
                            } else {
                                None
                            }
                        },
                        None => None,
                    }
                },
                _ => None,
            }
        },
        None => Some(false),
    }
}

/// Appends the roots of the frame at `fp`, which stands at `pc`, to
/// `rootset`, and returns whether the code map knows a function for `pc`.
/// Where it does, the frame must not be fatal: the function is one with
/// source that is compiled, it has a gcpoint for `pc`, and the slots of the
/// gcpoint are words of the stack.
pub fn determine_rootset(rootset: &mut Vec<usize>, ctxt: &Context, fp: usize, pc: usize) -> (r: bool)
    requires
        ctxt.code_map.spec_get(pc).is_some() ==> frame_roots(ctxt, fp, pc).is_some(),
    ensures
        r == ctxt.code_map.spec_get(pc).is_some(),
        !r ==> final(rootset)@ == old(rootset)@,
        r ==> final(rootset)@ == old(rootset)@ + frame_roots(ctxt, fp, pc).unwrap(),
{
    try_determine_rootset(rootset, ctxt, fp, pc).unwrap()
}

/// Walks the stack from the frame that entered the collector and returns
/// the rootset; `None` where no such frame is recorded or the walk is fatal.
pub fn try_get_rootset(ctxt: &Context) -> (r: Option<Vec<usize>>)
    ensures
        r.is_some() == rootset(ctxt).is_some(),
        r.is_some() ==> r.unwrap()@ == rootset(ctxt).unwrap(),
{
    let mut roots: Vec<usize> = Vec::new();
    let (mut pc, mut fp) = match ctxt.sfi {
        Some(sfi) => (sfi.ra, sfi.fp),
        None => {
            return None;
        },
    };
    let ghost start_fp = fp;
    let ghost start_pc = pc;
    while fp != 0
        invariant
            rootset(ctxt) == walk(ctxt, start_fp, start_pc),
            match walk(ctxt, fp, pc) {
                Some(rest) => walk(ctxt, start_fp, start_pc) == Some(roots@ + rest),
                None => walk(ctxt, start_fp, start_pc).is_none(),
            },
        decreases usize::MAX - fp,
    {
        let ghost before = roots@;
        match try_determine_rootset(&mut roots, ctxt, fp, pc) {
            Some(true) => {},
            Some(false) => {
                proof {
                    assert(roots@ + Seq::<usize>::empty() =~= roots@);
                }
                return Some(roots);
            },
            None => {
                return None;
            },
        }
        match caller_of(&ctxt.stack, fp) {
            Some((ra, next)) => {
                proof {
                    let here = frame_roots(ctxt, fp, pc).unwrap();
                    assert(roots@ == before + here);
                    if next > fp {
                        match walk(ctxt, next, ra) {
                            Some(rest) => {
                                assert(walk(ctxt, fp, pc) == Some(here + rest));
                                assert(before + (here + rest) =~= roots@ + rest);
                            },
                            None => {
                                assert(walk(ctxt, fp, pc).is_none());
                            },
                        }
                    } else {
                        assert(walk(ctxt, fp, pc) == Some(here));
                        assert(walk(ctxt, next, ra) == Some(Seq::<usize>::empty()));
                        assert(roots@ + Seq::<usize>::empty() =~= before + here);
                    }
                }
                if next == 0 {
                    return Some(roots);
                }
                pc = ra;
                fp = next;
            },
            None => {
                return None;
            },
        }
    }
    proof {
        assert(roots@ + Seq::<usize>::empty() =~= roots@);
    }
    Some(roots)
}

/// Walks the stack from the frame that entered the collector and returns
/// the rootset. The walk must not be fatal.
pub fn get_rootset(ctxt: &Context) -> (r: Vec<usize>)
    requires
        rootset(ctxt).is_some(),
    ensures
        r@ == rootset(ctxt).unwrap(),
{
    try_get_rootset(ctxt).unwrap()
}

} // verus!
