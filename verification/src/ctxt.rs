//! What the collectors need to know of the running program: its flags, the
//! compiled functions with their tables, the code map, and the stack.

use crate::address::Address;
use std::collections::HashMap;
use vstd::prelude::*;

verus! {

/// The flags that the collectors read.
#[derive(Copy, Clone, PartialEq, Eq, Structural, Debug)]
pub struct Args {
    /// Collect at every allocation.
    pub flag_gc_stress: bool,
    /// Log each collection.
    pub flag_gc_dump: bool,
    /// Keep the time spent in collections.
    pub flag_gc_stats: bool,
    /// Check the marks after marking.
    pub flag_gc_verify: bool,
    /// Log each phase of a collection.
    pub flag_gc_dev_verbose: bool,
}

/// The identity of a function.
#[derive(Copy, Clone, PartialEq, Eq, Structural, Debug)]
pub struct FctId(pub usize);

/// The stack slots that hold references at one point of a function, as
/// byte offsets from the frame pointer.
pub struct Gcpoint {
    pub offsets: Vec<i32>,
}

/// The compiled code of a function: where it starts, and what is known of
/// the points in it, each by its offset from the start.
pub struct JitFct {
    pub fct_start: usize,
    pub gcpoints: Vec<(i32, Gcpoint)>,
    pub linenos: Vec<(i32, i32)>,
}

impl JitFct {
    /// Where the code starts.
    pub fn fct_ptr(&self) -> (r: usize)
        ensures
            r == self.fct_start,
    {
        self.fct_start
    }

    /// The index of the first gcpoint recorded for `offset`, if there is one.
    pub open spec fn gcpoint_index(&self, offset: i32, idx: int) -> bool {
        &&& 0 <= idx < self.gcpoints@.len()
        &&& self.gcpoints@[idx].0 == offset
        &&& forall|k: int| 0 <= k < idx ==> (#[trigger] self.gcpoints@[k]).0 != offset
    }

    /// Whether a gcpoint is recorded for `offset`.
    pub open spec fn has_gcpoint(&self, offset: i32) -> bool {
        exists|idx: int| 0 <= idx < self.gcpoints@.len() && (#[trigger] self.gcpoints@[idx]).0 == offset
    }

    /// The offsets of the first gcpoint recorded for `offset`.
    pub open spec fn gcpoint_offsets(&self, offset: i32) -> Seq<i32> {
        let idx = choose|idx: int| self.gcpoint_index(offset, idx);
        self.gcpoints@[idx].1.offsets@
    }

    /// The index of the first gcpoint recorded for `offset`, if there is one.
    pub fn gcpoint_for_offset(&self, offset: i32) -> (r: Option<usize>)
        ensures
            r.is_some() == self.has_gcpoint(offset),
            r.is_some() ==> self.gcpoint_index(offset, r.unwrap() as int)
                && self.gcpoints@[r.unwrap() as int].1.offsets@ == self.gcpoint_offsets(offset),
    {
        let mut i: usize = 0;
        while i < self.gcpoints.len()
            invariant
                i <= self.gcpoints@.len(),
                forall|k: int| 0 <= k < i ==> (#[trigger] self.gcpoints@[k]).0 != offset,
            decreases self.gcpoints@.len() - i,
        {
            if self.gcpoints[i].0 == offset {
                proof {
                    assert(self.gcpoint_index(offset, i as int));
                    let idx = choose|idx: int| self.gcpoint_index(offset, idx);
                    if idx < i {
                        assert(self.gcpoints@[idx].0 != offset);
                    }
                    if i < idx {
                        assert(self.gcpoints@[i as int].0 != offset);
                    }
                }
                return Some(i);
            }
            i += 1;
        }
        None
    }

    /// The line recorded for `offset`: that of the first entry for it, and 0
    /// where there is none.
    pub open spec fn spec_lineno(&self, offset: i32, upto: int) -> i32
        decreases upto,
    {
        if upto <= 0 {
            0
        } else if self.spec_lineno(offset, upto - 1) != 0 {
            self.spec_lineno(offset, upto - 1)
        } else if self.linenos@[upto - 1].0 == offset {
            self.linenos@[upto - 1].1
        } else {
            0
        }
    }

    /// The line recorded for `offset`: that of the first entry for it with a
    /// line that is not 0, and 0 where there is none.
    pub fn lineno_for_offset(&self, offset: i32) -> (r: i32)
        ensures
            r == self.spec_lineno(offset, self.linenos@.len() as int),
    {
        let mut lineno: i32 = 0;
        let mut i: usize = 0;
        while i < self.linenos.len()
            invariant
                i <= self.linenos@.len(),
                lineno == self.spec_lineno(offset, i as int),
            decreases self.linenos@.len() - i,
        {
            if lineno == 0 && self.linenos[i].0 == offset {
                lineno = self.linenos[i].1;
            }
            i += 1;
        }
        lineno
    }
}

/// What a function is: one with source, which may be compiled, or one of
/// the kinds without code of its own.
pub enum FctKind {
    Source(Option<JitFct>),
    Definition,
    Builtin,
    Intrinsic,
}

/// A function.
pub struct Fct {
    pub kind: FctKind,
}

/// One entry of the code map: the function whose code lies in `[start, end)`.
#[derive(Copy, Clone, PartialEq, Eq, Structural, Debug)]
pub struct CodeEntry {
    pub start: usize,
    pub end: usize,
    pub fct_id: FctId,
}

/// The code map: which function the code at an address belongs to.
pub struct CodeMap {
    pub entries: Vec<CodeEntry>,
}

impl CodeMap {
    /// Whether entry `idx` is the first that holds `pc`.
    pub open spec fn holds(&self, pc: usize, idx: int) -> bool {
        &&& 0 <= idx < self.entries@.len()
        &&& self.entries@[idx].start <= pc < self.entries@[idx].end
        &&& forall|k: int|
            0 <= k < idx ==> !((#[trigger] self.entries@[k]).start <= pc < self.entries@[k].end)
    }

    /// The function whose code holds `pc`, by the first entry that does.
    pub open spec fn spec_get(&self, pc: usize) -> Option<FctId> {
        if exists|idx: int| self.holds(pc, idx) {
            Some(self.entries@[choose|idx: int| self.holds(pc, idx)].fct_id)
        } else {
            None
        }
    }

    /// A code map without entries.
    pub fn new() -> (r: CodeMap)
        ensures
            r.entries@.len() == 0,
    {
        CodeMap { entries: Vec::new() }
    }

    /// Records that the code of `fct_id` lies in `[start, end)`.
    pub fn insert(&mut self, start: usize, end: usize, fct_id: FctId)
        ensures
            final(self).entries@ == old(self).entries@.push(CodeEntry { start, end, fct_id }),
    {
        self.entries.push(CodeEntry { start, end, fct_id });
    }

    /// The function whose code holds `pc`, by the first entry that does.
    pub fn get(&self, pc: usize) -> (r: Option<FctId>)
        ensures
            r == self.spec_get(pc),
    {
        let mut i: usize = 0;
        while i < self.entries.len()
            invariant
                i <= self.entries@.len(),
                forall|k: int|
                    0 <= k < i ==> !((#[trigger] self.entries@[k]).start <= pc < self.entries@[k].end),
            decreases self.entries@.len() - i,
        {
            if self.entries[i].start <= pc && pc < self.entries[i].end {
                proof {
                    assert(self.holds(pc, i as int));
                    let idx = choose|idx: int| self.holds(pc, idx);
                    if idx < i {
                        assert(!(self.entries@[idx].start <= pc < self.entries@[idx].end));
                    }
                    if i < idx {
                        assert(!(self.entries@[i as int].start <= pc < self.entries@[i as int].end));
                    }
                }
                return Some(self.entries[i].fct_id);
            }
            i += 1;
        }
        proof {
            if exists|idx: int| self.holds(pc, idx) {
                let idx = choose|idx: int| self.holds(pc, idx);
                assert(!(self.entries@[idx].start <= pc < self.entries@[idx].end));
            }
        }
        None
    }
}

/// Where the walk of the stack starts: the return address and the frame
/// pointer that were saved on the way into the collector.
#[derive(Copy, Clone, PartialEq, Eq, Structural, Debug)]
pub struct SafepointFrameInfo {
    pub ra: usize,
    pub fp: usize,
}

/// The words of the stack, each under its address.
pub struct StackMemory {
    pub words: HashMap<usize, usize>,
}

impl StackMemory {
    /// A stack without words.
    pub fn new() -> (r: StackMemory)
        ensures
            r.words@ == Map::<usize, usize>::empty(),
    {
        StackMemory { words: HashMap::new() }
    }

    /// Writes `value` to the word at `addr`.
    pub fn write(&mut self, addr: usize, value: usize)
        ensures
            final(self).words@ == old(self).words@.insert(addr, value),
    {
        broadcast use vstd::std_specs::hash::group_hash_axioms;

        self.words.insert(addr, value);
    }

    /// The word at `addr`, if the stack has one there.
    pub fn read(&self, addr: usize) -> (r: Option<usize>)
        ensures
            r == if self.words@.contains_key(addr) {
                Some(self.words@[addr])
            } else {
                None
            },
    {
        broadcast use vstd::std_specs::hash::group_hash_axioms;

        match self.words.get(&addr) {
            Some(value) => Some(*value),
            None => None,
        }
    }
}

/// The running program, as far as the collectors look at it.
pub struct Context {
    pub args: Args,
    /// The literals, which are roots of their own.
    pub literals: Vec<Address>,
    pub code_map: CodeMap,
    pub fcts: Vec<Fct>,
    pub sfi: Option<SafepointFrameInfo>,
    pub stack: StackMemory,
}

} // verus!
