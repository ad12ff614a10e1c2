//! The young generation: eden and the two semi-spaces.

use crate::address::{Address, Region};
use vstd::prelude::*;

verus! {

/// A block of the young generation: objects lie in `[start, top)`, and `top`
/// may advance up to `end`.
#[derive(Copy, Clone, PartialEq, Eq, Structural, Debug)]
pub struct Block {
    pub start: Address,
    pub top: Address,
    pub end: Address,
}

impl Block {
    pub open spec fn wf(self) -> bool {
        self.start@ <= self.top@ <= self.end@
    }

    /// The whole block.
    pub open spec fn total(self) -> Region {
        Region { start: self.start, end: self.end }
    }

    /// The part of the block that holds objects.
    pub open spec fn active(self) -> Region {
        Region { start: self.start, end: self.top }
    }

    /// The block over `[start, end)` without objects.
    pub fn new(start: Address, end: Address) -> (r: Block)
        requires
            start@ <= end@,
        ensures
            r == (Block { start, top: start, end }),
    {
        Block { start, top: start, end }
    }
}

/// The young generation.
pub struct YoungGen {
    pub eden: Block,
    pub from: Block,
    pub to: Block,
    /// Whether the to-space is protected against access.
    pub to_protected: bool,
}

impl YoungGen {
    pub open spec fn wf(&self) -> bool {
        &&& self.eden.wf()
        &&& self.from.wf()
        &&& self.to.wf()
    }

    /// A young generation of three empty blocks.
    pub fn new(eden: Region, from: Region, to: Region) -> (r: YoungGen)
        requires
            eden.wf(),
            from.wf(),
            to.wf(),
        ensures
            r.wf(),
            r.eden == (Block { start: eden.start, top: eden.start, end: eden.end }),
            r.from == (Block { start: from.start, top: from.start, end: from.end }),
            r.to == (Block { start: to.start, top: to.start, end: to.end }),
            !r.to_protected,
    {
        YoungGen {
            eden: Block::new(eden.start, eden.end),
            from: Block::new(from.start, from.end),
            to: Block::new(to.start, to.end),
            to_protected: false,
        }
    }

    /// The part of eden that holds objects.
    pub fn eden_active(&self) -> (r: Region)
        ensures
            r == self.eden.active(),
    {
        Region { start: self.eden.start, end: self.eden.top }
    }

    /// The part of the from-space that holds objects.
    pub fn from_active(&self) -> (r: Region)
        ensures
            r == self.from.active(),
    {
        Region { start: self.from.start, end: self.from.top }
    }

    /// The part of the to-space that holds objects.
    pub fn to_active(&self) -> (r: Region)
        ensures
            r == self.to.active(),
    {
        Region { start: self.to.start, end: self.to.top }
    }

    /// Empties eden and both semi-spaces.
    pub fn clear(&mut self)
        ensures
            final(self).eden == (Block { top: old(self).eden.start, ..old(self).eden }),
            final(self).from == (Block { top: old(self).from.start, ..old(self).from }),
            final(self).to == (Block { top: old(self).to.start, ..old(self).to }),
            final(self).to_protected == old(self).to_protected,
    {
        self.eden.top = self.eden.start;
        self.from.top = self.from.start;
        self.to.top = self.to.start;
    }

    /// Protects the to-space against access.
    pub fn protect_to(&mut self)
        ensures
            *final(self) == (YoungGen { to_protected: true, ..*old(self) }),
    {
        self.to_protected = true;
    }
}

} // verus!
