//! Machine-word addresses and half-open address intervals.

use vstd::prelude::*;

verus! {

/// A machine-word address. The value `0` is the null address.
#[derive(Copy, Clone, PartialEq, Eq, Structural, PartialOrd, Ord, Hash, Debug)]
pub struct Address(pub usize);

impl View for Address {
    type V = int;

    open spec fn view(&self) -> int {
        self.0 as int
    }
}

impl Address {
    /// The null address.
    pub fn null() -> (r: Address)
        ensures
            r@ == 0,
    {
        Address(0)
    }

    /// The address with the given numeric value.
    pub fn from_usize(val: usize) -> (r: Address)
        ensures
            r@ == val,
    {
        Address(val)
    }

    pub fn to_usize(self) -> (r: usize)
        ensures
            r == self@,
    {
        self.0
    }

    pub fn is_null(self) -> (r: bool)
        ensures
            r == (self@ == 0),
    {
        self.0 == 0
    }

    pub fn is_non_null(self) -> (r: bool)
        ensures
            r == (self@ != 0),
    {
        self.0 != 0
    }

    /// The address `offset` bytes above this one.
    pub fn offset(self, offset: usize) -> (r: Address)
        requires
            self@ + offset <= usize::MAX,
        ensures
            r@ == self@ + offset,
    {
        Address(self.0 + offset)
    }

    /// The distance in bytes from `base` up to this address.
    pub fn offset_from(self, base: Address) -> (r: usize)
        requires
            base@ <= self@,
        ensures
            r == self@ - base@,
    {
        self.0 - base.0
    }
}

/// A half-open interval `[start, end)` of addresses.
#[derive(Copy, Clone, PartialEq, Eq, Structural, Debug)]
pub struct Region {
    pub start: Address,
    pub end: Address,
}

impl Region {
    /// Whether `addr` lies in `[start, end)`.
    pub open spec fn spec_contains(&self, addr: Address) -> bool {
        self.start@ <= addr@ < self.end@
    }

    /// Whether the interval is well formed: `start` is not above `end`.
    pub open spec fn wf(self) -> bool {
        self.start@ <= self.end@
    }

    pub open spec fn spec_size(self) -> int {
        self.end@ - self.start@
    }

    /// Whether `addr` can be the end of an allocated prefix of the region.
    pub open spec fn spec_valid_top(&self, addr: Address) -> bool {
        self.start@ <= addr@ <= self.end@
    }

    /// Whether every address of `self` lies in `other`.
    pub open spec fn within(self, other: Region) -> bool {
        other.start@ <= self.start@ && self.end@ <= other.end@
    }

    /// Whether the two intervals have no address in common.
    pub open spec fn disjoint(self, other: Region) -> bool {
        self.end@ <= other.start@ || other.end@ <= self.start@
    }

    pub fn new(start: Address, end: Address) -> (r: Region)
        requires
            start@ <= end@,
        ensures
            r.start == start,
            r.end == end,
            r.wf(),
    {
        Region { start, end }
    }

    /// The empty interval at the null address.
    pub fn empty() -> (r: Region)
        ensures
            r.start@ == 0,
            r.end@ == 0,
    {
        Region { start: Address(0), end: Address(0) }
    }

    #[verifier::when_used_as_spec(spec_contains)]
    pub fn contains(&self, addr: Address) -> (r: bool)
        ensures
            r == self.spec_contains(addr),
    {
        self.start.0 <= addr.0 && addr.0 < self.end.0
    }

    #[verifier::when_used_as_spec(spec_valid_top)]
    pub fn valid_top(&self, addr: Address) -> (r: bool)
        ensures
            r == self.spec_valid_top(addr),
    {
        self.start.0 <= addr.0 && addr.0 <= self.end.0
    }

    pub fn size(&self) -> (r: usize)
        requires
            self.wf(),
        ensures
            r == self.spec_size(),
    {
        self.end.0 - self.start.0
    }
}

} // verus!
