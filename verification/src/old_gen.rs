//! The old generation: the regions that receive the survivors of a
//! collection, and the crossing map entries for what is placed in them.

use crate::address::{Address, Region};
use crate::card::CARD_SIZE;
use crate::crossing::{CrossingEntry, CrossingMap};
use crate::mem::{PTR_WIDTH, is_page_aligned, page_align, spec_is_page_aligned, spec_page_align};
use vstd::prelude::*;

verus! {

/// A region of the old generation: objects lie in `[start, top)`, and `top`
/// may advance up to `end`.
#[derive(Copy, Clone, PartialEq, Eq, Structural, Debug)]
pub struct OldRegion {
    pub start: Address,
    pub top: Address,
    pub end: Address,
}

impl OldRegion {
    pub open spec fn wf(self) -> bool {
        self.start@ <= self.top@ <= self.end@
    }

    /// The part of the region that holds objects.
    pub open spec fn spec_active_region(&self) -> Region {
        Region { start: self.start, end: self.top }
    }

    pub fn new(start: Address, top: Address, end: Address) -> (r: OldRegion)
        requires
            start@ <= top@ <= end@,
        ensures
            r == (OldRegion { start, top, end }),
    {
        OldRegion { start, top, end }
    }

    pub fn start(&self) -> (r: Address)
        ensures
            r == self.start,
    {
        self.start
    }

    pub fn top(&self) -> (r: Address)
        ensures
            r == self.top,
    {
        self.top
    }

    pub fn end(&self) -> (r: Address)
        ensures
            r == self.end,
    {
        self.end
    }

    /// The part of the region that holds objects.
    #[verifier::when_used_as_spec(spec_active_region)]
    pub fn active_region(&self) -> (r: Region)
        ensures
            r == self.spec_active_region(),
    {
        Region { start: self.start, end: self.top }
    }
}

/// The state of the old generation that its lock guards: the regions, in
/// ascending order, and the address up to which pages are committed.
pub struct OldGenProtected {
    pub total: Region,
    pub regions: Vec<OldRegion>,
    pub committed: Address,
}

/// Whether the regions are well formed, ascend without overlap, and lie in `total`.
pub open spec fn regions_ascend(total: Region, regions: Seq<OldRegion>) -> bool {
    &&& forall|r: int| 0 <= r < regions.len() ==> (#[trigger] regions[r]).wf()
    &&& forall|r: int|
        0 <= r < regions.len() ==> total.start@ <= (#[trigger] regions[r]).start@ && regions[r].end@
            <= total.end@
    &&& forall|r: int, s: int|
        0 <= r < s < regions.len() ==> (#[trigger] regions[r]).end@ <= (#[trigger] regions[s]).start@
}

impl OldGenProtected {
    /// Whether the state is well formed: `total` starts and ends at a page,
    /// the regions ascend within it, and pages are committed from its start
    /// up to a page in it.
    pub open spec fn wf(&self) -> bool {
        &&& self.total.start@ <= self.total.end@
        &&& spec_is_page_aligned(self.total.start.0)
        &&& spec_is_page_aligned(self.total.end.0)
        &&& regions_ascend(self.total, self.regions@)
        &&& self.total.start@ <= self.committed@ <= self.total.end@
        &&& spec_is_page_aligned(self.committed.0)
    }

    /// An old generation over `total` with one empty region and no page committed.
    pub fn new(total: Region) -> (r: OldGenProtected)
        requires
            total.start@ <= total.end@,
            is_page_aligned(total.start.0),
            is_page_aligned(total.end.0),
        ensures
            r.wf(),
            r.total == total,
            r.regions@ == seq![OldRegion { start: total.start, top: total.start, end: total.end }],
            r.committed == total.start,
    {
        let mut regions: Vec<OldRegion> = Vec::new();
        regions.push(OldRegion::new(total.start, total.start, total.end));
        OldGenProtected { total, regions, committed: total.start }
    }

    /// Commits the pages below `top`, rounded up to a page, that are not
    /// committed yet. Returns the range that has to be backed with memory, if any.
    pub fn commit_single_region(&mut self, top: Address) -> (r: Option<Region>)
        requires
            old(self).wf(),
            old(self).total.spec_valid_top(top),
        ensures
            final(self).wf(),
            final(self).total == old(self).total,
            final(self).regions == old(self).regions,
            ({
                let limit = spec_page_align(top@);
                if old(self).committed@ < limit {
                    final(self).committed@ == limit && r == Some(
                        Region { start: old(self).committed, end: final(self).committed },
                    )
                } else {
                    final(self).committed == old(self).committed && r.is_none()
                }
            }),
    {
        let limit = Address(page_align(top.0));
        if self.committed.0 < limit.0 {
            let grown = Region::new(self.committed, limit);
            self.committed = limit;
            Some(grown)
        } else {
            None
        }
    }

    /// Makes `[start of the generation, top)` the one region that holds
    /// objects, and gives up the pages above `top` rounded up to a page.
    /// Returns the range whose memory has to be released, if any.
    pub fn update_single_region(&mut self, top: Address) -> (r: Option<Region>)
        requires
            old(self).wf(),
            old(self).total.spec_valid_top(top),
        ensures
            final(self).wf(),
            final(self).total == old(self).total,
            final(self).regions@ == seq![
                OldRegion { start: old(self).total.start, top, end: old(self).total.end },
            ],
            final(self).committed@ == spec_page_align(top@),
            r == if final(self).committed@ < old(self).committed@ {
                Some(Region { start: final(self).committed, end: old(self).committed })
            } else {
                None
            },
    {
        let limit = Address(page_align(top.0));
        let before = self.committed;
        let mut regions: Vec<OldRegion> = Vec::new();
        regions.push(OldRegion::new(self.total.start, top, self.total.end));
        self.regions = regions;
        self.committed = limit;
        if limit.0 < before.0 {
            Some(Region::new(limit, before))
        } else {
            None
        }
    }
}

/// The old generation.
pub struct OldGen {
    pub total: Region,
    pub protected: OldGenProtected,
}

/// The index, counted from `base`, of the card that `addr` lies in.
#[verifier::opaque]
pub open spec fn card_of(base: Address, addr: Address) -> int {
    (addr@ - base@) / (CARD_SIZE as int)
}

/// What the crossing map says of a card in which no object starts: whether
/// the object that it lies in is an array of references.
pub open spec fn filler(array_ref: bool) -> CrossingEntry {
    if array_ref {
        CrossingEntry::ArrayRefs
    } else {
        CrossingEntry::NoRefs
    }
}

/// What the crossing map says of a card whose first object starts at
/// `addr`: how many words into the card that is.
#[verifier::opaque]
pub open spec fn first_object(base: Address, addr: Address) -> CrossingEntry {
    CrossingEntry::FirstObject(
        (((addr@ - base@) % (CARD_SIZE as int)) / (PTR_WIDTH as int)) as usize,
    )
}

/// The card of an address does not lie below the card of an address below it.
pub proof fn lemma_card_of_mono(base: Address, a: Address, b: Address)
    requires
        base@ <= a@ <= b@,
    ensures
        0 <= card_of(base, a) <= card_of(base, b),
{
    reveal(card_of);
}

/// The crossing map after an object was placed in `[start, end)`: where the
/// object ends in a later card than it starts in, no object starts in the
/// cards between, and the next object starts in the last of them, at `end`.
pub open spec fn spec_update_crossing(
    map: Seq<CrossingEntry>,
    base: Address,
    start: Address,
    end: Address,
    array_ref: bool,
) -> Seq<CrossingEntry> {
    let old_card = card_of(base, start);
    let new_card = card_of(base, end);
    if old_card == new_card {
        map
    } else {
        Seq::new(
            map.len(),
            |card: int|
                if old_card < card < new_card {
                    filler(array_ref)
                } else if card == new_card {
                    first_object(base, end)
                } else {
                    map[card]
                },
        )
    }
}

impl OldGen {
    /// Whether the generation is well formed.
    pub open spec fn wf(&self) -> bool {
        &&& self.protected.wf()
        &&& self.protected.total == self.total
    }

    /// An old generation over `[start, end)` with one empty region.
    pub fn new(start: Address, end: Address) -> (r: OldGen)
        requires
            start@ <= end@,
            is_page_aligned(start.0),
            is_page_aligned(end.0),
        ensures
            r.wf(),
            r.total == (Region { start, end }),
            r.protected.regions@ == seq![OldRegion { start, top: start, end }],
            r.protected.committed == start,
    {
        let total = Region::new(start, end);
        OldGen { total, protected: OldGenProtected::new(total) }
    }

    pub fn total(&self) -> (r: Region)
        ensures
            r == self.total,
    {
        self.total
    }

    pub fn total_start(&self) -> (r: Address)
        ensures
            r == self.total.start,
    {
        self.total.start
    }

    /// Records in the crossing map that an object was placed in `[start, end)`.
    pub fn update_crossing(
        &self,
        crossing_map: &mut CrossingMap,
        start: Address,
        end: Address,
        array_ref: bool,
    )
        requires
            self.total.spec_valid_top(start),
            self.total.spec_valid_top(end),
            start@ <= end@,
            card_of(self.total.start, end) < old(crossing_map)@.len(),
        ensures
            final(crossing_map)@ == spec_update_crossing(
                old(crossing_map)@,
                self.total.start,
                start,
                end,
                array_ref,
            ),
    {
        proof {
            reveal(card_of);
            reveal(first_object);
        }
        let base = self.total.start.0;
        let old_card = (start.0 - base) / CARD_SIZE;
        let new_card = (end.0 - base) / CARD_SIZE;
        if old_card == new_card {
            return ;
        }
        let ghost before = crossing_map@;
        let mut card = old_card + 1;
        while card < new_card
            invariant
                old_card < card <= new_card,
                new_card < crossing_map@.len(),
                crossing_map@.len() == before.len(),
                forall|c: int|
                    0 <= c < before.len() ==> #[trigger] crossing_map@[c] == if old_card < c < card {
                        if array_ref {
                            CrossingEntry::ArrayRefs
                        } else {
                            CrossingEntry::NoRefs
                        }
                    } else {
                        before[c]
                    },
            decreases new_card - card,
        {
            proof {
                reveal(card_of);
            }
            if array_ref {
                crossing_map.set_array_references(card);
            } else {
                crossing_map.set_no_references(card);
            }
            card += 1;
        }
        crossing_map.set_first_object(new_card, ((end.0 - base) % CARD_SIZE) / PTR_WIDTH);
        assert(crossing_map@ =~= spec_update_crossing(
            before,
            self.total.start,
            start,
            end,
            array_ref,
        ));
    }
}

} // verus!
