//! The card table: one entry for each card of the memory it covers, dirty
//! where the card may hold a reference from the old to the young generation.

use crate::address::Address;
use vstd::prelude::*;

verus! {

pub const CARD_SIZE_BITS: usize = 9;

/// The size in bytes of a card.
pub const CARD_SIZE: usize = 512;

/// The card table over the cards from `start` on.
pub struct CardTable {
    start: Address,
    dirty: Vec<bool>,
}

/// What the card table holds: where the first card starts, and for each card
/// whether it is dirty.
pub ghost struct CardTableView {
    pub start: Address,
    pub dirty: Seq<bool>,
}

impl CardTableView {
    /// The address behind the last card.
    pub open spec fn limit(self) -> int {
        self.start@ + self.dirty.len() * CARD_SIZE
    }

    /// Whether `addr` lies in a card of the table.
    pub open spec fn covers(self, addr: Address) -> bool {
        self.start@ <= addr@ < self.limit()
    }

    /// The index of the card that `addr` lies in.
    pub open spec fn card_idx(self, addr: Address) -> int {
        (addr@ - self.start@) / (CARD_SIZE as int)
    }

    /// Whether card `idx` shares an address with `[start, end)`.
    pub open spec fn touches(self, idx: int, start: Address, end: Address) -> bool {
        start@ < end@ && self.card_idx(start) <= idx <= (end@ - 1 - self.start@) / (
        CARD_SIZE as int)
    }

    /// The table with the cards that share an address with `[start, end)` clean.
    pub open spec fn reset(self, start: Address, end: Address) -> CardTableView {
        CardTableView {
            start: self.start,
            dirty: Seq::new(
                self.dirty.len(),
                |idx: int| self.dirty[idx] && !self.touches(idx, start, end),
            ),
        }
    }

    /// Whether card `idx` is one that the sweep of an object resets: a card
    /// that shares an address with the object if that is an array of
    /// references, and the card that the object starts in otherwise.
    pub open spec fn object_card(self, idx: int, addr: Address, size: usize, array_ref: bool) -> bool {
        if array_ref {
            self.touches(idx, addr, Address((addr@ + size) as usize))
        } else {
            idx == self.card_idx(addr)
        }
    }

    /// Whether every card that shares an address with `[start, end)` is clean.
    pub open spec fn clean(self, start: Address, end: Address) -> bool {
        forall|idx: int|
            0 <= idx < self.dirty.len() && self.touches(idx, start, end) ==> !#[trigger] self.dirty[idx]
    }
}

impl View for CardTable {
    type V = CardTableView;

    closed spec fn view(&self) -> CardTableView {
        CardTableView { start: self.start, dirty: self.dirty@ }
    }
}

impl CardTable {
    /// Whether the table is well formed: its last card ends at an address.
    pub open spec fn wf(&self) -> bool {
        self@.limit() <= usize::MAX
    }

    /// A table of `cards` clean cards, the first of which starts at `start`.
    pub fn new(start: Address, cards: usize) -> (r: CardTable)
        requires
            start@ + cards * CARD_SIZE <= usize::MAX,
        ensures
            r.wf(),
            r@ == (CardTableView { start, dirty: Seq::new(cards as nat, |idx: int| false) }),
    {
        let mut dirty: Vec<bool> = Vec::new();
        let mut i: usize = 0;
        while i < cards
            invariant
                i <= cards,
                dirty@ == Seq::new(i as nat, |idx: int| false),
            decreases cards - i,
        {
            dirty.push(false);
            i += 1;
            assert(dirty@ =~= Seq::new(i as nat, |idx: int| false));
        }
        CardTable { start, dirty }
    }

    /// The index of the card that `addr` lies in.
    pub fn card_idx(&self, addr: Address) -> (r: usize)
        requires
            self.wf(),
            self@.covers(addr),
        ensures
            r == self@.card_idx(addr),
            r < self@.dirty.len(),
    {
        proof {
            lemma_card_idx(self@, addr);
        }
        (addr.0 - self.start.0) / CARD_SIZE
    }

    /// Whether the card that `addr` lies in is dirty.
    pub fn is_dirty(&self, addr: Address) -> (r: bool)
        requires
            self.wf(),
            self@.covers(addr),
        ensures
            r == self@.dirty[self@.card_idx(addr)],
    {
        let idx = self.card_idx(addr);
        self.dirty[idx]
    }

    /// Makes the card that `addr` lies in dirty.
    pub fn mark_dirty(&mut self, addr: Address)
        requires
            old(self).wf(),
            old(self)@.covers(addr),
        ensures
            final(self).wf(),
            final(self)@ == (CardTableView {
                start: old(self)@.start,
                dirty: old(self)@.dirty.update(old(self)@.card_idx(addr), true),
            }),
    {
        let idx = self.card_idx(addr);
        self.dirty[idx] = true;
    }

    /// Makes the card that `addr` lies in clean.
    pub fn reset_addr(&mut self, addr: Address)
        requires
            old(self).wf(),
            old(self)@.covers(addr),
        ensures
            final(self).wf(),
            final(self)@ == (CardTableView {
                start: old(self)@.start,
                dirty: old(self)@.dirty.update(old(self)@.card_idx(addr), false),
            }),
    {
        let idx = self.card_idx(addr);
        self.dirty[idx] = false;
    }

    /// Makes every card that shares an address with `[start, end)` clean.
    pub fn reset_region(&mut self, start: Address, end: Address)
        requires
            old(self).wf(),
            old(self)@.start@ <= start@ <= end@ <= old(self)@.limit(),
        ensures
            final(self).wf(),
            final(self)@ == old(self)@.reset(start, end),
    {
        let ghost before = self@;
        if start.0 >= end.0 {
            assert(self@.dirty =~= before.reset(start, end).dirty);
            return ;
        }
        let first = self.card_idx(start);
        let last = self.card_idx(Address(end.0 - 1));
        let mut idx = first;
        while idx <= last
            invariant
                first <= idx <= last + 1,
                last < self.dirty@.len(),
                self.start == before.start,
                self.dirty@.len() == before.dirty.len(),
                first == before.card_idx(start),
                last == (end@ - 1 - before.start@) / (CARD_SIZE as int),
                start@ < end@,
                forall|c: int|
                    0 <= c < self.dirty@.len() ==> #[trigger] self.dirty@[c] == (before.dirty[c]
                        && !(first <= c < idx)),
            decreases last + 1 - idx,
        {
            self.dirty[idx] = false;
            idx += 1;
        }
        proof {
            let after = before.reset(start, end).dirty;
            assert forall|c: int| 0 <= c < after.len() implies before.touches(c, start, end) == (first
                <= c < idx) by {}
            assert(self.dirty@ =~= after);
        }
    }
}

/// The card of an address that the table covers is one of its cards.
pub proof fn lemma_card_idx(table: CardTableView, addr: Address)
    requires
        table.covers(addr),
    ensures
        0 <= table.card_idx(addr) < table.dirty.len(),
{
    let off = addr@ - table.start@;
    let n = table.dirty.len() as int;
    assert(off < n * 512);
    assert(off / 512 < n) by (nonlinear_arith)
        requires
            0 <= off < n * 512,
    ;
}

} // verus!
