//! The crossing map: for each card of the old generation, where the first
//! object starts in it.

use vstd::prelude::*;

verus! {

/// What the crossing map knows of a card.
#[derive(Copy, Clone, PartialEq, Eq, Structural, Debug)]
pub enum CrossingEntry {
    /// No object starts in the card, and it holds no reference.
    NoRefs,
    /// No object starts in the card: it lies in an array of references.
    ArrayRefs,
    /// The first object of the card starts this many words into it.
    FirstObject(usize),
}

/// The crossing map of the old generation, one entry for each card.
pub struct CrossingMap {
    entries: Vec<CrossingEntry>,
}

impl View for CrossingMap {
    type V = Seq<CrossingEntry>;

    closed spec fn view(&self) -> Seq<CrossingEntry> {
        self.entries@
    }
}

impl CrossingMap {
    /// A map of `cards` cards in which no object starts.
    pub fn new(cards: usize) -> (r: CrossingMap)
        ensures
            r@ == Seq::new(cards as nat, |idx: int| CrossingEntry::NoRefs),
    {
        let mut entries: Vec<CrossingEntry> = Vec::new();
        let mut i: usize = 0;
        while i < cards
            invariant
                i <= cards,
                entries@ == Seq::new(i as nat, |idx: int| CrossingEntry::NoRefs),
            decreases cards - i,
        {
            entries.push(CrossingEntry::NoRefs);
            i += 1;
            assert(entries@ =~= Seq::new(i as nat, |idx: int| CrossingEntry::NoRefs));
        }
        CrossingMap { entries }
    }

    /// The number of cards.
    pub fn len(&self) -> (r: usize)
        ensures
            r == self@.len(),
    {
        self.entries.len()
    }

    /// The entry of card `card`.
    pub fn get(&self, card: usize) -> (r: CrossingEntry)
        requires
            card < self@.len(),
        ensures
            r == self@[card as int],
    {
        self.entries[card]
    }

    /// Records that the first object of `card` starts `words` words into it.
    pub fn set_first_object(&mut self, card: usize, words: usize)
        requires
            card < old(self)@.len(),
        ensures
            final(self)@ == old(self)@.update(card as int, CrossingEntry::FirstObject(words)),
    {
        self.entries[card] = CrossingEntry::FirstObject(words);
    }

    /// Records that no object starts in `card` and that it holds no reference.
    pub fn set_no_references(&mut self, card: usize)
        requires
            card < old(self)@.len(),
        ensures
            final(self)@ == old(self)@.update(card as int, CrossingEntry::NoRefs),
    {
        self.entries[card] = CrossingEntry::NoRefs;
    }

    /// Records that `card` lies in an array of references.
    pub fn set_array_references(&mut self, card: usize)
        requires
            card < old(self)@.len(),
        ensures
            final(self)@ == old(self)@.update(card as int, CrossingEntry::ArrayRefs),
    {
        self.entries[card] = CrossingEntry::ArrayRefs;
    }
}

} // verus!
