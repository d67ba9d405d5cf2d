//! The list of volatile pointers handed out for the counted boxes of a pool.
//! Each entry is a box's offset and whether the pointer is still valid: a
//! box invalidates its entries when its last weak reference goes, so that a
//! volatile pointer never reaches a freed box. The list lives in volatile
//! memory only, and a new one goes with each generation of an open pool.

use vstd::prelude::*;

verus! {

/// The volatile pointers of a pool's counted boxes.
pub struct VWeakList {
    entries: Vec<(u64, bool)>,
}

impl View for VWeakList {
    type V = Seq<(u64, bool)>;

    closed spec fn view(&self) -> Seq<(u64, bool)> {
        self.entries@
    }
}

/// Entry `slot` of `l` is a valid pointer.
pub open spec fn live_slot(l: Seq<(u64, bool)>, slot: usize) -> bool {
    slot < l.len() && l[slot as int].1
}

/// List `l` after the box at `off` invalidated its entries.
pub open spec fn invalidated(l: Seq<(u64, bool)>, off: u64) -> Seq<(u64, bool)> {
    Seq::new(l.len(), |i: int| (l[i].0, l[i].1 && l[i].0 != off))
}

impl VWeakList {
    /// An empty list.
    pub fn new() -> (r: VWeakList)
        ensures
            r@ == Seq::<(u64, bool)>::empty(),
    {
        VWeakList { entries: Vec::new() }
    }

    /// Number of entries.
    pub fn len(&self) -> (r: usize)
        ensures
            r == self@.len(),
    {
        self.entries.len()
    }

    /// Adds a valid entry for the box at `off` and returns its slot.
    pub fn append(&mut self, off: u64) -> (slot: usize)
        requires
            old(self)@.len() < usize::MAX,
        ensures
            slot == old(self)@.len(),
            final(self)@ == old(self)@.push((off, true)),
    {
        let slot = self.entries.len();
        self.entries.push((off, true));
        slot
    }

    /// Whether entry `slot` is a valid pointer.
    pub fn is_valid(&self, slot: usize) -> (r: bool)
        ensures
            r == live_slot(self@, slot),
    {
        slot < self.entries.len() && self.entries[slot].1
    }

    /// Takes entry `slot`, if there is one, out of its box's list: it no
    /// longer counts as valid.
    pub fn release(&mut self, slot: usize)
        ensures
            final(self)@ == if slot < old(self)@.len() {
                old(self)@.update(slot as int, (old(self)@[slot as int].0, false))
            } else {
                old(self)@
            },
    {
        if slot < self.entries.len() {
            let off = self.entries[slot].0;
            self.entries.set(slot, (off, false));
        }
    }

    /// Invalidates every entry of the box at `off`.
    pub fn invalidate(&mut self, off: u64)
        ensures
            final(self)@ == invalidated(old(self)@, off),
    {
        let mut i: usize = 0;
        while i < self.entries.len()
            invariant
                i <= self.entries@.len(),
                self.entries@.len() == old(self)@.len(),
                forall|j: int| 0 <= j < i ==> #[trigger] self.entries@[j] == invalidated(old(self)@, off)[j],
                forall|j: int| i <= j < self.entries@.len() ==> #[trigger] self.entries@[j] == old(self)@[j],
            decreases self.entries@.len() - i,
        {
            let (o, v) = self.entries[i];
            if o == off {
                self.entries.set(i, (o, false));
            }
            i = i + 1;
        }
        proof {
            assert(self.entries@ =~= invalidated(old(self)@, off));
        }
    }
}

/// Once the box at `off` has invalidated its entries, no entry of that box
/// is valid any more, and the entries of other boxes are as they were: a
/// volatile pointer never reaches a box whose last weak reference went.
pub proof fn lemma_invalidated_not_live(l: Seq<(u64, bool)>, off: u64, slot: usize)
    requires
        slot < l.len(),
    ensures
        l[slot as int].0 == off ==> !live_slot(invalidated(l, off), slot),
        l[slot as int].0 != off ==> live_slot(invalidated(l, off), slot) == live_slot(l, slot),
        invalidated(l, off)[slot as int].0 == l[slot as int].0,
{
}

} // verus!
