//! Persistent pointers: offsets into the pool, with the largest word
//! standing for a dangling pointer.

use vstd::prelude::*;
use crate::pmem::{NONE_OFF, rd};
use crate::pool::{BuddyPool, range_live};
use crate::stm::{Journal, logs_live};
use crate::cell::{raised, logged, log_range, lemma_live_sub};
use crate::pmem::lemma_wr;
use crate::pmem::wr;

verus! {

/// A persistent pointer that owns its referent.
pub struct Ptr {
    off: u64,
}

impl Ptr {
    /// The referent's offset, or the null offset when dangling.
    pub closed spec fn loc(&self) -> u64 {
        self.off
    }

    /// A dangling pointer.
    pub(crate) fn dangling() -> (r: Ptr)
        ensures
            r.loc() == NONE_OFF,
    {
        Ptr { off: NONE_OFF }
    }

    /// A pointer to the object at `off`.
    pub(crate) fn from_off_unchecked(off: u64) -> (r: Ptr)
        ensures
            r.loc() == off,
    {
        Ptr { off }
    }

    /// Whether the pointer dangles.
    pub fn is_dangling(&self) -> (r: bool)
        ensures
            r == (self.loc() == NONE_OFF),
    {
        self.off == NONE_OFF
    }

    /// The referent's offset.
    pub fn off(&self) -> (r: u64)
        ensures
            r == self.loc(),
    {
        self.off
    }

    /// A reference to the referent's offset.
    pub fn off_ref(&self) -> (r: &u64)
        ensures
            *r == self.loc(),
    {
        &self.off
    }

    /// Points to `new` and returns the old offset.
    pub(crate) fn replace(&mut self, new: u64) -> (r: u64)
        ensures
            r == old(self).loc(),
            final(self).loc() == new,
    {
        let o = self.off;
        self.off = new;
        o
    }
}

/// A pointer to a word of the pool that may be read without checks; it is
/// never null.
#[derive(Clone, Copy)]
pub struct NonNull {
    off: u64,
}

impl NonNull {
    /// The word's offset.
    pub closed spec fn loc(&self) -> u64 {
        self.off
    }

    /// A pointer to the word at `off`, which is not the null offset.
    pub fn new_unchecked(off: u64) -> (r: NonNull)
        requires
            off != NONE_OFF,
        ensures
            r.loc() == off,
    {
        NonNull { off }
    }

    /// A pointer to the word at `off`, or `None` for the null offset.
    pub fn new(off: u64) -> (r: Option<NonNull>)
        ensures
            r is None == (off == NONE_OFF),
            r matches Some(p) ==> p.loc() == off,
    {
        if off != NONE_OFF {
            Some(Self::new_unchecked(off))
        } else {
            None
        }
    }

    /// The word it points to.
    pub fn get(&self, pool: &BuddyPool) -> (r: u64)
        requires
            pool.inv(),
            self.loc() + 8 <= pool.image().len(),
        ensures
            r == rd(pool.image(), self.loc() as int),
    {
        proof {
            pool.lemma_image_bound();
        }
        pool.read_u64(self.off)
    }
}

/// A pointer to a word of the pool that takes a log, guarded by the flag
/// byte at `logged`, before the first change in a transaction.
#[derive(Clone, Copy)]
pub struct LogNonNull {
    off: u64,
    logged: u64,
}

impl LogNonNull {
    /// The word's offset.
    pub closed spec fn loc(&self) -> u64 {
        self.off
    }

    /// The offset of the flag byte.
    pub closed spec fn flag(&self) -> u64 {
        self.logged
    }

    /// A pointer to the word at `off` whose flag byte is at `logged`.
    pub fn new_unchecked(off: u64, logged: u64) -> (r: LogNonNull)
        requires
            off != NONE_OFF,
            logged != NONE_OFF,
        ensures
            r.loc() == off,
            r.flag() == logged,
    {
        LogNonNull { off, logged }
    }

    /// Stores `v` in the word, first copying it into the journal when the
    /// flag byte says the transaction has no copy.
    pub fn set(&self, pool: &mut BuddyPool, journal: &mut Journal, v: u64)
        requires
            old(pool).inv(),
            self.loc() + 8 <= old(pool).image().len(),
            self.flag() < old(pool).image().len(),
            !(self.loc() <= self.flag() < self.loc() + 8),
            range_live(self.loc() as int, 8, old(pool).zone_list()),
            range_live(self.flag() as int, 1, old(pool).zone_list()),
            old(journal).records().len() < usize::MAX,
        ensures
            final(pool).inv(),
            final(pool).image() == wr(raised(old(pool).image(), self.flag()), self.loc() as int, v),
            final(pool).zone_list() == old(pool).zone_list(),
            final(pool).zone_total() == old(pool).zone_total(),
            final(pool).zone_quota() == old(pool).zone_quota(),
            final(pool).pool_size() == old(pool).pool_size(),
            logged(*old(journal), *final(journal), old(pool).image(), self.loc(), 8, self.flag()),
            logs_live(old(journal).records(), old(journal).copies(), old(pool).image().len() as int, old(pool).zone_list())
                ==> logs_live(final(journal).records(), final(journal).copies(), final(pool).image().len() as int, final(pool).zone_list()),
    {
        log_range(pool, journal, self.off, 8, self.logged);
        proof {
            lemma_wr(pool.image(), self.off as int, v);
        }
        pool.write_u64(self.off, v);
    }
}

} // verus!
