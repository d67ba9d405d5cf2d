//! Thread-safe reference-counted persistent pointers. A shared box holds, in
//! one block, the strong count, the weak count and the value: at offsets 0,
//! 8 and 16. Each counter increment leaves in the journal a record that moves
//! the counter back down if the transaction fails.

use vstd::prelude::*;
use crate::pmem::{NONE_OFF, rd, wr, lemma_wr, lemma_rd_wr_other};
use crate::pool::{BuddyPool, range_live, alloc_fails};
use crate::stm::{Journal, Log, LogEnum, Notifier, logs_live};
use crate::vweak::{VWeakList, live_slot, invalidated};
use crate::cell::{kept, new_block, lemma_kept_write, lemma_live_sub};

verus! {

/// The shared box at `b` lies in live bytes of the pool.
pub open spec fn inner_ok(pool: BuddyPool, b: u64) -> bool {
    &&& b + 24 <= pool.image().len()
    &&& range_live(b as int, 24, pool.zone_list())
}

/// Strong count of the shared box at `b` in image `s`.
pub open spec fn strong_at(s: Seq<u8>, b: u64) -> u64 {
    rd(s, b as int)
}

/// Weak count of the shared box at `b` in image `s`, one more than the weak
/// pointers while a strong one exists.
pub open spec fn weak_at(s: Seq<u8>, b: u64) -> u64 {
    rd(s, b + 8)
}

/// The value of the shared box at `b` in image `s`.
pub open spec fn value_at(s: Seq<u8>, b: u64) -> u64 {
    rd(s, b + 16)
}

/// Image `s` after adding one to the counter at `c`.
pub open spec fn bumped(s: Seq<u8>, c: int) -> Seq<u8> {
    wr(s, c, (rd(s, c) + 1) as u64)
}

/// Adds one to the counter at `c`, recording that it moves back down if the
/// transaction fails.
fn fetch_inc(pool: &mut BuddyPool, journal: &mut Journal, c: u64)
    requires
        old(pool).inv(),
        c + 8 <= old(pool).image().len(),
        range_live(c as int, 8, old(pool).zone_list()),
        rd(old(pool).image(), c as int) < u64::MAX,
        old(journal).records().len() < usize::MAX,
    ensures
        final(pool).inv(),
        final(pool).image() == bumped(old(pool).image(), c as int),
        final(pool).image().len() == old(pool).image().len(),
        rd(final(pool).image(), c as int) == rd(old(pool).image(), c as int) + 1,
        forall|a: int|
            0 <= a && a + 8 <= old(pool).image().len() && (a + 8 <= c || c + 8 <= a) ==> #[trigger] rd(
                final(pool).image(),
                a,
            ) == rd(old(pool).image(), a),
        final(pool).zone_list() == old(pool).zone_list(),
        final(pool).zone_total() == old(pool).zone_total(),
        final(pool).zone_quota() == old(pool).zone_quota(),
        final(pool).pool_size() == old(pool).pool_size(),
        final(journal).records() == old(journal).records().push(Log(LogEnum::RecountOnFailure(c, false), Notifier::Empty)),
        final(journal).copies() == old(journal).copies(),
        final(journal).flag_word() == old(journal).flag_word(),
        final(journal).home() == old(journal).home(),
        final(journal).nesting() == old(journal).nesting(),
        logs_live(old(journal).records(), old(journal).copies(), old(pool).image().len() as int, old(pool).zone_list())
            ==> logs_live(final(journal).records(), final(journal).copies(), final(pool).image().len() as int, final(pool).zone_list()),
{
    let n = pool.read_u64(c);
    let _ = Log::recount_on_failure(c, false, journal);
    proof {
        lemma_wr(pool.image(), c as int, (n + 1) as u64);
        if logs_live(old(journal).records(), old(journal).copies(), old(pool).image().len() as int, old(pool).zone_list()) {
            assert forall|i: int| 0 <= i < journal.records().len() implies match (#[trigger] journal.records()[i]).0 {
                LogEnum::DataLog(src, li, len) => src != NONE_OFF ==> {
                    &&& li < journal.copies().len()
                    &&& journal.copies()[li as int].len() == len
                    &&& src + len <= old(pool).image().len()
                    &&& range_live(src as int, len as int, old(pool).zone_list())
                    &&& crate::stm::flag_live(journal.records()[i].1, old(pool).image().len() as int, old(pool).zone_list())
                },
                _ => true,
            } by {
                if i < old(journal).records().len() {
                    assert(journal.records()[i] == old(journal).records()[i]);
                }
            }
        }
    }
    let ghost s0 = pool.image();
    pool.write_u64(c, n + 1);
    proof {
        assert forall|a: int|
            0 <= a && a + 8 <= s0.len() && (a + 8 <= c || c + 8 <= a) implies #[trigger] rd(pool.image(), a) == rd(
                s0,
                a,
            ) by {
            lemma_rd_wr_other(s0, c as int, (n + 1) as u64, a);
        }
    }
}

/// The contents of a shared box.
#[derive(Clone, Copy)]
pub struct ParcInner {
    pub strong: u64,
    pub weak: u64,
    pub value: u64,
}

/// A thread-safe reference-counted pointer to a shared box of the pool.
pub struct Parc {
    off: u64,
}

/// A pointer that keeps a shared box's block but not its value; the null
/// offset when dangling.
pub struct Weak {
    off: u64,
}

/// A volatile pointer to a shared box, counted in neither counter: an entry
/// of the pool's volatile pointer list, valid in the pool generation that
/// made it.
pub struct VWeak {
    off: u64,
    slot: usize,
    gen: u32,
}

impl Parc {
    /// Offset of the shared box.
    pub closed spec fn loc(&self) -> u64 {
        self.off
    }

    /// A new shared box holding `value`, with one strong pointer; the block
    /// is freed if the transaction fails. `None` when no zone has room.
    pub fn new(value: u64, pool: &mut BuddyPool, journal: &mut Journal) -> (r: Option<Parc>)
        requires
            old(pool).inv(),
            old(journal).records().len() < usize::MAX,
        ensures
            kept(*old(pool), *final(pool)),
            final(journal).flag_word() == old(journal).flag_word(),
            final(journal).home() == old(journal).home(),
            final(journal).nesting() == old(journal).nesting(),
            final(journal).copies() == old(journal).copies(),
            r is None == (forall|y: int|
                0 <= y < old(pool).zone_total() ==> alloc_fails(#[trigger] old(pool).zone_list()[y], 24)),
            r is None ==> final(journal).records() == old(journal).records(),
            r matches Some(p) ==> {
                &&& inner_ok(*final(pool), p.loc())
                &&& strong_at(final(pool).image(), p.loc()) == 1
                &&& weak_at(final(pool).image(), p.loc()) == 1
                &&& value_at(final(pool).image(), p.loc()) == value
                &&& forall|q: int| #[trigger] range_live(q, 1, old(pool).zone_list()) ==> !(p.loc() <= q < p.loc() + 24)
                &&& final(journal).records() == old(journal).records().push(
                    Log(LogEnum::DropOnFailure(p.loc(), 24), Notifier::Empty),
                )
            },
    {
        let b = new_block(pool, journal, 24);
        if b == NONE_OFF {
            return None;
        }
        let ghost p1 = *pool;
        proof {
            pool.lemma_image_bound();
            lemma_live_sub(b as int, 24, b as int, 8, pool.zone_list());
            lemma_live_sub(b as int, 24, b + 8, 8, pool.zone_list());
            lemma_live_sub(b as int, 24, b + 16, 8, pool.zone_list());
        }
        let ghost s1 = pool.image();
        proof {
            lemma_wr(s1, b as int, 1);
        }
        pool.write_u64(b, 1);
        let ghost s2 = pool.image();
        proof {
            lemma_wr(s2, b + 8, 1);
        }
        pool.write_u64(b + 8, 1);
        let ghost s3 = pool.image();
        proof {
            lemma_wr(s3, b + 16, value);
        }
        pool.write_u64(b + 16, value);
        proof {
            lemma_rd_wr_other(s2, b + 8, 1, b as int);
            lemma_rd_wr_other(s3, b + 16, value, b as int);
            lemma_rd_wr_other(s3, b + 16, value, b + 8);
            assert forall|p: int| 0 <= p < p1.image().len() && !(b <= p < b + 24) implies #[trigger] pool.image()[p] == p1.image()[p] by {}
            lemma_kept_write(*old(pool), p1, *pool, b as int, 24);
        }
        Some(Parc { off: b })
    }

    /// A new strong pointer to the same shared box; the strong count goes up
    /// by one, and moves back if the transaction fails. A count above
    /// `i64::MAX` is outside the contract: the process aborts there.
    pub fn pclone(&self, pool: &mut BuddyPool, journal: &mut Journal) -> (r: Parc)
        requires
            old(pool).inv(),
            inner_ok(*old(pool), self.loc()),
            strong_at(old(pool).image(), self.loc()) <= i64::MAX,
            old(journal).records().len() < usize::MAX,
        ensures
            r.loc() == self.loc(),
            final(pool).inv(),
            final(pool).image() == bumped(old(pool).image(), self.loc() as int),
            strong_at(final(pool).image(), self.loc()) == strong_at(old(pool).image(), self.loc()) + 1,
            weak_at(final(pool).image(), self.loc()) == weak_at(old(pool).image(), self.loc()),
            value_at(final(pool).image(), self.loc()) == value_at(old(pool).image(), self.loc()),
            final(pool).zone_list() == old(pool).zone_list(),
            final(pool).zone_total() == old(pool).zone_total(),
            final(pool).zone_quota() == old(pool).zone_quota(),
            final(pool).pool_size() == old(pool).pool_size(),
            final(journal).records() == old(journal).records().push(
                Log(LogEnum::RecountOnFailure(self.loc(), false), Notifier::Empty),
            ),
            final(journal).copies() == old(journal).copies(),
            final(journal).flag_word() == old(journal).flag_word(),
            final(journal).nesting() == old(journal).nesting(),
            logs_live(old(journal).records(), old(journal).copies(), old(pool).image().len() as int, old(pool).zone_list())
                ==> logs_live(final(journal).records(), final(journal).copies(), final(pool).image().len() as int, final(pool).zone_list()),
    {
        proof {
            lemma_live_sub(self.off as int, 24, self.off as int, 8, pool.zone_list());
        }
        fetch_inc(pool, journal, self.off);
        Parc { off: self.off }
    }

    /// A new weak pointer to the shared box; the weak count goes up by one,
    /// and moves back if the transaction fails.
    pub fn downgrade(this: &Parc, pool: &mut BuddyPool, journal: &mut Journal) -> (r: Weak)
        requires
            old(pool).inv(),
            inner_ok(*old(pool), this.loc()),
            weak_at(old(pool).image(), this.loc()) < u64::MAX,
            old(journal).records().len() < usize::MAX,
        ensures
            r.loc() == this.loc(),
            final(pool).inv(),
            final(pool).image() == bumped(old(pool).image(), this.loc() + 8),
            weak_at(final(pool).image(), this.loc()) == weak_at(old(pool).image(), this.loc()) + 1,
            strong_at(final(pool).image(), this.loc()) == strong_at(old(pool).image(), this.loc()),
            value_at(final(pool).image(), this.loc()) == value_at(old(pool).image(), this.loc()),
            final(pool).zone_list() == old(pool).zone_list(),
            final(pool).zone_total() == old(pool).zone_total(),
            final(pool).zone_quota() == old(pool).zone_quota(),
            final(pool).pool_size() == old(pool).pool_size(),
            final(journal).records() == old(journal).records().push(
                Log(LogEnum::RecountOnFailure((this.loc() + 8) as u64, false), Notifier::Empty),
            ),
            final(journal).copies() == old(journal).copies(),
            final(journal).flag_word() == old(journal).flag_word(),
            final(journal).nesting() == old(journal).nesting(),
            logs_live(old(journal).records(), old(journal).copies(), old(pool).image().len() as int, old(pool).zone_list())
                ==> logs_live(final(journal).records(), final(journal).copies(), final(pool).image().len() as int, final(pool).zone_list()),
    {
        proof {
            pool.lemma_image_bound();
            lemma_live_sub(this.off as int, 24, this.off + 8, 8, pool.zone_list());
        }
        fetch_inc(pool, journal, this.off + 8);
        Weak { off: this.off }
    }

    /// A volatile pointer to the shared box, counted nowhere: a new valid
    /// entry of the volatile pointer list. Only outside a transaction: the
    /// journal `journal` of the calling thread must have none running.
    pub fn demote(this: &Parc, journal: &Journal, vlist: &mut VWeakList, gen: u32) -> (r: VWeak)
        requires
            journal.nesting() == 0,
            old(vlist)@.len() < usize::MAX,
        ensures
            r.loc() == this.loc(),
            r.slot() == old(vlist)@.len(),
            r.generation() == gen,
            final(vlist)@ == old(vlist)@.push((this.loc(), true)),
    {
        let slot = vlist.append(this.off);
        VWeak { off: this.off, slot, gen }
    }

    /// The number of weak pointers: the weak count less the one that the
    /// strong pointers share; 0 when the weak count is held at its locked
    /// value, the largest word.
    pub fn weak_count(this: &Parc, pool: &BuddyPool) -> (r: u64)
        requires
            pool.inv(),
            inner_ok(*pool, this.loc()),
            weak_at(pool.image(), this.loc()) >= 1,
        ensures
            r == (if weak_at(pool.image(), this.loc()) == u64::MAX {
                0
            } else {
                (weak_at(pool.image(), this.loc()) - 1) as u64
            }),
    {
        proof {
            pool.lemma_image_bound();
        }
        let cnt = pool.read_u64(this.off + 8);
        if cnt == u64::MAX {
            0
        } else {
            cnt - 1
        }
    }

    /// The number of strong pointers.
    pub fn strong_count(this: &Parc, pool: &BuddyPool) -> (r: u64)
        requires
            pool.inv(),
            inner_ok(*pool, this.loc()),
        ensures
            r == strong_at(pool.image(), this.loc()),
    {
        proof {
            pool.lemma_image_bound();
        }
        pool.read_u64(this.off)
    }

    /// Whether both point to the same shared box.
    pub fn ptr_eq(this: &Parc, other: &Parc) -> (r: bool)
        ensures
            r == (this.loc() == other.loc()),
    {
        this.off == other.off
    }

    /// The value in the shared box.
    pub fn get(&self, pool: &BuddyPool) -> (r: u64)
        requires
            pool.inv(),
            inner_ok(*pool, self.loc()),
        ensures
            r == value_at(pool.image(), self.loc()),
    {
        proof {
            pool.lemma_image_bound();
        }
        pool.read_u64(self.off + 16)
    }
}

impl Weak {
    /// Offset of the shared box, or the null offset.
    pub closed spec fn loc(&self) -> u64 {
        self.off
    }

    /// A dangling weak pointer.
    pub fn new() -> (r: Weak)
        ensures
            r.loc() == NONE_OFF,
    {
        Weak { off: NONE_OFF }
    }

    /// Another weak pointer to the same shared box; when not dangling, the
    /// weak count goes up by one, and moves back if the transaction fails.
    /// A count above `i64::MAX` is outside the contract: the process aborts
    /// there.
    pub fn pclone(&self, pool: &mut BuddyPool, journal: &mut Journal) -> (r: Weak)
        requires
            old(pool).inv(),
            self.loc() != NONE_OFF ==> inner_ok(*old(pool), self.loc()) && weak_at(old(pool).image(), self.loc()) <= i64::MAX,
            old(journal).records().len() < usize::MAX,
        ensures
            r.loc() == self.loc(),
            final(pool).inv(),
            self.loc() == NONE_OFF ==> *final(pool) == *old(pool) && *final(journal) == *old(journal),
            self.loc() != NONE_OFF ==> {
                &&& final(pool).image() == bumped(old(pool).image(), self.loc() + 8)
                &&& weak_at(final(pool).image(), self.loc()) == weak_at(old(pool).image(), self.loc()) + 1
                &&& strong_at(final(pool).image(), self.loc()) == strong_at(old(pool).image(), self.loc())
                &&& value_at(final(pool).image(), self.loc()) == value_at(old(pool).image(), self.loc())
                &&& final(pool).zone_list() == old(pool).zone_list()
                &&& final(journal).records() == old(journal).records().push(
                    Log(LogEnum::RecountOnFailure((self.loc() + 8) as u64, false), Notifier::Empty),
                )
                &&& final(journal).copies() == old(journal).copies()
            },
            logs_live(old(journal).records(), old(journal).copies(), old(pool).image().len() as int, old(pool).zone_list())
                ==> logs_live(final(journal).records(), final(journal).copies(), final(pool).image().len() as int, final(pool).zone_list()),
    {
        if self.off != NONE_OFF {
            proof {
                pool.lemma_image_bound();
                lemma_live_sub(self.off as int, 24, self.off + 8, 8, pool.zone_list());
            }
            fetch_inc(pool, journal, self.off + 8);
        }
        Weak { off: self.off }
    }

    /// A strong pointer to the shared box when its value is still there
    /// (strong count above 0), the strong count going up by one and moving
    /// back if the transaction fails; otherwise, or when dangling, `None`
    /// and nothing changes.
    pub fn upgrade(&self, pool: &mut BuddyPool, journal: &mut Journal) -> (r: Option<Parc>)
        requires
            old(pool).inv(),
            self.loc() != NONE_OFF ==> inner_ok(*old(pool), self.loc()) && strong_at(old(pool).image(), self.loc()) <= i64::MAX,
            old(journal).records().len() < usize::MAX,
        ensures
            final(pool).inv(),
            (self.loc() == NONE_OFF || strong_at(old(pool).image(), self.loc()) == 0) ==> {
                &&& r is None
                &&& *final(pool) == *old(pool)
                &&& *final(journal) == *old(journal)
            },
            (self.loc() != NONE_OFF && strong_at(old(pool).image(), self.loc()) != 0) ==> {
                &&& r matches Some(p) && p.loc() == self.loc()
                &&& final(pool).image() == bumped(old(pool).image(), self.loc() as int)
                &&& strong_at(final(pool).image(), self.loc()) == strong_at(old(pool).image(), self.loc()) + 1
                &&& weak_at(final(pool).image(), self.loc()) == weak_at(old(pool).image(), self.loc())
                &&& value_at(final(pool).image(), self.loc()) == value_at(old(pool).image(), self.loc())
                &&& final(pool).zone_list() == old(pool).zone_list()
                &&& final(journal).records() == old(journal).records().push(
                    Log(LogEnum::RecountOnFailure(self.loc(), false), Notifier::Empty),
                )
                &&& final(journal).copies() == old(journal).copies()
            },
            logs_live(old(journal).records(), old(journal).copies(), old(pool).image().len() as int, old(pool).zone_list())
                ==> logs_live(final(journal).records(), final(journal).copies(), final(pool).image().len() as int, final(pool).zone_list()),
    {
        if self.off == NONE_OFF {
            return None;
        }
        if pool.read_u64(self.off) == 0 {
            return None;
        }
        proof {
            lemma_live_sub(self.off as int, 24, self.off as int, 8, pool.zone_list());
        }
        fetch_inc(pool, journal, self.off);
        Some(Parc { off: self.off })
    }

    /// The strong count of the shared box, or 0 when dangling.
    pub fn strong_count(&self, pool: &BuddyPool) -> (r: u64)
        requires
            pool.inv(),
            self.loc() != NONE_OFF ==> inner_ok(*pool, self.loc()),
        ensures
            r == (if self.loc() == NONE_OFF {
                0
            } else {
                strong_at(pool.image(), self.loc())
            }),
    {
        if self.off == NONE_OFF {
            0
        } else {
            pool.read_u64(self.off)
        }
    }

    /// The number of weak pointers to the shared box: 0 when dangling or
    /// when no strong pointer is left, else the weak count less the one that
    /// the strong pointers share.
    pub fn weak_count(&self, pool: &BuddyPool) -> (r: u64)
        requires
            pool.inv(),
            self.loc() != NONE_OFF ==> inner_ok(*pool, self.loc()),
            self.loc() != NONE_OFF && strong_at(pool.image(), self.loc()) > 0 ==> weak_at(pool.image(), self.loc()) >= 1,
        ensures
            r == (if self.loc() == NONE_OFF || strong_at(pool.image(), self.loc()) == 0 {
                0
            } else {
                (weak_at(pool.image(), self.loc()) - 1) as u64
            }),
    {
        if self.off == NONE_OFF {
            return 0;
        }
        proof {
            pool.lemma_image_bound();
        }
        let weak = pool.read_u64(self.off + 8);
        let strong = pool.read_u64(self.off);
        if strong == 0 {
            0
        } else {
            weak - 1
        }
    }

    /// Whether both point to the same shared box, or both dangle.
    pub fn ptr_eq(&self, other: &Weak) -> (r: bool)
        ensures
            r == (self.loc() == other.loc()),
    {
        self.off == other.off
    }

    /// Gives up the pointer, returning the offset of the shared box's value,
    /// or the null offset when dangling.
    pub fn into_raw(self) -> (r: u64)
        requires
            self.loc() != NONE_OFF ==> self.loc() + 16 <= u64::MAX,
        ensures
            r == (if self.loc() == NONE_OFF {
                NONE_OFF
            } else {
                (self.loc() + 16) as u64
            }),
    {
        if self.off == NONE_OFF {
            NONE_OFF
        } else {
            self.off + 16
        }
    }
}

impl VWeak {
    /// Offset of the shared box, or the null offset.
    pub closed spec fn loc(&self) -> u64 {
        self.off
    }

    /// Its entry in the volatile pointer list.
    pub closed spec fn slot(&self) -> usize {
        self.slot
    }

    /// The pool generation that made it.
    pub closed spec fn generation(&self) -> u32 {
        self.gen
    }

    /// It still points to its shared box in pool generation `gen` with list
    /// `l`.
    pub open spec fn live(&self, l: Seq<(u64, bool)>, gen: u32) -> bool {
        self.generation() == gen && live_slot(l, self.slot())
    }

    /// A volatile pointer to no shared box.
    pub fn null() -> (r: VWeak)
        ensures
            r.loc() == NONE_OFF,
            r.slot() == usize::MAX,
            r.generation() == u32::MAX,
    {
        VWeak { off: NONE_OFF, slot: usize::MAX, gen: u32::MAX }
    }

    /// A strong pointer to the shared box when this pointer is still valid
    /// in pool generation `gen` and the value is still there (strong count
    /// above 0), the strong count going up by one and moving back if the
    /// transaction fails; otherwise `None` and nothing changes. A count
    /// above `i64::MAX` is outside the contract: the process aborts there.
    pub fn promote(&self, pool: &mut BuddyPool, journal: &mut Journal, vlist: &VWeakList, gen: u32) -> (r: Option<Parc>)
        requires
            old(pool).inv(),
            self.live(vlist@, gen) ==> inner_ok(*old(pool), self.loc()) && strong_at(old(pool).image(), self.loc()) <= i64::MAX,
            old(journal).records().len() < usize::MAX,
        ensures
            final(pool).inv(),
            (!self.live(vlist@, gen) || strong_at(old(pool).image(), self.loc()) == 0) ==> {
                &&& r is None
                &&& *final(pool) == *old(pool)
                &&& *final(journal) == *old(journal)
            },
            (self.live(vlist@, gen) && strong_at(old(pool).image(), self.loc()) != 0) ==> {
                &&& r matches Some(p) && p.loc() == self.loc()
                &&& final(pool).image() == bumped(old(pool).image(), self.loc() as int)
                &&& strong_at(final(pool).image(), self.loc()) == strong_at(old(pool).image(), self.loc()) + 1
                &&& weak_at(final(pool).image(), self.loc()) == weak_at(old(pool).image(), self.loc())
                &&& value_at(final(pool).image(), self.loc()) == value_at(old(pool).image(), self.loc())
                &&& final(pool).zone_list() == old(pool).zone_list()
                &&& final(journal).records() == old(journal).records().push(
                    Log(LogEnum::RecountOnFailure(self.loc(), false), Notifier::Empty),
                )
                &&& final(journal).copies() == old(journal).copies()
            },
            logs_live(old(journal).records(), old(journal).copies(), old(pool).image().len() as int, old(pool).zone_list())
                ==> logs_live(final(journal).records(), final(journal).copies(), final(pool).image().len() as int, final(pool).zone_list()),
    {
        if self.gen != gen || !vlist.is_valid(self.slot) {
            return None;
        }
        if pool.read_u64(self.off) == 0 {
            return None;
        }
        proof {
            lemma_live_sub(self.off as int, 24, self.off as int, 8, pool.zone_list());
        }
        fetch_inc(pool, journal, self.off);
        Some(Parc { off: self.off })
    }

    /// Another volatile pointer to the same shared box: a new valid entry of
    /// the list when this one is still valid in pool generation `gen`, or
    /// else a copy of this one.
    pub fn clone(&self, vlist: &mut VWeakList, gen: u32) -> (r: VWeak)
        requires
            old(vlist)@.len() < usize::MAX,
        ensures
            r.loc() == self.loc(),
            r.generation() == self.generation(),
            self.live(old(vlist)@, gen) ==> r.slot() == old(vlist)@.len() && final(vlist)@ == old(vlist)@.push(
                (self.loc(), true),
            ),
            !self.live(old(vlist)@, gen) ==> r.slot() == self.slot() && final(vlist)@ == old(vlist)@,
    {
        if self.gen == gen && vlist.is_valid(self.slot) {
            let slot = vlist.append(self.off);
            VWeak { off: self.off, slot, gen: self.gen }
        } else {
            VWeak { off: self.off, slot: self.slot, gen: self.gen }
        }
    }

    /// Drops this volatile pointer: when it is valid in pool generation
    /// `gen`, its entry leaves the list.
    pub fn drop(self, vlist: &mut VWeakList, gen: u32)
        ensures
            self.live(old(vlist)@, gen) ==> final(vlist)@ == old(vlist)@.update(
                self.slot() as int,
                (old(vlist)@[self.slot() as int].0, false),
            ),
            !self.live(old(vlist)@, gen) ==> final(vlist)@ == old(vlist)@,
    {
        if self.gen == gen && vlist.is_valid(self.slot) {
            vlist.release(self.slot);
        }
    }
}

/// Counting: a step of the strong count adds one to it and keeps the weak
/// count and the value; a step of the weak count adds one to it and keeps
/// the strong count and the value.
pub proof fn lemma_bumped(s: Seq<u8>, b: u64, at: int)
    requires
        b + 24 <= s.len(),
        at == 0 || at == 8,
        rd(s, b + at) < u64::MAX,
    ensures
        at == 0 ==> strong_at(bumped(s, b + at), b) == strong_at(s, b) + 1,
        at == 0 ==> weak_at(bumped(s, b + at), b) == weak_at(s, b),
        at == 8 ==> weak_at(bumped(s, b + at), b) == weak_at(s, b) + 1,
        at == 8 ==> strong_at(bumped(s, b + at), b) == strong_at(s, b),
        value_at(bumped(s, b + at), b) == value_at(s, b),
        bumped(s, b + at).len() == s.len(),
{
    lemma_wr(s, b + at, (rd(s, b + at) + 1) as u64);
    if at == 0 {
        lemma_rd_wr_other(s, b as int, (rd(s, b as int) + 1) as u64, b + 8);
    } else {
        lemma_rd_wr_other(s, b + 8, (rd(s, b + 8) + 1) as u64, b as int);
    }
    lemma_rd_wr_other(s, b + at, (rd(s, b + at) + 1) as u64, b + 16);
}

/// Image `s` after taking one from the counter at `c`.
pub open spec fn lowered(s: Seq<u8>, c: int) -> Seq<u8> {
    wr(s, c, (rd(s, c) - 1) as u64)
}

/// A step down of the strong count takes one from it and keeps the weak
/// count and the value; a step down of the weak count takes one from it and
/// keeps the strong count and the value.
pub proof fn lemma_lowered(s: Seq<u8>, b: u64, at: int)
    requires
        b + 24 <= s.len(),
        at == 0 || at == 8,
        rd(s, b + at) >= 1,
    ensures
        at == 0 ==> strong_at(lowered(s, b + at), b) == strong_at(s, b) - 1,
        at == 0 ==> weak_at(lowered(s, b + at), b) == weak_at(s, b),
        at == 8 ==> weak_at(lowered(s, b + at), b) == weak_at(s, b) - 1,
        at == 8 ==> strong_at(lowered(s, b + at), b) == strong_at(s, b),
        value_at(lowered(s, b + at), b) == value_at(s, b),
        lowered(s, b + at).len() == s.len(),
{
    lemma_wr(s, b + at, (rd(s, b + at) - 1) as u64);
    if at == 0 {
        lemma_rd_wr_other(s, b as int, (rd(s, b as int) - 1) as u64, b + 8);
    } else {
        lemma_rd_wr_other(s, b + 8, (rd(s, b + 8) - 1) as u64, b as int);
    }
    lemma_rd_wr_other(s, b + at, (rd(s, b + at) - 1) as u64, b + 16);
}

/// A shared box with one strong pointer and one weak pointer has a weak
/// count of 2; dropping the strong pointer (both counts step down) and then
/// the weak one takes both counts to 0, the state in which the weak drop
/// frees the block.
pub proof fn lemma_parc_last_pointers_release(s: Seq<u8>, b: u64)
    requires
        b + 24 <= s.len(),
        strong_at(s, b) == 1,
        weak_at(s, b) == 2,
    ensures
        weak_at(lowered(lowered(s, b as int), b + 8), b) == 1,
        strong_at(lowered(lowered(lowered(s, b as int), b + 8), b + 8), b) == 0,
        weak_at(lowered(lowered(lowered(s, b as int), b + 8), b + 8), b) == 0,
{
    lemma_lowered(s, b, 0);
    let s1 = lowered(s, b as int);
    lemma_lowered(s1, b, 8);
    let s2 = lowered(s1, b + 8);
    lemma_lowered(s2, b, 8);
}

/// Takes one from the counter at `c`, recording that it moves back up if
/// the transaction fails.
fn fetch_dec(pool: &mut BuddyPool, journal: &mut Journal, c: u64)
    requires
        old(pool).inv(),
        c + 8 <= old(pool).image().len(),
        range_live(c as int, 8, old(pool).zone_list()),
        rd(old(pool).image(), c as int) >= 1,
        old(journal).records().len() < usize::MAX,
    ensures
        final(pool).inv(),
        final(pool).image() == lowered(old(pool).image(), c as int),
        final(pool).image().len() == old(pool).image().len(),
        rd(final(pool).image(), c as int) == rd(old(pool).image(), c as int) - 1,
        forall|a: int|
            0 <= a && a + 8 <= old(pool).image().len() && (a + 8 <= c || c + 8 <= a) ==> #[trigger] rd(
                final(pool).image(),
                a,
            ) == rd(old(pool).image(), a),
        final(pool).zone_list() == old(pool).zone_list(),
        final(pool).zone_total() == old(pool).zone_total(),
        final(pool).zone_quota() == old(pool).zone_quota(),
        final(pool).pool_size() == old(pool).pool_size(),
        final(journal).records() == old(journal).records().push(Log(LogEnum::RecountOnFailure(c, true), Notifier::Empty)),
        final(journal).copies() == old(journal).copies(),
        final(journal).flag_word() == old(journal).flag_word(),
        final(journal).home() == old(journal).home(),
        final(journal).nesting() == old(journal).nesting(),
        logs_live(old(journal).records(), old(journal).copies(), old(pool).image().len() as int, old(pool).zone_list())
            ==> logs_live(final(journal).records(), final(journal).copies(), final(pool).image().len() as int, final(pool).zone_list()),
{
    let n = pool.read_u64(c);
    let _ = Log::recount_on_failure(c, true, journal);
    proof {
        lemma_wr(pool.image(), c as int, (n - 1) as u64);
        if logs_live(old(journal).records(), old(journal).copies(), old(pool).image().len() as int, old(pool).zone_list()) {
            assert forall|i: int| 0 <= i < journal.records().len() implies match (#[trigger] journal.records()[i]).0 {
                LogEnum::DataLog(src, li, len) => src != NONE_OFF ==> {
                    &&& li < journal.copies().len()
                    &&& journal.copies()[li as int].len() == len
                    &&& src + len <= old(pool).image().len()
                    &&& range_live(src as int, len as int, old(pool).zone_list())
                    &&& crate::stm::flag_live(journal.records()[i].1, old(pool).image().len() as int, old(pool).zone_list())
                },
                _ => true,
            } by {
                if i < old(journal).records().len() {
                    assert(journal.records()[i] == old(journal).records()[i]);
                }
            }
        }
    }
    let ghost s0 = pool.image();
    pool.write_u64(c, n - 1);
    proof {
        assert forall|a: int|
            0 <= a && a + 8 <= s0.len() && (a + 8 <= c || c + 8 <= a) implies #[trigger] rd(pool.image(), a) == rd(
                s0,
                a,
            ) by {
            lemma_rd_wr_other(s0, c as int, (n - 1) as u64, a);
        }
    }
}

impl Parc {
    /// Drops this strong pointer: the strong count goes down by one; when it
    /// reaches 0 the weak count shared by the strong pointers goes down too,
    /// and when that reaches 0 the block is freed when the transaction
    /// commits and its volatile pointers are invalidated. Each count step is
    /// undone if the transaction fails.
    pub fn drop(self, pool: &mut BuddyPool, journal: &mut Journal, vlist: &mut VWeakList)
        requires
            old(pool).inv(),
            inner_ok(*old(pool), self.loc()),
            strong_at(old(pool).image(), self.loc()) >= 1,
            strong_at(old(pool).image(), self.loc()) == 1 ==> weak_at(old(pool).image(), self.loc()) >= 1,
            old(journal).records().len() + 3 < usize::MAX,
        ensures
            final(pool).inv(),
            final(pool).zone_list() == old(pool).zone_list(),
            final(pool).image().len() == old(pool).image().len(),
            strong_at(final(pool).image(), self.loc()) == strong_at(old(pool).image(), self.loc()) - 1,
            weak_at(final(pool).image(), self.loc()) == if strong_at(old(pool).image(), self.loc()) == 1 {
                weak_at(old(pool).image(), self.loc()) - 1
            } else {
                weak_at(old(pool).image(), self.loc()) as int
            },
            value_at(final(pool).image(), self.loc()) == value_at(old(pool).image(), self.loc()),
            (strong_at(final(pool).image(), self.loc()) == 0 && weak_at(final(pool).image(), self.loc()) == 0)
                ==> final(journal).records().last() == Log(LogEnum::DropOnCommit(self.loc(), 24), Notifier::Empty),
            final(journal).copies() == old(journal).copies(),
            final(journal).flag_word() == old(journal).flag_word(),
            final(journal).nesting() == old(journal).nesting(),
            ({
                let s = old(pool).image();
                let b = self.loc();
                let r0 = old(journal).records().push(Log(LogEnum::RecountOnFailure(b, true), Notifier::Empty));
                let r1 = r0.push(Log(LogEnum::RecountOnFailure((b + 8) as u64, true), Notifier::Empty));
                if strong_at(s, b) > 1 {
                    &&& final(pool).image() == lowered(s, b as int)
                    &&& final(journal).records() == r0
                    &&& final(vlist)@ == old(vlist)@
                } else if weak_at(s, b) > 1 {
                    &&& final(pool).image() == lowered(lowered(s, b as int), b + 8)
                    &&& final(journal).records() == r1
                    &&& final(vlist)@ == old(vlist)@
                } else {
                    &&& final(pool).image() == lowered(lowered(s, b as int), b + 8)
                    &&& final(journal).records() == r1.push(Log(LogEnum::DropOnCommit(b, 24), Notifier::Empty))
                    &&& final(vlist)@ == invalidated(old(vlist)@, b)
                }
            }),
            logs_live(old(journal).records(), old(journal).copies(), old(pool).image().len() as int, old(pool).zone_list())
                ==> logs_live(final(journal).records(), final(journal).copies(), final(pool).image().len() as int, final(pool).zone_list()),
    {
        let b = self.off;
        proof {
            pool.lemma_image_bound();
            lemma_live_sub(b as int, 24, b as int, 8, pool.zone_list());
            lemma_live_sub(b as int, 24, b + 8, 8, pool.zone_list());
        }
        let ghost s0 = pool.image();
        let strong = pool.read_u64(b);
        fetch_dec(pool, journal, b);
        let ghost s1 = pool.image();
        proof {
            assert(rd(s1, b + 8) == rd(s0, b + 8));
            assert(rd(s1, b + 16) == rd(s0, b + 16));
        }
        if strong != 1 {
            return;
        }
        proof {
            lemma_wr(s0, b as int, 0);
            lemma_rd_wr_other(s0, b as int, 0, b + 8);
        }
        let weak = pool.read_u64(b + 8);
        fetch_dec(pool, journal, b + 8);
        proof {
            assert(rd(pool.image(), b as int) == rd(s1, b as int));
            assert(rd(pool.image(), b + 16) == rd(s1, b + 16));
        }
        if weak == 1 {
            let _ = Log::drop_on_commit(b, 24, journal);
            vlist.invalidate(b);
        }
    }
}

impl Weak {
    /// Drops this weak pointer, if not dangling: the weak count goes down by
    /// one, undone if the transaction fails, and when it reaches 0 the block
    /// is freed when the transaction commits.
    pub fn drop(self, pool: &mut BuddyPool, journal: &mut Journal)
        requires
            old(pool).inv(),
            self.loc() != NONE_OFF ==> inner_ok(*old(pool), self.loc()) && weak_at(old(pool).image(), self.loc()) >= 1,
            old(journal).records().len() + 2 < usize::MAX,
        ensures
            final(pool).inv(),
            self.loc() == NONE_OFF ==> *final(pool) == *old(pool) && *final(journal) == *old(journal),
            self.loc() != NONE_OFF ==> {
                let r0 = old(journal).records().push(Log(LogEnum::RecountOnFailure((self.loc() + 8) as u64, true), Notifier::Empty));
                &&& final(pool).image() == lowered(old(pool).image(), self.loc() + 8)
                &&& final(pool).image().len() == old(pool).image().len()
                &&& weak_at(final(pool).image(), self.loc()) == weak_at(old(pool).image(), self.loc()) - 1
                &&& strong_at(final(pool).image(), self.loc()) == strong_at(old(pool).image(), self.loc())
                &&& value_at(final(pool).image(), self.loc()) == value_at(old(pool).image(), self.loc())
                &&& weak_at(final(pool).image(), self.loc()) == 0 ==> final(journal).records().last() == Log(
                    LogEnum::DropOnCommit(self.loc(), 24),
                    Notifier::Empty,
                )
                &&& final(pool).zone_list() == old(pool).zone_list()
                &&& final(journal).copies() == old(journal).copies()
                &&& final(journal).records() == if weak_at(old(pool).image(), self.loc()) == 1 {
                    r0.push(Log(LogEnum::DropOnCommit(self.loc(), 24), Notifier::Empty))
                } else {
                    r0
                }
            },
            logs_live(old(journal).records(), old(journal).copies(), old(pool).image().len() as int, old(pool).zone_list())
                ==> logs_live(final(journal).records(), final(journal).copies(), final(pool).image().len() as int, final(pool).zone_list()),
    {
        if self.off == NONE_OFF {
            return;
        }
        let b = self.off;
        proof {
            pool.lemma_image_bound();
            lemma_live_sub(b as int, 24, b + 8, 8, pool.zone_list());
        }
        let ghost s0 = pool.image();
        let weak = pool.read_u64(b + 8);
        fetch_dec(pool, journal, b + 8);
        proof {
            assert(rd(pool.image(), b as int) == rd(s0, b as int));
            assert(rd(pool.image(), b + 16) == rd(s0, b + 16));
        }
        if weak == 1 {
            let _ = Log::drop_on_commit(b, 24, journal);
        }
    }
}

} // verus!
