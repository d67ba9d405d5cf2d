//! Reference-counted persistent pointers. A counted box holds, in one block,
//! the strong count, the weak count, the flag byte of the counters' log and
//! the value: at offsets 0, 8, 16 and 24. Counter changes are transactional:
//! before the first one in a transaction, both counters are copied into the
//! journal.

use vstd::prelude::*;
use crate::pmem::{NONE_OFF, rd, wr, lemma_wr, lemma_rd_wr_other};
use crate::pool::{BuddyPool, range_live, alloc_fails};
use crate::stm::{Journal, Log, LogEnum, Notifier, logs_live};
use crate::vweak::{VWeakList, live_slot, invalidated};
use crate::cell::{kept, new_block, lemma_kept_write, lemma_live_sub, raised, logged, logged_records, logged_copies, log_range};

verus! {

/// The box at `b` lies in live bytes of the pool.
pub open spec fn box_ok(pool: BuddyPool, b: u64) -> bool {
    &&& b + 32 <= pool.image().len()
    &&& range_live(b as int, 32, pool.zone_list())
}

/// Strong count of the box at `b` in image `s`.
pub open spec fn strong_of(s: Seq<u8>, b: u64) -> u64 {
    rd(s, b as int)
}

/// Weak count of the box at `b` in image `s`, one more than the weak
/// pointers while a strong one exists.
pub open spec fn weak_of(s: Seq<u8>, b: u64) -> u64 {
    rd(s, b + 8)
}

/// The value of the box at `b` in image `s`.
pub open spec fn value_of(s: Seq<u8>, b: u64) -> u64 {
    rd(s, b + 24)
}

/// Image `s` after adding one to the counter at `b + at` of the box at `b`,
/// with the counters' log flag raised.
pub open spec fn counted(s: Seq<u8>, b: u64, at: int) -> Seq<u8> {
    wr(raised(s, (b + 16) as u64), b + at, (rd(s, b + at) + 1) as u64)
}

/// A byte store leaves the words that it misses unchanged.
pub proof fn lemma_rd_update_other(s: Seq<u8>, a: int, p: int, v: u8)
    requires
        0 <= a,
        a + 8 <= s.len(),
        0 <= p < s.len(),
        !(a <= p < a + 8),
    ensures
        rd(s.update(p, v), a) == rd(s, a),
{
    assert(s.update(p, v).subrange(a, a + 8) =~= s.subrange(a, a + 8));
}

/// Adds one to the counter at `b + at`, copying both counters into the
/// journal first when the transaction has no copy.
fn inc_count(pool: &mut BuddyPool, journal: &mut Journal, b: u64, at: u64)
    requires
        old(pool).inv(),
        box_ok(*old(pool), b),
        at == 0 || at == 8,
        rd(old(pool).image(), b + at) < u64::MAX,
        old(journal).records().len() < usize::MAX,
    ensures
        final(pool).inv(),
        final(pool).image() == counted(old(pool).image(), b, at as int),
        at == 0 ==> strong_of(final(pool).image(), b) == strong_of(old(pool).image(), b) + 1,
        at == 0 ==> weak_of(final(pool).image(), b) == weak_of(old(pool).image(), b),
        at == 8 ==> weak_of(final(pool).image(), b) == weak_of(old(pool).image(), b) + 1,
        at == 8 ==> strong_of(final(pool).image(), b) == strong_of(old(pool).image(), b),
        value_of(final(pool).image(), b) == value_of(old(pool).image(), b),
        final(pool).zone_list() == old(pool).zone_list(),
        final(pool).zone_total() == old(pool).zone_total(),
        final(pool).zone_quota() == old(pool).zone_quota(),
        final(pool).pool_size() == old(pool).pool_size(),
        logged(*old(journal), *final(journal), old(pool).image(), b, 16, (b + 16) as u64),
        logs_live(old(journal).records(), old(journal).copies(), old(pool).image().len() as int, old(pool).zone_list())
            ==> logs_live(final(journal).records(), final(journal).copies(), final(pool).image().len() as int, final(pool).zone_list()),
{
    proof {
        pool.lemma_image_bound();
        lemma_live_sub(b as int, 32, b as int, 16, pool.zone_list());
        lemma_live_sub(b as int, 32, b + 16, 1, pool.zone_list());
        lemma_live_sub(b as int, 32, b + at, 8, pool.zone_list());
    }
    let ghost s0 = pool.image();
    log_range(pool, journal, b, 16, b + 16);
    let ghost s1 = pool.image();
    proof {
        if s0[b + 16] == 0 {
            lemma_rd_update_other(s0, b + at, b + 16, 1);
        }
        lemma_wr(s1, b + at, (rd(s0, b + at) + 1) as u64);
    }
    let c = pool.read_u64(b + at);
    pool.write_u64(b + at, c + 1);
    proof {
        lemma_counted(s0, b, at as int);
    }
}

/// The contents of a counted box.
#[derive(Clone, Copy)]
pub struct PrcBox {
    pub strong: u64,
    pub weak: u64,
    pub has_log: u8,
    pub value: u64,
}

/// A reference-counted pointer to a box of the pool.
pub struct Prc {
    off: u64,
}

/// A pointer that keeps a box's block but not its value; the null offset
/// when dangling.
pub struct Weak {
    off: u64,
}

/// A volatile pointer to a box, counted in neither counter: an entry of the
/// pool's volatile pointer list, valid in the pool generation that made it.
pub struct VWeak {
    off: u64,
    slot: usize,
    gen: u32,
}

impl Prc {
    /// Offset of the box.
    pub closed spec fn loc(&self) -> u64 {
        self.off
    }

    /// A new box holding `value`, with one strong pointer; the block is
    /// freed if the transaction fails. `None` when no zone has room.
    pub fn new(value: u64, pool: &mut BuddyPool, journal: &mut Journal) -> (r: Option<Prc>)
        requires
            old(pool).inv(),
            old(journal).records().len() < usize::MAX,
        ensures
            kept(*old(pool), *final(pool)),
            final(journal).flag_word() == old(journal).flag_word(),
            final(journal).home() == old(journal).home(),
            final(journal).nesting() == old(journal).nesting(),
            final(journal).copies() == old(journal).copies(),
            r is None == (forall|y: int|
                0 <= y < old(pool).zone_total() ==> alloc_fails(#[trigger] old(pool).zone_list()[y], 32)),
            r is None ==> final(journal).records() == old(journal).records(),
            r matches Some(p) ==> {
                &&& box_ok(*final(pool), p.loc())
                &&& strong_of(final(pool).image(), p.loc()) == 1
                &&& weak_of(final(pool).image(), p.loc()) == 1
                &&& final(pool).image()[p.loc() + 16] == 0
                &&& value_of(final(pool).image(), p.loc()) == value
                &&& forall|q: int| #[trigger] range_live(q, 1, old(pool).zone_list()) ==> !(p.loc() <= q < p.loc() + 32)
                &&& final(journal).records() == old(journal).records().push(
                    Log(LogEnum::DropOnFailure(p.loc(), 32), Notifier::Empty),
                )
            },
    {
        let b = new_block(pool, journal, 32);
        if b == NONE_OFF {
            return None;
        }
        let ghost p1 = *pool;
        proof {
            pool.lemma_image_bound();
            lemma_live_sub(b as int, 32, b as int, 8, pool.zone_list());
            lemma_live_sub(b as int, 32, b + 8, 8, pool.zone_list());
            lemma_live_sub(b as int, 32, b + 16, 1, pool.zone_list());
            lemma_live_sub(b as int, 32, b + 24, 8, pool.zone_list());
        }
        let ghost s1 = pool.image();
        proof {
            lemma_wr(s1, b as int, 1);
        }
        pool.write_u64(b, 1);
        let ghost s2 = pool.image();
        proof {
            lemma_wr(s2, b + 8, 1);
        }
        pool.write_u64(b + 8, 1);
        let ghost s3 = pool.image();
        pool.write_byte(b + 16, 0);
        let ghost s4 = pool.image();
        pool.write_u64(b + 24, value);
        proof {
            lemma_rd_wr_other(s2, b + 8, 1, b as int);
            lemma_rd_update_other(s3, b as int, b + 16, 0);
            lemma_rd_update_other(s3, b + 8, b + 16, 0);
            lemma_wr(s4, b + 24, value);
            lemma_rd_wr_other(s4, b + 24, value, b as int);
            lemma_rd_wr_other(s4, b + 24, value, b + 8);
            assert(pool.image()[b + 16] == s4[b + 16]);
            assert forall|p: int| 0 <= p < p1.image().len() && !(b <= p < b + 32) implies #[trigger] pool.image()[p] == p1.image()[p] by {}
            lemma_kept_write(*old(pool), p1, *pool, b as int, 32);
        }
        Some(Prc { off: b })
    }

    /// Takes over the pointer `p`, counts unchanged.
    pub fn from(p: Prc) -> (r: Prc)
        ensures
            r.loc() == p.loc(),
    {
        Prc { off: p.off }
    }

    /// A new strong pointer to the same box; the strong count goes up by
    /// one, transactionally.
    pub fn pclone(&self, pool: &mut BuddyPool, journal: &mut Journal) -> (r: Prc)
        requires
            old(pool).inv(),
            box_ok(*old(pool), self.loc()),
            0 < strong_of(old(pool).image(), self.loc()) < u64::MAX,
            old(journal).records().len() < usize::MAX,
        ensures
            r.loc() == self.loc(),
            final(pool).inv(),
            final(pool).image() == counted(old(pool).image(), self.loc(), 0),
            strong_of(final(pool).image(), self.loc()) == strong_of(old(pool).image(), self.loc()) + 1,
            weak_of(final(pool).image(), self.loc()) == weak_of(old(pool).image(), self.loc()),
            value_of(final(pool).image(), self.loc()) == value_of(old(pool).image(), self.loc()),
            final(pool).zone_list() == old(pool).zone_list(),
            final(pool).zone_total() == old(pool).zone_total(),
            final(pool).zone_quota() == old(pool).zone_quota(),
            final(pool).pool_size() == old(pool).pool_size(),
            logged(*old(journal), *final(journal), old(pool).image(), self.loc(), 16, (self.loc() + 16) as u64),
            logs_live(old(journal).records(), old(journal).copies(), old(pool).image().len() as int, old(pool).zone_list())
                ==> logs_live(final(journal).records(), final(journal).copies(), final(pool).image().len() as int, final(pool).zone_list()),
    {
        inc_count(pool, journal, self.off, 0);
        Prc { off: self.off }
    }

    /// A new weak pointer to the box; the weak count goes up by one,
    /// transactionally.
    pub fn downgrade(this: &Prc, pool: &mut BuddyPool, journal: &mut Journal) -> (r: Weak)
        requires
            old(pool).inv(),
            box_ok(*old(pool), this.loc()),
            0 < weak_of(old(pool).image(), this.loc()) < u64::MAX,
            old(journal).records().len() < usize::MAX,
        ensures
            r.loc() == this.loc(),
            final(pool).inv(),
            final(pool).image() == counted(old(pool).image(), this.loc(), 8),
            weak_of(final(pool).image(), this.loc()) == weak_of(old(pool).image(), this.loc()) + 1,
            strong_of(final(pool).image(), this.loc()) == strong_of(old(pool).image(), this.loc()),
            value_of(final(pool).image(), this.loc()) == value_of(old(pool).image(), this.loc()),
            final(pool).zone_list() == old(pool).zone_list(),
            final(pool).zone_total() == old(pool).zone_total(),
            final(pool).zone_quota() == old(pool).zone_quota(),
            final(pool).pool_size() == old(pool).pool_size(),
            logged(*old(journal), *final(journal), old(pool).image(), this.loc(), 16, (this.loc() + 16) as u64),
            logs_live(old(journal).records(), old(journal).copies(), old(pool).image().len() as int, old(pool).zone_list())
                ==> logs_live(final(journal).records(), final(journal).copies(), final(pool).image().len() as int, final(pool).zone_list()),
    {
        inc_count(pool, journal, this.off, 8);
        Weak { off: this.off }
    }

    /// A volatile pointer to the box, counted nowhere.
    pub fn demote(this: &Prc, vlist: &mut VWeakList, gen: u32) -> (r: VWeak)
        requires
            old(vlist)@.len() < usize::MAX,
        ensures
            r.loc() == this.loc(),
            r.slot() == old(vlist)@.len(),
            r.generation() == gen,
            final(vlist)@ == old(vlist)@.push((this.loc(), true)),
    {
        let slot = vlist.append(this.off);
        VWeak { off: this.off, slot, gen }
    }

    /// The number of weak pointers: the weak count less the one that the
    /// strong pointers share.
    pub fn weak_count(this: &Prc, pool: &BuddyPool) -> (r: u64)
        requires
            pool.inv(),
            box_ok(*pool, this.loc()),
            weak_of(pool.image(), this.loc()) >= 1,
        ensures
            r == weak_of(pool.image(), this.loc()) - 1,
    {
        proof {
            pool.lemma_image_bound();
        }
        pool.read_u64(this.off + 8) - 1
    }

    /// The number of strong pointers.
    pub fn strong_count(this: &Prc, pool: &BuddyPool) -> (r: u64)
        requires
            pool.inv(),
            box_ok(*pool, this.loc()),
        ensures
            r == strong_of(pool.image(), this.loc()),
    {
        proof {
            pool.lemma_image_bound();
        }
        pool.read_u64(this.off)
    }

    /// Whether both point to the same box.
    pub fn ptr_eq(this: &Prc, other: &Prc) -> (r: bool)
        ensures
            r == (this.loc() == other.loc()),
    {
        this.off == other.off
    }

    /// The value in the box.
    pub fn get(&self, pool: &BuddyPool) -> (r: u64)
        requires
            pool.inv(),
            box_ok(*pool, self.loc()),
        ensures
            r == value_of(pool.image(), self.loc()),
    {
        proof {
            pool.lemma_image_bound();
        }
        pool.read_u64(self.off + 24)
    }
}

/// The strong and the weak count of the box of `ptr`.
pub fn ws(ptr: &Prc, pool: &BuddyPool) -> (r: (u64, u64))
    requires
        pool.inv(),
        box_ok(*pool, ptr.loc()),
    ensures
        r == (strong_of(pool.image(), ptr.loc()), weak_of(pool.image(), ptr.loc())),
{
    proof {
        pool.lemma_image_bound();
    }
    (pool.read_u64(ptr.off), pool.read_u64(ptr.off + 8))
}

impl Weak {
    /// Offset of the box, or the null offset.
    pub closed spec fn loc(&self) -> u64 {
        self.off
    }

    /// A dangling weak pointer.
    pub fn new() -> (r: Weak)
        ensures
            r.loc() == NONE_OFF,
    {
        Weak { off: NONE_OFF }
    }

    /// Another weak pointer to the same box; when not dangling, the weak
    /// count goes up by one, transactionally.
    pub fn pclone(&self, pool: &mut BuddyPool, journal: &mut Journal) -> (r: Weak)
        requires
            old(pool).inv(),
            self.loc() != NONE_OFF ==> box_ok(*old(pool), self.loc()) && 0 < weak_of(old(pool).image(), self.loc()) < u64::MAX,
            old(journal).records().len() < usize::MAX,
        ensures
            r.loc() == self.loc(),
            final(pool).inv(),
            self.loc() == NONE_OFF ==> *final(pool) == *old(pool) && *final(journal) == *old(journal),
            self.loc() != NONE_OFF ==> {
                &&& final(pool).image() == counted(old(pool).image(), self.loc(), 8)
                &&& weak_of(final(pool).image(), self.loc()) == weak_of(old(pool).image(), self.loc()) + 1
                &&& strong_of(final(pool).image(), self.loc()) == strong_of(old(pool).image(), self.loc())
                &&& value_of(final(pool).image(), self.loc()) == value_of(old(pool).image(), self.loc())
                &&& final(pool).zone_list() == old(pool).zone_list()
                &&& logged(*old(journal), *final(journal), old(pool).image(), self.loc(), 16, (self.loc() + 16) as u64)
            },
            logs_live(old(journal).records(), old(journal).copies(), old(pool).image().len() as int, old(pool).zone_list())
                ==> logs_live(final(journal).records(), final(journal).copies(), final(pool).image().len() as int, final(pool).zone_list()),
    {
        if self.off != NONE_OFF {
            inc_count(pool, journal, self.off, 8);
        }
        Weak { off: self.off }
    }

    /// A strong pointer to the box when its value is still there (strong
    /// count above 0), the strong count going up by one, transactionally;
    /// otherwise, or when dangling, `None` and nothing changes.
    pub fn upgrade(&self, pool: &mut BuddyPool, journal: &mut Journal) -> (r: Option<Prc>)
        requires
            old(pool).inv(),
            self.loc() != NONE_OFF ==> box_ok(*old(pool), self.loc()) && strong_of(old(pool).image(), self.loc()) < u64::MAX,
            old(journal).records().len() < usize::MAX,
        ensures
            final(pool).inv(),
            (self.loc() == NONE_OFF || strong_of(old(pool).image(), self.loc()) == 0) ==> {
                &&& r is None
                &&& *final(pool) == *old(pool)
                &&& *final(journal) == *old(journal)
            },
            (self.loc() != NONE_OFF && strong_of(old(pool).image(), self.loc()) != 0) ==> {
                &&& r matches Some(p) && p.loc() == self.loc()
                &&& final(pool).image() == counted(old(pool).image(), self.loc(), 0)
                &&& strong_of(final(pool).image(), self.loc()) == strong_of(old(pool).image(), self.loc()) + 1
                &&& weak_of(final(pool).image(), self.loc()) == weak_of(old(pool).image(), self.loc())
                &&& value_of(final(pool).image(), self.loc()) == value_of(old(pool).image(), self.loc())
                &&& final(pool).zone_list() == old(pool).zone_list()
                &&& final(pool).zone_total() == old(pool).zone_total()
                &&& final(pool).zone_quota() == old(pool).zone_quota()
                &&& final(pool).pool_size() == old(pool).pool_size()
                &&& logged(*old(journal), *final(journal), old(pool).image(), self.loc(), 16, (self.loc() + 16) as u64)
            },
            logs_live(old(journal).records(), old(journal).copies(), old(pool).image().len() as int, old(pool).zone_list())
                ==> logs_live(final(journal).records(), final(journal).copies(), final(pool).image().len() as int, final(pool).zone_list()),
    {
        if self.off == NONE_OFF {
            return None;
        }
        proof {
            pool.lemma_image_bound();
        }
        if pool.read_u64(self.off) == 0 {
            return None;
        }
        inc_count(pool, journal, self.off, 0);
        Some(Prc { off: self.off })
    }

    /// The strong count of the box, or 0 when dangling.
    pub fn strong_count(&self, pool: &BuddyPool) -> (r: u64)
        requires
            pool.inv(),
            self.loc() != NONE_OFF ==> box_ok(*pool, self.loc()),
        ensures
            r == (if self.loc() == NONE_OFF {
                0
            } else {
                strong_of(pool.image(), self.loc())
            }),
    {
        if self.off == NONE_OFF {
            0
        } else {
            proof {
                pool.lemma_image_bound();
            }
            pool.read_u64(self.off)
        }
    }

    /// The number of weak pointers to the box: the weak count, less the one
    /// that strong pointers share while there is one; `None` when dangling.
    pub fn weak_count(&self, pool: &BuddyPool) -> (r: Option<u64>)
        requires
            pool.inv(),
            self.loc() != NONE_OFF ==> box_ok(*pool, self.loc()),
            self.loc() != NONE_OFF && strong_of(pool.image(), self.loc()) > 0 ==> weak_of(pool.image(), self.loc()) >= 1,
        ensures
            r == (if self.loc() == NONE_OFF {
                None
            } else if strong_of(pool.image(), self.loc()) > 0 {
                Some((weak_of(pool.image(), self.loc()) - 1) as u64)
            } else {
                Some(weak_of(pool.image(), self.loc()))
            }),
    {
        if self.off == NONE_OFF {
            return None;
        }
        proof {
            pool.lemma_image_bound();
        }
        let w = pool.read_u64(self.off + 8);
        if pool.read_u64(self.off) > 0 {
            Some(w - 1)
        } else {
            Some(w)
        }
    }

    /// Whether both point to the same box.
    pub fn ptr_eq(&self, other: &Weak) -> (r: bool)
        ensures
            r == (self.loc() == other.loc()),
    {
        self.off == other.off
    }

    /// Gives up the pointer, returning the offset of the box's value, or
    /// the null offset when dangling.
    pub fn into_raw(self) -> (r: u64)
        requires
            self.loc() != NONE_OFF ==> self.loc() + 24 <= u64::MAX,
        ensures
            r == (if self.loc() == NONE_OFF {
                NONE_OFF
            } else {
                (self.loc() + 24) as u64
            }),
    {
        if self.off == NONE_OFF {
            NONE_OFF
        } else {
            self.off + 24
        }
    }
}

impl VWeak {
    /// Offset of the box, or the null offset.
    pub closed spec fn loc(&self) -> u64 {
        self.off
    }

    /// Its entry in the volatile pointer list.
    pub closed spec fn slot(&self) -> usize {
        self.slot
    }

    /// The pool generation that made it.
    pub closed spec fn generation(&self) -> u32 {
        self.gen
    }

    /// It still points to its box in pool generation `gen` with list `l`.
    pub open spec fn live(&self, l: Seq<(u64, bool)>, gen: u32) -> bool {
        self.generation() == gen && live_slot(l, self.slot())
    }

    /// A volatile pointer to no box.
    pub fn null() -> (r: VWeak)
        ensures
            r.loc() == NONE_OFF,
            r.slot() == usize::MAX,
            r.generation() == u32::MAX,
    {
        VWeak { off: NONE_OFF, slot: usize::MAX, gen: u32::MAX }
    }

    /// A strong pointer to the box when this pointer is still valid in pool
    /// generation `gen` and the box's value is still there (strong count
    /// above 0), the strong count going up by one, transactionally;
    /// otherwise `None` and nothing changes.
    pub fn promote(&self, pool: &mut BuddyPool, journal: &mut Journal, vlist: &VWeakList, gen: u32) -> (r: Option<Prc>)
        requires
            old(pool).inv(),
            self.live(vlist@, gen) ==> box_ok(*old(pool), self.loc()) && strong_of(old(pool).image(), self.loc()) < u64::MAX,
            old(journal).records().len() < usize::MAX,
        ensures
            final(pool).inv(),
            (!self.live(vlist@, gen) || strong_of(old(pool).image(), self.loc()) == 0) ==> {
                &&& r is None
                &&& *final(pool) == *old(pool)
                &&& *final(journal) == *old(journal)
            },
            (self.live(vlist@, gen) && strong_of(old(pool).image(), self.loc()) != 0) ==> {
                &&& r matches Some(p) && p.loc() == self.loc()
                &&& final(pool).image() == counted(old(pool).image(), self.loc(), 0)
                &&& strong_of(final(pool).image(), self.loc()) == strong_of(old(pool).image(), self.loc()) + 1
                &&& weak_of(final(pool).image(), self.loc()) == weak_of(old(pool).image(), self.loc())
                &&& value_of(final(pool).image(), self.loc()) == value_of(old(pool).image(), self.loc())
                &&& final(pool).zone_list() == old(pool).zone_list()
                &&& logged(*old(journal), *final(journal), old(pool).image(), self.loc(), 16, (self.loc() + 16) as u64)
            },
            logs_live(old(journal).records(), old(journal).copies(), old(pool).image().len() as int, old(pool).zone_list())
                ==> logs_live(final(journal).records(), final(journal).copies(), final(pool).image().len() as int, final(pool).zone_list()),
    {
        if self.gen != gen || !vlist.is_valid(self.slot) {
            return None;
        }
        proof {
            pool.lemma_image_bound();
        }
        if pool.read_u64(self.off) == 0 {
            return None;
        }
        inc_count(pool, journal, self.off, 0);
        Some(Prc { off: self.off })
    }

    /// Another volatile pointer to the same box: a new valid entry of the
    /// list when this one is still valid in pool generation `gen`, or else a
    /// copy of this one.
    pub fn clone(&self, vlist: &mut VWeakList, gen: u32) -> (r: VWeak)
        requires
            old(vlist)@.len() < usize::MAX,
        ensures
            r.loc() == self.loc(),
            r.generation() == self.generation(),
            self.live(old(vlist)@, gen) ==> r.slot() == old(vlist)@.len() && final(vlist)@ == old(vlist)@.push(
                (self.loc(), true),
            ),
            !self.live(old(vlist)@, gen) ==> r.slot() == self.slot() && final(vlist)@ == old(vlist)@,
    {
        if self.gen == gen && vlist.is_valid(self.slot) {
            let slot = vlist.append(self.off);
            VWeak { off: self.off, slot, gen: self.gen }
        } else {
            VWeak { off: self.off, slot: self.slot, gen: self.gen }
        }
    }

    /// Drops this volatile pointer: when it is valid in pool generation
    /// `gen`, its entry leaves the list.
    pub fn drop(self, vlist: &mut VWeakList, gen: u32)
        ensures
            self.live(old(vlist)@, gen) ==> final(vlist)@ == old(vlist)@.update(
                self.slot() as int,
                (old(vlist)@[self.slot() as int].0, false),
            ),
            !self.live(old(vlist)@, gen) ==> final(vlist)@ == old(vlist)@,
    {
        if self.gen == gen && vlist.is_valid(self.slot) {
            vlist.release(self.slot);
        }
    }
}

/// Counting: a strong count step adds one to the strong count and keeps
/// the weak count and the value; a weak count step adds one to the weak
/// count and keeps the strong count and the value. Both raise the counters'
/// log flag.
pub proof fn lemma_counted(s: Seq<u8>, b: u64, at: int)
    requires
        b + 32 <= s.len(),
        s.len() <= u64::MAX,
        at == 0 || at == 8,
        rd(s, b + at) < u64::MAX,
    ensures
        at == 0 ==> strong_of(counted(s, b, at), b) == strong_of(s, b) + 1,
        at == 0 ==> weak_of(counted(s, b, at), b) == weak_of(s, b),
        at == 8 ==> weak_of(counted(s, b, at), b) == weak_of(s, b) + 1,
        at == 8 ==> strong_of(counted(s, b, at), b) == strong_of(s, b),
        value_of(counted(s, b, at), b) == value_of(s, b),
        counted(s, b, at)[b + 16] != 0,
        counted(s, b, at).len() == s.len(),
{
    let r = raised(s, (b + 16) as u64);
    if s[b + 16] == 0 {
        lemma_rd_update_other(s, b as int, b + 16, 1);
        lemma_rd_update_other(s, b + 8, b + 16, 1);
        lemma_rd_update_other(s, b + 24, b + 16, 1);
    }
    lemma_wr(r, b + at, (rd(s, b + at) + 1) as u64);
    if at == 0 {
        lemma_rd_wr_other(r, b as int, (rd(s, b as int) + 1) as u64, b + 8);
    } else {
        lemma_rd_wr_other(r, b + 8, (rd(s, b + 8) + 1) as u64, b as int);
    }
    lemma_rd_wr_other(r, b + at, (rd(s, b + at) + 1) as u64, b + 24);
}

impl Prc {
    /// Stores, in the word at `slot` that holds the null offset for "no
    /// pointer", a pointer to a new box holding `value` with one strong
    /// pointer, outside any transaction: the block's allocation, the box and
    /// the store into `slot` take effect together. An error, with nothing
    /// changed, when `slot` lies outside the pool, when it already holds a
    /// pointer, or when no zone has room.
    pub fn initialize(slot: u64, value: u64, pool: &mut BuddyPool, cpu: usize) -> (r: Result<(), String>)
        requires
            old(pool).inv(),
            slot + 8 <= old(pool).image().len() ==> range_live(slot as int, 8, old(pool).zone_list()),
        ensures
            final(pool).inv(),
            crate::vec::kept_outside(*old(pool), *final(pool), slot as int, 8),
            r is Ok == (slot + 8 <= old(pool).image().len() && rd(old(pool).image(), slot as int) == NONE_OFF
                && !forall|y: int|
                0 <= y < old(pool).zone_total() ==> alloc_fails(#[trigger] old(pool).zone_list()[y], 32)),
            r is Err ==> final(pool).image() == old(pool).image(),
            r is Ok ==> {
                let b = rd(final(pool).image(), slot as int);
                &&& b != NONE_OFF
                &&& box_ok(*final(pool), b)
                &&& forall|p: int| #[trigger] range_live(p, 1, old(pool).zone_list()) ==> !(b <= p < b + 32)
                &&& strong_of(final(pool).image(), b) == 1
                &&& weak_of(final(pool).image(), b) == 1
                &&& rd(final(pool).image(), b + 16) == 0
                &&& value_of(final(pool).image(), b) == value
            },
    {
        proof {
            pool.lemma_image_bound();
        }
        let len = pool.image_len() as u64;
        if slot >= len || len - slot < 8 {
            return Err("The object is not in the PM".to_owned());
        }
        if pool.read_u64(slot) != NONE_OFF {
            return Err("already initialized".to_owned());
        }
        let words: [u64; 4] = [1, 1, 0, value];
        let b = crate::boxed::publish(pool, slot, &words, cpu);
        if b == NONE_OFF {
            return Err("out of memory".to_owned());
        }
        proof {
            assert(rd(pool.image(), b + 8 * 0) == words@[0]);
            assert(rd(pool.image(), b + 8 * 1) == words@[1]);
            assert(rd(pool.image(), b + 8 * 2) == words@[2]);
            assert(rd(pool.image(), b + 8 * 3) == words@[3]);
        }
        Ok(())
    }
}

/// Image `s` after taking one from the counter at `b + at` of the box at
/// `b`, with the counters' log flag raised.
pub open spec fn uncounted(s: Seq<u8>, b: u64, at: int) -> Seq<u8> {
    wr(raised(s, (b + 16) as u64), b + at, (rd(s, b + at) - 1) as u64)
}

/// Takes one from the counter at `b + at`, copying both counters into the
/// journal first when the transaction has no copy.
fn dec_count(pool: &mut BuddyPool, journal: &mut Journal, b: u64, at: u64)
    requires
        old(pool).inv(),
        box_ok(*old(pool), b),
        at == 0 || at == 8,
        rd(old(pool).image(), b + at) >= 1,
        old(journal).records().len() < usize::MAX,
    ensures
        final(pool).inv(),
        final(pool).image() == uncounted(old(pool).image(), b, at as int),
        final(pool).zone_list() == old(pool).zone_list(),
        final(pool).zone_total() == old(pool).zone_total(),
        final(pool).zone_quota() == old(pool).zone_quota(),
        final(pool).pool_size() == old(pool).pool_size(),
        logged(*old(journal), *final(journal), old(pool).image(), b, 16, (b + 16) as u64),
        logs_live(old(journal).records(), old(journal).copies(), old(pool).image().len() as int, old(pool).zone_list())
            ==> logs_live(final(journal).records(), final(journal).copies(), final(pool).image().len() as int, final(pool).zone_list()),
{
    proof {
        pool.lemma_image_bound();
        lemma_live_sub(b as int, 32, b as int, 16, pool.zone_list());
        lemma_live_sub(b as int, 32, b + 16, 1, pool.zone_list());
        lemma_live_sub(b as int, 32, b + at, 8, pool.zone_list());
    }
    let ghost s0 = pool.image();
    log_range(pool, journal, b, 16, b + 16);
    let ghost s1 = pool.image();
    proof {
        if s0[b + 16] == 0 {
            lemma_rd_update_other(s0, b + at, b + 16, 1);
        }
        lemma_wr(s1, b + at, (rd(s0, b + at) - 1) as u64);
    }
    let c = pool.read_u64(b + at);
    pool.write_u64(b + at, c - 1);
}

/// Uncounting keeps the log flag raised and the other counter.
pub proof fn lemma_uncounted(s: Seq<u8>, b: u64, at: int)
    requires
        b + 32 <= s.len(),
        s.len() <= u64::MAX,
        at == 0 || at == 8,
        rd(s, b + at) >= 1,
    ensures
        uncounted(s, b, at)[b + 16] != 0,
        uncounted(s, b, at).len() == s.len(),
        at == 0 ==> strong_of(uncounted(s, b, at), b) == strong_of(s, b) - 1,
        at == 0 ==> weak_of(uncounted(s, b, at), b) == weak_of(s, b),
        at == 8 ==> weak_of(uncounted(s, b, at), b) == weak_of(s, b) - 1,
        at == 8 ==> strong_of(uncounted(s, b, at), b) == strong_of(s, b),
        value_of(uncounted(s, b, at), b) == value_of(s, b),
{
    let r = raised(s, (b + 16) as u64);
    if s[b + 16] == 0 {
        lemma_rd_update_other(s, b as int, b + 16, 1);
        lemma_rd_update_other(s, b + 8, b + 16, 1);
        lemma_rd_update_other(s, b + 24, b + 16, 1);
    }
    lemma_wr(r, b + at, (rd(s, b + at) - 1) as u64);
    lemma_rd_wr_other(r, b + at, (rd(s, b + at) - 1) as u64, b + 24);
    if at == 0 {
        lemma_rd_wr_other(r, b as int, (rd(s, b as int) - 1) as u64, b + 8);
    } else {
        lemma_rd_wr_other(r, b + 8, (rd(s, b + 8) - 1) as u64, b as int);
    }
}

/// The image after dropping a strong pointer of the box at `b`: the strong
/// count goes down and, when it reaches 0, the weak count too.
pub open spec fn prc_dropped(s: Seq<u8>, b: u64) -> Seq<u8> {
    let s1 = uncounted(s, b, 0);
    if strong_of(s1, b) == 0 {
        uncounted(s1, b, 8)
    } else {
        s1
    }
}

/// Dropping a strong pointer takes one from the strong count; when that was
/// the last strong pointer, it also takes one from the weak count, which the
/// strong pointers hold together. The value stays.
pub proof fn lemma_prc_drop_counts(s: Seq<u8>, b: u64)
    requires
        b + 32 <= s.len(),
        s.len() <= u64::MAX,
        strong_of(s, b) >= 1,
        strong_of(s, b) == 1 ==> weak_of(s, b) >= 1,
    ensures
        prc_dropped(s, b).len() == s.len(),
        strong_of(prc_dropped(s, b), b) == strong_of(s, b) - 1,
        weak_of(prc_dropped(s, b), b) == if strong_of(s, b) == 1 {
            weak_of(s, b) - 1
        } else {
            weak_of(s, b) as int
        },
        value_of(prc_dropped(s, b), b) == value_of(s, b),
{
    lemma_uncounted(s, b, 0);
    let s1 = uncounted(s, b, 0);
    if strong_of(s1, b) == 0 {
        lemma_uncounted(s1, b, 8);
    }
}

/// A box with one strong pointer and one weak pointer has a weak count of
/// 2; dropping the strong pointer and then the weak one takes both counts
/// to 0, the state in which the weak drop frees the box.
pub proof fn lemma_last_pointers_release(s: Seq<u8>, b: u64)
    requires
        b + 32 <= s.len(),
        s.len() <= u64::MAX,
        strong_of(s, b) == 1,
        weak_of(s, b) == 2,
    ensures
        weak_of(prc_dropped(s, b), b) == 1,
        strong_of(uncounted(prc_dropped(s, b), b, 8), b) == 0,
        weak_of(uncounted(prc_dropped(s, b), b, 8), b) == 0,
{
    lemma_prc_drop_counts(s, b);
    lemma_uncounted(prc_dropped(s, b), b, 8);
}

impl Prc {
    /// Drops this strong pointer: the strong count goes down by one,
    /// transactionally; when it reaches 0 the weak count shared by the strong
    /// pointers goes down too, and when that reaches 0 the box's block is
    /// freed when the transaction commits and its volatile pointers are
    /// invalidated.
    pub fn drop(self, pool: &mut BuddyPool, journal: &mut Journal, vlist: &mut VWeakList)
        requires
            old(pool).inv(),
            box_ok(*old(pool), self.loc()),
            strong_of(old(pool).image(), self.loc()) >= 1,
            strong_of(old(pool).image(), self.loc()) == 1 ==> weak_of(old(pool).image(), self.loc()) >= 1,
            old(journal).records().len() + 1 < usize::MAX,
        ensures
            final(pool).inv(),
            final(pool).image() == prc_dropped(old(pool).image(), self.loc()),
            final(pool).image().len() == old(pool).image().len(),
            strong_of(final(pool).image(), self.loc()) == strong_of(old(pool).image(), self.loc()) - 1,
            weak_of(final(pool).image(), self.loc()) == if strong_of(old(pool).image(), self.loc()) == 1 {
                weak_of(old(pool).image(), self.loc()) - 1
            } else {
                weak_of(old(pool).image(), self.loc()) as int
            },
            value_of(final(pool).image(), self.loc()) == value_of(old(pool).image(), self.loc()),
            (strong_of(final(pool).image(), self.loc()) == 0 && weak_of(final(pool).image(), self.loc()) == 0)
                ==> final(journal).records().last() == Log(LogEnum::DropOnCommit(self.loc(), 32), Notifier::Empty),
            final(pool).zone_list() == old(pool).zone_list(),
            final(pool).zone_total() == old(pool).zone_total(),
            final(pool).zone_quota() == old(pool).zone_quota(),
            final(pool).pool_size() == old(pool).pool_size(),
            final(journal).copies() == logged_copies(*old(journal), old(pool).image(), self.loc(), 16, (self.loc() + 16) as u64),
            final(journal).flag_word() == old(journal).flag_word(),
            final(journal).nesting() == old(journal).nesting(),
            final(vlist)@ == if strong_of(old(pool).image(), self.loc()) == 1 && weak_of(old(pool).image(), self.loc()) == 1 {
                invalidated(old(vlist)@, self.loc())
            } else {
                old(vlist)@
            },
            final(journal).records() == if strong_of(old(pool).image(), self.loc()) == 1 && weak_of(old(pool).image(), self.loc()) == 1 {
                logged_records(*old(journal), old(pool).image(), self.loc(), 16, (self.loc() + 16) as u64).push(
                    Log(LogEnum::DropOnCommit(self.loc(), 32), Notifier::Empty),
                )
            } else {
                logged_records(*old(journal), old(pool).image(), self.loc(), 16, (self.loc() + 16) as u64)
            },
            logs_live(old(journal).records(), old(journal).copies(), old(pool).image().len() as int, old(pool).zone_list())
                ==> logs_live(final(journal).records(), final(journal).copies(), final(pool).image().len() as int, final(pool).zone_list()),
    {
        let b = self.off;
        let ghost s0 = pool.image();
        proof {
            pool.lemma_image_bound();
            lemma_uncounted(s0, b, 0);
        }
        dec_count(pool, journal, b, 0);
        let ghost j1 = *journal;
        let ghost s1 = pool.image();
        proof {
            pool.lemma_image_bound();
        }
        if pool.read_u64(b) == 0 {
            proof {
                lemma_uncounted(s1, b, 8);
            }
            dec_count(pool, journal, b, 8);
            proof {
                assert(s1[b + 16] != 0);
                pool.lemma_image_bound();
            }
            if pool.read_u64(b + 8) == 0 {
                let _ = Log::drop_on_commit(b, 32, journal);
                vlist.invalidate(b);
            }
        }
    }
}

impl Weak {
    /// Drops this weak pointer, if not dangling: the weak count goes down by
    /// one, transactionally, and when it reaches 0 the box's block is freed
    /// when the transaction commits and its volatile pointers are
    /// invalidated.
    pub fn drop(self, pool: &mut BuddyPool, journal: &mut Journal, vlist: &mut VWeakList)
        requires
            old(pool).inv(),
            self.loc() != NONE_OFF ==> box_ok(*old(pool), self.loc()) && weak_of(old(pool).image(), self.loc()) >= 1,
            old(journal).records().len() + 1 < usize::MAX,
        ensures
            final(pool).inv(),
            self.loc() == NONE_OFF ==> *final(pool) == *old(pool) && *final(journal) == *old(journal) && final(vlist)@ == old(
                vlist,
            )@,
            self.loc() != NONE_OFF ==> {
                &&& final(vlist)@ == if weak_of(old(pool).image(), self.loc()) == 1 {
                    invalidated(old(vlist)@, self.loc())
                } else {
                    old(vlist)@
                }
                &&& final(pool).image() == uncounted(old(pool).image(), self.loc(), 8)
                &&& final(pool).image().len() == old(pool).image().len()
                &&& strong_of(final(pool).image(), self.loc()) == strong_of(old(pool).image(), self.loc())
                &&& weak_of(final(pool).image(), self.loc()) == weak_of(old(pool).image(), self.loc()) - 1
                &&& value_of(final(pool).image(), self.loc()) == value_of(old(pool).image(), self.loc())
                &&& weak_of(final(pool).image(), self.loc()) == 0 ==> final(journal).records().last() == Log(
                    LogEnum::DropOnCommit(self.loc(), 32),
                    Notifier::Empty,
                )
                &&& final(pool).zone_list() == old(pool).zone_list()
                &&& final(journal).copies() == logged_copies(*old(journal), old(pool).image(), self.loc(), 16, (self.loc() + 16) as u64)
                &&& final(journal).records() == if weak_of(old(pool).image(), self.loc()) == 1 {
                    logged_records(*old(journal), old(pool).image(), self.loc(), 16, (self.loc() + 16) as u64).push(
                        Log(LogEnum::DropOnCommit(self.loc(), 32), Notifier::Empty),
                    )
                } else {
                    logged_records(*old(journal), old(pool).image(), self.loc(), 16, (self.loc() + 16) as u64)
                }
            },
            logs_live(old(journal).records(), old(journal).copies(), old(pool).image().len() as int, old(pool).zone_list())
                ==> logs_live(final(journal).records(), final(journal).copies(), final(pool).image().len() as int, final(pool).zone_list()),
    {
        if self.off == NONE_OFF {
            return;
        }
        let b = self.off;
        proof {
            pool.lemma_image_bound();
            lemma_uncounted(pool.image(), b, 8);
        }
        let ghost s0 = pool.image();
        dec_count(pool, journal, b, 8);
        let ghost j1 = *journal;
        proof {
            pool.lemma_image_bound();
        }
        if pool.read_u64(b + 8) == 0 {
            let _ = Log::drop_on_commit(b, 32, journal);
            vlist.invalidate(b);
        }
    }
}

} // verus!
