//! Persistent cells. A cell is a word of the pool with a flag byte that tells
//! whether the running transaction already keeps a copy of it: the flag byte
//! is at the cell's offset and the word eight bytes after it. Before the
//! first change in a transaction, the word is copied into the journal and the
//! flag raised, so that a rollback can put the word back.

use vstd::prelude::*;
use crate::pmem::{NONE_OFF, rd, wr, lemma_wr};
use crate::pool::{BuddyPool, range_live, alloc_fails, zone_dead, live_byte};
use crate::buddy::{BuddyAlg, is_free};
use crate::stm::{Journal, Log, LogEnum, Notifier, logs_live, flag_live};

verus! {

/// Pool `b` keeps what pool `a` holds: the same geometry, and every live
/// range of `a` still live in `b`, with the same bytes.
pub open spec fn kept(a: BuddyPool, b: BuddyPool) -> bool {
    &&& b.inv()
    &&& b.image().len() == a.image().len()
    &&& b.zone_total() == a.zone_total()
    &&& b.zone_quota() == a.zone_quota()
    &&& b.pool_size() == a.pool_size()
    &&& forall|o: int, n: int| #[trigger] range_live(o, n, a.zone_list()) ==> range_live(o, n, b.zone_list())
    &&& forall|p: int| 0 <= p < a.image().len() && range_live(p, 1, a.zone_list()) ==> #[trigger] b.image()[p] == a.image()[p]
}

/// A part of a live range is live.
pub proof fn lemma_live_sub(o: int, n: int, p: int, m: int, zs: Seq<BuddyAlg>)
    requires
        range_live(o, n, zs),
        o <= p,
        p + m <= o + n,
    ensures
        range_live(p, m, zs),
{
    assert forall|y: int, q: int| 0 <= y < zs.len() && p <= q < p + m implies !#[trigger] zone_dead(zs[y], q) by {}
}

/// Writing only bytes outside the live ranges of `a` keeps what `a` holds.
pub proof fn lemma_kept_write(a: BuddyPool, b: BuddyPool, c: BuddyPool, off: int, len: int)
    requires
        kept(a, b),
        c.inv(),
        c.zone_list() == b.zone_list(),
        c.image().len() == b.image().len(),
        c.zone_total() == b.zone_total(),
        c.zone_quota() == b.zone_quota(),
        c.pool_size() == b.pool_size(),
        forall|p: int| 0 <= p < b.image().len() && !(off <= p < off + len) ==> #[trigger] c.image()[p] == b.image()[p],
        forall|p: int| #[trigger] range_live(p, 1, a.zone_list()) ==> !(off <= p < off + len),
    ensures
        kept(a, c),
{
    assert forall|p: int| 0 <= p < a.image().len() && range_live(p, 1, a.zone_list()) implies #[trigger] c.image()[p] == a.image()[p] by {
        assert(b.image()[p] == a.image()[p]);
        assert(c.image()[p] == b.image()[p]);
    }
}

/// Allocates a block for `len` bytes, in turn from the zone of the journal's
/// processor, and records that the block is freed if the transaction fails.
/// Returns the block's offset, or the null offset when every zone fails.
pub fn new_block(pool: &mut BuddyPool, journal: &mut Journal, len: usize) -> (r: u64)
    requires
        old(pool).inv(),
        0 < len <= 0x8000_0000_0000_0000u64,
        old(journal).records().len() < usize::MAX,
    ensures
        kept(*old(pool), *final(pool)),
        final(journal).flag_word() == old(journal).flag_word(),
        final(journal).home() == old(journal).home(),
        final(journal).nesting() == old(journal).nesting(),
        final(journal).copies() == old(journal).copies(),
        (r == NONE_OFF) == (forall|y: int|
            0 <= y < old(pool).zone_total() ==> alloc_fails(#[trigger] old(pool).zone_list()[y], len as int)),
        r == NONE_OFF ==> final(journal).records() == old(journal).records(),
        r != NONE_OFF ==> {
            &&& r + len <= final(pool).image().len()
            &&& range_live(r as int, len as int, final(pool).zone_list())
            &&& len <= crate::buddy::blk(crate::buddy::order_for(len as int))
            &&& r + crate::buddy::blk(crate::buddy::order_for(len as int)) <= final(pool).image().len()
            &&& range_live(r as int, crate::buddy::blk(crate::buddy::order_for(len as int)), final(pool).zone_list())
            &&& forall|p: int| #[trigger] range_live(p, 1, old(pool).zone_list()) ==> !(r <= p < r + len)
            &&& final(journal).records() == old(journal).records().push(
                Log(LogEnum::DropOnFailure(r, len), Notifier::Empty),
            )
        },
{
    let ghost p0 = *pool;
    let cpu = journal.cpu();
    let (off, _l) = pool.allocate(len, cpu);
    proof {
        p0.lemma_idle();
        pool.lemma_idle();
        assert forall|y: int, p: int|
            0 <= y < p0.zone_total() && #[trigger] is_free(pool.zone_list()[y].free_lists(), p) implies is_free(
                p0.zone_list()[y].free_lists(),
                p,
            ) by {
            if off != NONE_OFF {
                let z = (off / (p0.zone_quota() as u64)) as int;
                if y != z {
                    assert(pool.zone_list()[y].free_lists() == p0.zone_list()[y].free_lists());
                }
            } else {
                assert(pool.zone_list()[y].free_lists() == p0.zone_list()[y].free_lists());
            }
        }
        p0.lemma_live_kept(pool);
        assert forall|p: int| 0 <= p < p0.image().len() && range_live(p, 1, p0.zone_list()) implies #[trigger] pool.image()[p]
            == p0.image()[p] by {
            assert(range_live(p, 1, pool.zone_list()));
            assert forall|y: int| 0 <= y < p0.zone_list().len() implies !(p0.zone_list()[y].meta_off() <= p < p0.zone_list()[y].meta_off()
                + 512) && !is_free((#[trigger] p0.zone_list()[y]).free_lists(), p) by {
                assert(!zone_dead(p0.zone_list()[y], p));
            }
            assert forall|y: int| 0 <= y < pool.zone_list().len() implies !(pool.zone_list()[y].meta_off() <= p < pool.zone_list()[y].meta_off()
                + 512) && !is_free((#[trigger] pool.zone_list()[y]).free_lists(), p) by {
                assert(!zone_dead(pool.zone_list()[y], p));
            }
            assert(live_byte(p0.zone_list(), p));
            assert(live_byte(pool.zone_list(), p));
        }
        if off != NONE_OFF {
            let z = (off / (p0.zone_quota() as u64)) as int;
            assert forall|p: int| #[trigger] range_live(p, 1, p0.zone_list()) implies !(off <= p < off + len) by {
                if off <= p < off + len {
                    let k = crate::buddy::order_for(len as int);
                    assert(is_free(p0.zone_list()[z].free_lists(), p));
                    assert(!zone_dead(p0.zone_list()[z], p));
                }
            }
            lemma_live_sub(off as int, crate::buddy::blk(crate::buddy::order_for(len as int)), off as int, len as int, pool.zone_list());
        }
    }
    if off == NONE_OFF {
        return NONE_OFF;
    }
    Log::drop_on_failure(off, len, journal);
    off
}

/// Image `s` with the flag byte at `flag` raised, unless it is.
pub open spec fn raised(s: Seq<u8>, flag: u64) -> Seq<u8> {
    if s[flag as int] == 0 {
        s.update(flag as int, 1)
    } else {
        s
    }
}

/// The records of journal `j0` after taking a copy of the `len` bytes at
/// `src` of image `s`, guarded by the flag byte at `flag`: one more record
/// when the flag byte is 0.
pub open spec fn logged_records(j0: Journal, s: Seq<u8>, src: u64, len: int, flag: u64) -> Seq<Log> {
    if s[flag as int] == 0 {
        j0.records().push(Log(LogEnum::DataLog(src, j0.copies().len() as u64, len as usize), Notifier::NonAtomic(flag)))
    } else {
        j0.records()
    }
}

/// The copies of journal `j0` after taking a copy of the `len` bytes at
/// `src` of image `s`, guarded by the flag byte at `flag`.
pub open spec fn logged_copies(j0: Journal, s: Seq<u8>, src: u64, len: int, flag: u64) -> Seq<Seq<u8>> {
    if s[flag as int] == 0 {
        j0.copies().push(s.subrange(src as int, src + len))
    } else {
        j0.copies()
    }
}

/// Journal `j1` is `j0` after taking a copy of the `len` bytes at `src` of
/// image `s`, guarded by the flag byte at `flag`: a record and a copy only
/// when the flag byte is 0.
pub open spec fn logged(j0: Journal, j1: Journal, s: Seq<u8>, src: u64, len: int, flag: u64) -> bool {
    &&& j1.flag_word() == j0.flag_word()
    &&& j1.home() == j0.home()
    &&& j1.nesting() == j0.nesting()
    &&& j1.records() == logged_records(j0, s, src, len, flag)
    &&& j1.copies() == logged_copies(j0, s, src, len, flag)
}

/// Takes a copy of the `len` bytes at `src` into the journal, unless the
/// flag byte at `flag` says the transaction keeps one, and raises the flag.
pub fn log_range(pool: &mut BuddyPool, journal: &mut Journal, src: u64, len: usize, flag: u64)
    requires
        old(pool).inv(),
        0 < len,
        src + len <= old(pool).image().len(),
        flag < old(pool).image().len(),
        range_live(src as int, len as int, old(pool).zone_list()),
        range_live(flag as int, 1, old(pool).zone_list()),
        old(journal).records().len() < usize::MAX,
    ensures
        final(pool).inv(),
        final(pool).image() == raised(old(pool).image(), flag),
        final(pool).zone_list() == old(pool).zone_list(),
        final(pool).zone_total() == old(pool).zone_total(),
        final(pool).zone_quota() == old(pool).zone_quota(),
        final(pool).pool_size() == old(pool).pool_size(),
        logged(*old(journal), *final(journal), old(pool).image(), src, len as int, flag),
        logs_live(old(journal).records(), old(journal).copies(), old(pool).image().len() as int, old(pool).zone_list())
            ==> logs_live(final(journal).records(), final(journal).copies(), final(pool).image().len() as int, final(pool).zone_list()),
{
    proof {
        pool.lemma_image_bound();
    }
    let f = pool.read_byte(flag);
    if f == 0 {
        let ghost j0 = *journal;
        let ghost s0 = pool.image();
        proof {
            journal.lemma_bounds();
        }
        let _ = Log::create(pool, journal, src, len, Notifier::NonAtomic(flag));
        proof {
            assert(pool.image() =~= raised(s0, flag));
            if logs_live(j0.records(), j0.copies(), s0.len() as int, pool.zone_list()) {
                assert forall|i: int| 0 <= i < journal.records().len() implies match (#[trigger] journal.records()[i]).0 {
                    LogEnum::DataLog(src, li, len) => src != NONE_OFF ==> {
                        &&& li < journal.copies().len()
                        &&& journal.copies()[li as int].len() == len
                        &&& src + len <= pool.image().len()
                        &&& range_live(src as int, len as int, pool.zone_list())
                        &&& flag_live(journal.records()[i].1, pool.image().len() as int, pool.zone_list())
                    },
                    _ => true,
                } by {
                    if i < j0.records().len() {
                        assert(journal.records()[i] == j0.records()[i]);
                        if let LogEnum::DataLog(src, li, len) = j0.records()[i].0 {
                            if src != NONE_OFF {
                                assert(journal.copies()[li as int] == j0.copies()[li as int]);
                            }
                        }
                    } else {
                        assert(journal.records()[i] == Log(LogEnum::DataLog(src, j0.copies().len() as u64, len), Notifier::NonAtomic(flag)));
                        assert(journal.copies()[j0.copies().len() as int] == s0.subrange(src as int, src + len));
                    }
                }
            }
        }
    }
}

/// The cell at `off` lies in live bytes of the pool.
pub open spec fn cell_ok(pool: BuddyPool, off: u64) -> bool {
    &&& off + 16 <= pool.image().len()
    &&& range_live(off as int, 16, pool.zone_list())
}

/// The word of the cell at `off` in image `s`.
pub open spec fn cell_value(s: Seq<u8>, off: u64) -> u64 {
    rd(s, off + 8)
}

/// Image `s` after storing `v` in the cell at `off` within a transaction:
/// the flag raised and the word replaced.
pub open spec fn cell_set(s: Seq<u8>, off: u64, v: u64) -> Seq<u8> {
    wr(raised(s, off), off + 8, v)
}

/// Journal `j1` is `j0` after the first change of the cell at `off` of image
/// `s` in this transaction, or `j0` itself after a later one.
pub open spec fn cell_logged(j0: Journal, j1: Journal, s: Seq<u8>, off: u64) -> bool {
    logged(j0, j1, s, (off + 8) as u64, 8, off)
}

/// Stores `v` in the cell at `off`, first copying the old word into the
/// journal when the transaction has no copy; returns the old word.
fn cell_replace(pool: &mut BuddyPool, journal: &mut Journal, off: u64, v: u64) -> (r: u64)
    requires
        old(pool).inv(),
        cell_ok(*old(pool), off),
        old(journal).records().len() < usize::MAX,
    ensures
        r == cell_value(old(pool).image(), off),
        final(pool).inv(),
        final(pool).image() == cell_set(old(pool).image(), off, v),
        final(pool).zone_list() == old(pool).zone_list(),
        final(pool).zone_total() == old(pool).zone_total(),
        final(pool).zone_quota() == old(pool).zone_quota(),
        final(pool).pool_size() == old(pool).pool_size(),
        cell_logged(*old(journal), *final(journal), old(pool).image(), off),
        logs_live(old(journal).records(), old(journal).copies(), old(pool).image().len() as int, old(pool).zone_list())
            ==> logs_live(final(journal).records(), final(journal).copies(), final(pool).image().len() as int, final(pool).zone_list()),
{
    proof {
        pool.lemma_image_bound();
        lemma_live_sub(off as int, 16, off as int + 8, 8, pool.zone_list());
        lemma_live_sub(off as int, 16, off as int, 1, pool.zone_list());
    }
    let ghost s0 = pool.image();
    log_range(pool, journal, off + 8, 8, off);
    let old_v = pool.read_u64(off + 8);
    let ghost s1 = pool.image();
    proof {
        assert(s1.subrange(off + 8, off + 16) =~= s0.subrange(off + 8, off + 16));
        lemma_wr(s1, off + 8, v);
    }
    pool.write_u64(off + 8, v);
    old_v
}

/// A persistent cell holding a word.
#[derive(Clone, Copy)]
pub struct LogCell {
    off: u64,
}

impl LogCell {
    /// Offset of the cell's flag byte; its word follows eight bytes later.
    pub closed spec fn loc(&self) -> u64 {
        self.off
    }

    /// A cell holding `value` in a new block of the pool, freed if the
    /// transaction fails; `None` when no zone has room for it.
    pub fn new(pool: &mut BuddyPool, journal: &mut Journal, value: u64) -> (r: Option<LogCell>)
        requires
            old(pool).inv(),
            old(journal).records().len() < usize::MAX,
        ensures
            kept(*old(pool), *final(pool)),
            final(journal).flag_word() == old(journal).flag_word(),
            final(journal).home() == old(journal).home(),
            final(journal).nesting() == old(journal).nesting(),
            final(journal).copies() == old(journal).copies(),
            r is None == (forall|y: int|
                0 <= y < old(pool).zone_total() ==> alloc_fails(#[trigger] old(pool).zone_list()[y], 16)),
            r is None ==> final(journal).records() == old(journal).records(),
            r matches Some(c) ==> {
                &&& cell_ok(*final(pool), c.loc())
                &&& final(pool).image()[c.loc() as int] == 0
                &&& cell_value(final(pool).image(), c.loc()) == value
                &&& forall|p: int| #[trigger] range_live(p, 1, old(pool).zone_list()) ==> !(c.loc() <= p < c.loc() + 16)
                &&& final(journal).records() == old(journal).records().push(
                    Log(LogEnum::DropOnFailure(c.loc(), 16), Notifier::Empty),
                )
            },
    {
        let off = new_block(pool, journal, 16);
        if off == NONE_OFF {
            return None;
        }
        let ghost p1 = *pool;
        proof {
            pool.lemma_image_bound();
            lemma_live_sub(off as int, 16, off as int, 1, pool.zone_list());
            lemma_live_sub(off as int, 16, off as int + 8, 8, pool.zone_list());
        }
        pool.write_byte(off, 0);
        pool.write_u64(off + 8, value);
        proof {
            lemma_wr(p1.image().update(off as int, 0), off + 8, value);
            assert forall|p: int| 0 <= p < p1.image().len() && !(off <= p < off + 16) implies #[trigger] pool.image()[p] == p1.image()[p] by {}
            lemma_kept_write(*old(pool), p1, *pool, off as int, 16);
        }
        Some(LogCell { off })
    }

    /// The word in the cell.
    pub fn get(&self, pool: &BuddyPool) -> (r: u64)
        requires
            pool.inv(),
            cell_ok(*pool, self.loc()),
        ensures
            r == cell_value(pool.image(), self.loc()),
    {
        proof {
            pool.lemma_image_bound();
        }
        pool.read_u64(self.off + 8)
    }

    /// Stores `val` in the cell, first copying the old word into the journal
    /// when the transaction has no copy of it.
    pub fn set(&self, pool: &mut BuddyPool, journal: &mut Journal, val: u64)
        requires
            old(pool).inv(),
            cell_ok(*old(pool), self.loc()),
            old(journal).records().len() < usize::MAX,
        ensures
            final(pool).inv(),
            final(pool).image() == cell_set(old(pool).image(), self.loc(), val),
            final(pool).zone_list() == old(pool).zone_list(),
            final(pool).zone_total() == old(pool).zone_total(),
            final(pool).zone_quota() == old(pool).zone_quota(),
            final(pool).pool_size() == old(pool).pool_size(),
            cell_logged(*old(journal), *final(journal), old(pool).image(), self.loc()),
            logs_live(old(journal).records(), old(journal).copies(), old(pool).image().len() as int, old(pool).zone_list())
                ==> logs_live(final(journal).records(), final(journal).copies(), final(pool).image().len() as int, final(pool).zone_list()),
    {
        let _ = cell_replace(pool, journal, self.off, val);
    }

    /// Stores `val` in the cell and returns the word it held, first copying
    /// the old word into the journal when the transaction has no copy of it.
    pub fn replace(&self, pool: &mut BuddyPool, journal: &mut Journal, val: u64) -> (r: u64)
        requires
            old(pool).inv(),
            cell_ok(*old(pool), self.loc()),
            old(journal).records().len() < usize::MAX,
        ensures
            r == cell_value(old(pool).image(), self.loc()),
            final(pool).inv(),
            final(pool).image() == cell_set(old(pool).image(), self.loc(), val),
            final(pool).zone_list() == old(pool).zone_list(),
            final(pool).zone_total() == old(pool).zone_total(),
            final(pool).zone_quota() == old(pool).zone_quota(),
            final(pool).pool_size() == old(pool).pool_size(),
            cell_logged(*old(journal), *final(journal), old(pool).image(), self.loc()),
            logs_live(old(journal).records(), old(journal).copies(), old(pool).image().len() as int, old(pool).zone_list())
                ==> logs_live(final(journal).records(), final(journal).copies(), final(pool).image().len() as int, final(pool).zone_list()),
    {
        cell_replace(pool, journal, self.off, val)
    }

    /// The word in the cell, the cell given up.
    pub fn into_inner(self, pool: &BuddyPool) -> (r: u64)
        requires
            pool.inv(),
            cell_ok(*pool, self.loc()),
        ensures
            r == cell_value(pool.image(), self.loc()),
    {
        proof {
            pool.lemma_image_bound();
        }
        pool.read_u64(self.off + 8)
    }
}

impl LogCell {
    /// Adds `val` to the word in the cell, copying it into the journal first when the transaction has no copy.
    pub fn add(&self, pool: &mut BuddyPool, journal: &mut Journal, val: u64)
        requires
            old(pool).inv(),
            cell_ok(*old(pool), self.loc()),
            old(journal).records().len() < usize::MAX,
            cell_value(old(pool).image(), self.loc()) + val <= u64::MAX,
        ensures
            final(pool).inv(),
            final(pool).zone_list() == old(pool).zone_list(),
            final(pool).zone_total() == old(pool).zone_total(),
            final(pool).zone_quota() == old(pool).zone_quota(),
            final(pool).pool_size() == old(pool).pool_size(),
            cell_logged(*old(journal), *final(journal), old(pool).image(), self.loc()),
            logs_live(old(journal).records(), old(journal).copies(), old(pool).image().len() as int, old(pool).zone_list())
                ==> logs_live(final(journal).records(), final(journal).copies(), final(pool).image().len() as int, final(pool).zone_list()),
            final(pool).image() == cell_set(old(pool).image(), self.loc(), (cell_value(old(pool).image(), self.loc()) + val) as u64),
    {
        proof {
            pool.lemma_image_bound();
        }
        let v = pool.read_u64(self.off + 8);
        let _ = cell_replace(pool, journal, self.off, v + val);
    }

    /// Subtracts `val` from the word in the cell, copying it into the journal first when the transaction has no copy.
    pub fn sub(&self, pool: &mut BuddyPool, journal: &mut Journal, val: u64)
        requires
            old(pool).inv(),
            cell_ok(*old(pool), self.loc()),
            old(journal).records().len() < usize::MAX,
            cell_value(old(pool).image(), self.loc()) >= val,
        ensures
            final(pool).inv(),
            final(pool).zone_list() == old(pool).zone_list(),
            final(pool).zone_total() == old(pool).zone_total(),
            final(pool).zone_quota() == old(pool).zone_quota(),
            final(pool).pool_size() == old(pool).pool_size(),
            cell_logged(*old(journal), *final(journal), old(pool).image(), self.loc()),
            logs_live(old(journal).records(), old(journal).copies(), old(pool).image().len() as int, old(pool).zone_list())
                ==> logs_live(final(journal).records(), final(journal).copies(), final(pool).image().len() as int, final(pool).zone_list()),
            final(pool).image() == cell_set(old(pool).image(), self.loc(), (cell_value(old(pool).image(), self.loc()) - val) as u64),
    {
        proof {
            pool.lemma_image_bound();
        }
        let v = pool.read_u64(self.off + 8);
        let _ = cell_replace(pool, journal, self.off, v - val);
    }

    /// Multiplies the word in the cell by `val`, copying it into the journal first when the transaction has no copy.
    pub fn mul(&self, pool: &mut BuddyPool, journal: &mut Journal, val: u64)
        requires
            old(pool).inv(),
            cell_ok(*old(pool), self.loc()),
            old(journal).records().len() < usize::MAX,
            cell_value(old(pool).image(), self.loc()) * val <= u64::MAX,
        ensures
            final(pool).inv(),
            final(pool).zone_list() == old(pool).zone_list(),
            final(pool).zone_total() == old(pool).zone_total(),
            final(pool).zone_quota() == old(pool).zone_quota(),
            final(pool).pool_size() == old(pool).pool_size(),
            cell_logged(*old(journal), *final(journal), old(pool).image(), self.loc()),
            logs_live(old(journal).records(), old(journal).copies(), old(pool).image().len() as int, old(pool).zone_list())
                ==> logs_live(final(journal).records(), final(journal).copies(), final(pool).image().len() as int, final(pool).zone_list()),
            final(pool).image() == cell_set(old(pool).image(), self.loc(), (cell_value(old(pool).image(), self.loc()) * val) as u64),
    {
        proof {
            pool.lemma_image_bound();
        }
        let v = pool.read_u64(self.off + 8);
        let _ = cell_replace(pool, journal, self.off, v * val);
    }

    /// Divides the word in the cell by `val`, copying it into the journal first when the transaction has no copy.
    pub fn div(&self, pool: &mut BuddyPool, journal: &mut Journal, val: u64)
        requires
            old(pool).inv(),
            cell_ok(*old(pool), self.loc()),
            old(journal).records().len() < usize::MAX,
            val != 0,
        ensures
            final(pool).inv(),
            final(pool).zone_list() == old(pool).zone_list(),
            final(pool).zone_total() == old(pool).zone_total(),
            final(pool).zone_quota() == old(pool).zone_quota(),
            final(pool).pool_size() == old(pool).pool_size(),
            cell_logged(*old(journal), *final(journal), old(pool).image(), self.loc()),
            logs_live(old(journal).records(), old(journal).copies(), old(pool).image().len() as int, old(pool).zone_list())
                ==> logs_live(final(journal).records(), final(journal).copies(), final(pool).image().len() as int, final(pool).zone_list()),
            final(pool).image() == cell_set(old(pool).image(), self.loc(), (cell_value(old(pool).image(), self.loc()) / val) as u64),
    {
        proof {
            pool.lemma_image_bound();
        }
        let v = pool.read_u64(self.off + 8);
        let _ = cell_replace(pool, journal, self.off, v / val);
    }

    /// Keeps the remainder of the word in the cell divided by `val`, copying it into the journal first when the transaction has no copy.
    pub fn rem(&self, pool: &mut BuddyPool, journal: &mut Journal, val: u64)
        requires
            old(pool).inv(),
            cell_ok(*old(pool), self.loc()),
            old(journal).records().len() < usize::MAX,
            val != 0,
        ensures
            final(pool).inv(),
            final(pool).zone_list() == old(pool).zone_list(),
            final(pool).zone_total() == old(pool).zone_total(),
            final(pool).zone_quota() == old(pool).zone_quota(),
            final(pool).pool_size() == old(pool).pool_size(),
            cell_logged(*old(journal), *final(journal), old(pool).image(), self.loc()),
            logs_live(old(journal).records(), old(journal).copies(), old(pool).image().len() as int, old(pool).zone_list())
                ==> logs_live(final(journal).records(), final(journal).copies(), final(pool).image().len() as int, final(pool).zone_list()),
            final(pool).image() == cell_set(old(pool).image(), self.loc(), (cell_value(old(pool).image(), self.loc()) % val) as u64),
    {
        proof {
            pool.lemma_image_bound();
        }
        let v = pool.read_u64(self.off + 8);
        let _ = cell_replace(pool, journal, self.off, v % val);
    }

    /// Stores `f` of the word in the cell, copying the old word into the
    /// journal first when the transaction has no copy; returns the new word.
    pub fn update<F: FnOnce(u64) -> u64>(&self, pool: &mut BuddyPool, journal: &mut Journal, f: F) -> (r: u64)
        requires
            old(pool).inv(),
            cell_ok(*old(pool), self.loc()),
            old(journal).records().len() < usize::MAX,
            f.requires((cell_value(old(pool).image(), self.loc()),)),
        ensures
            final(pool).inv(),
            final(pool).zone_list() == old(pool).zone_list(),
            final(pool).zone_total() == old(pool).zone_total(),
            final(pool).zone_quota() == old(pool).zone_quota(),
            final(pool).pool_size() == old(pool).pool_size(),
            cell_logged(*old(journal), *final(journal), old(pool).image(), self.loc()),
            logs_live(old(journal).records(), old(journal).copies(), old(pool).image().len() as int, old(pool).zone_list())
                ==> logs_live(final(journal).records(), final(journal).copies(), final(pool).image().len() as int, final(pool).zone_list()),
            f.ensures((cell_value(old(pool).image(), self.loc()),), r),
            final(pool).image() == cell_set(old(pool).image(), self.loc(), r),
    {
        proof {
            pool.lemma_image_bound();
        }
        let v = pool.read_u64(self.off + 8);
        let n = f(v);
        let _ = cell_replace(pool, journal, self.off, n);
        n
    }

    /// Hands the word in the cell to `f`, without changing the cell.
    pub fn update_inplace<F: FnOnce(u64)>(&self, pool: &BuddyPool, f: F)
        requires
            pool.inv(),
            cell_ok(*pool, self.loc()),
            f.requires((cell_value(pool.image(), self.loc()),)),
        ensures
            f.ensures((cell_value(pool.image(), self.loc()),), ()),
    {
        proof {
            pool.lemma_image_bound();
        }
        let v = pool.read_u64(self.off + 8);
        f(v)
    }

    /// Takes the word out of the cell, leaving 0, copying it into the
    /// journal first when the transaction has no copy.
    pub fn take(&self, pool: &mut BuddyPool, journal: &mut Journal) -> (r: u64)
        requires
            old(pool).inv(),
            cell_ok(*old(pool), self.loc()),
            old(journal).records().len() < usize::MAX,
        ensures
            r == cell_value(old(pool).image(), self.loc()),
            final(pool).inv(),
            final(pool).zone_list() == old(pool).zone_list(),
            final(pool).zone_total() == old(pool).zone_total(),
            final(pool).zone_quota() == old(pool).zone_quota(),
            final(pool).pool_size() == old(pool).pool_size(),
            cell_logged(*old(journal), *final(journal), old(pool).image(), self.loc()),
            logs_live(old(journal).records(), old(journal).copies(), old(pool).image().len() as int, old(pool).zone_list())
                ==> logs_live(final(journal).records(), final(journal).copies(), final(pool).image().len() as int, final(pool).zone_list()),
            final(pool).image() == cell_set(old(pool).image(), self.loc(), 0),
    {
        cell_replace(pool, journal, self.off, 0)
    }

    /// Swaps the words of two cells, copying each into the journal first
    /// when the transaction has no copy; nothing happens when both are the
    /// same cell.
    pub fn swap(&self, other: &LogCell, pool: &mut BuddyPool, journal: &mut Journal)
        requires
            old(pool).inv(),
            cell_ok(*old(pool), self.loc()),
            cell_ok(*old(pool), other.loc()),
            self.loc() == other.loc() || self.loc() + 16 <= other.loc() || other.loc() + 16 <= self.loc(),
            old(journal).records().len() + 1 < usize::MAX,
        ensures
            final(pool).inv(),
            final(pool).zone_list() == old(pool).zone_list(),
            final(pool).zone_total() == old(pool).zone_total(),
            final(pool).zone_quota() == old(pool).zone_quota(),
            final(pool).pool_size() == old(pool).pool_size(),
            self.loc() == other.loc() ==> *final(pool) == *old(pool) && *final(journal) == *old(journal),
            self.loc() != other.loc() ==> {
                let s = old(pool).image();
                let s1 = cell_set(s, self.loc(), cell_value(s, other.loc()));
                &&& final(pool).image() == cell_set(s1, other.loc(), cell_value(s, self.loc()))
                &&& exists|j: Journal| cell_logged(*old(journal), j, s, self.loc()) && cell_logged(j, *final(journal), s1, other.loc())
            },
            logs_live(old(journal).records(), old(journal).copies(), old(pool).image().len() as int, old(pool).zone_list())
                ==> logs_live(final(journal).records(), final(journal).copies(), final(pool).image().len() as int, final(pool).zone_list()),
    {
        if self.off == other.off {
            return;
        }
        proof {
            pool.lemma_image_bound();
        }
        let ghost s = pool.image();
        let vb = pool.read_u64(other.off + 8);
        let va = cell_replace(pool, journal, self.off, vb);
        let ghost j1 = *journal;
        let ghost s1 = pool.image();
        proof {
            lemma_wr(raised(s, self.off), self.off + 8, vb);
        }
        let _ = cell_replace(pool, journal, other.off, va);
        proof {
            assert(cell_logged(*old(journal), j1, s, self.off));
        }
    }
}

/// A persistent cell holding a word, read and replaced as a whole, with its
/// borrows checked dynamically: its volatile borrow state is 0 when not
/// borrowed, `-n` with `n` shared views alive, and 1 with a changing view
/// alive.
pub struct PRefCell {
    off: u64,
    borrow: i8,
}

/// A shared view of the word of a `PRefCell`.
pub struct Ref {
    off: u64,
}

/// A view of the word of a `PRefCell` through which it is changed.
pub struct RefMut {
    off: u64,
}

impl PRefCell {
    /// Offset of the cell's flag byte; its word follows eight bytes later.
    pub closed spec fn loc(&self) -> u64 {
        self.off
    }

    /// The borrow state: 0 when not borrowed, `-n` with `n` shared views,
    /// 1 with a changing view.
    pub closed spec fn borrow_state(&self) -> i8 {
        self.borrow
    }

    /// A cell holding `value` in a new block of the pool, freed if the
    /// transaction fails, and not borrowed; `None` when no zone has room for
    /// it.
    pub fn new(pool: &mut BuddyPool, journal: &mut Journal, value: u64) -> (r: Option<PRefCell>)
        requires
            old(pool).inv(),
            old(journal).records().len() < usize::MAX,
        ensures
            kept(*old(pool), *final(pool)),
            final(journal).flag_word() == old(journal).flag_word(),
            final(journal).home() == old(journal).home(),
            final(journal).nesting() == old(journal).nesting(),
            final(journal).copies() == old(journal).copies(),
            r is None == (forall|y: int|
                0 <= y < old(pool).zone_total() ==> alloc_fails(#[trigger] old(pool).zone_list()[y], 16)),
            r is None ==> final(journal).records() == old(journal).records(),
            r matches Some(c) ==> {
                &&& c.borrow_state() == 0
                &&& cell_ok(*final(pool), c.loc())
                &&& final(pool).image()[c.loc() as int] == 0
                &&& cell_value(final(pool).image(), c.loc()) == value
                &&& forall|p: int| #[trigger] range_live(p, 1, old(pool).zone_list()) ==> !(c.loc() <= p < c.loc() + 16)
                &&& final(journal).records() == old(journal).records().push(
                    Log(LogEnum::DropOnFailure(c.loc(), 16), Notifier::Empty),
                )
            },
    {
        match LogCell::new(pool, journal, value) {
            Some(c) => Some(PRefCell { off: c.off, borrow: 0 }),
            None => None,
        }
    }

    /// Stores `t` and returns the word the cell held, copying it into the
    /// journal first when the transaction has no copy. Only while the cell
    /// is not borrowed: the process panics otherwise.
    pub fn replace(&self, pool: &mut BuddyPool, journal: &mut Journal, t: u64) -> (r: u64)
        requires
            self.borrow_state() == 0,
            old(pool).inv(),
            cell_ok(*old(pool), self.loc()),
            old(journal).records().len() < usize::MAX,
        ensures
            r == cell_value(old(pool).image(), self.loc()),
            final(pool).inv(),
            final(pool).zone_list() == old(pool).zone_list(),
            final(pool).zone_total() == old(pool).zone_total(),
            final(pool).zone_quota() == old(pool).zone_quota(),
            final(pool).pool_size() == old(pool).pool_size(),
            cell_logged(*old(journal), *final(journal), old(pool).image(), self.loc()),
            logs_live(old(journal).records(), old(journal).copies(), old(pool).image().len() as int, old(pool).zone_list())
                ==> logs_live(final(journal).records(), final(journal).copies(), final(pool).image().len() as int, final(pool).zone_list()),
            final(pool).image() == cell_set(old(pool).image(), self.loc(), t),
    {
        cell_replace(pool, journal, self.off, t)
    }

    /// Stores `f` of the word the cell holds and returns the old word,
    /// copying it into the journal first when the transaction has no copy.
    /// Only while the cell is not borrowed: the process panics otherwise.
    pub fn replace_with<F: FnOnce(u64) -> u64>(&self, pool: &mut BuddyPool, journal: &mut Journal, f: F) -> (r: u64)
        requires
            self.borrow_state() == 0,
            old(pool).inv(),
            cell_ok(*old(pool), self.loc()),
            old(journal).records().len() < usize::MAX,
            f.requires((cell_value(old(pool).image(), self.loc()),)),
        ensures
            r == cell_value(old(pool).image(), self.loc()),
            final(pool).inv(),
            final(pool).zone_list() == old(pool).zone_list(),
            final(pool).zone_total() == old(pool).zone_total(),
            final(pool).zone_quota() == old(pool).zone_quota(),
            final(pool).pool_size() == old(pool).pool_size(),
            cell_logged(*old(journal), *final(journal), old(pool).image(), self.loc()),
            logs_live(old(journal).records(), old(journal).copies(), old(pool).image().len() as int, old(pool).zone_list())
                ==> logs_live(final(journal).records(), final(journal).copies(), final(pool).image().len() as int, final(pool).zone_list()),
            exists|n: u64| f.ensures((r,), n) && final(pool).image() == cell_set(old(pool).image(), self.loc(), n),
    {
        proof {
            pool.lemma_image_bound();
        }
        let v = pool.read_u64(self.off + 8);
        let n = f(v);
        cell_replace(pool, journal, self.off, n)
    }

    /// Swaps the words of two distinct cells, copying each into the journal
    /// first when the transaction has no copy. Only while neither cell is
    /// borrowed: the process panics otherwise.
    pub fn swap(&self, other: &PRefCell, pool: &mut BuddyPool, journal: &mut Journal)
        requires
            self.borrow_state() == 0,
            other.borrow_state() == 0,
            old(pool).inv(),
            cell_ok(*old(pool), self.loc()),
            cell_ok(*old(pool), other.loc()),
            self.loc() + 16 <= other.loc() || other.loc() + 16 <= self.loc(),
            old(journal).records().len() + 1 < usize::MAX,
        ensures
            final(pool).inv(),
            final(pool).zone_list() == old(pool).zone_list(),
            final(pool).zone_total() == old(pool).zone_total(),
            final(pool).zone_quota() == old(pool).zone_quota(),
            final(pool).pool_size() == old(pool).pool_size(),
            ({
                let s = old(pool).image();
                let s1 = cell_set(s, self.loc(), cell_value(s, other.loc()));
                &&& final(pool).image() == cell_set(s1, other.loc(), cell_value(s, self.loc()))
                &&& exists|j: Journal| cell_logged(*old(journal), j, s, self.loc()) && cell_logged(j, *final(journal), s1, other.loc())
            }),
            logs_live(old(journal).records(), old(journal).copies(), old(pool).image().len() as int, old(pool).zone_list())
                ==> logs_live(final(journal).records(), final(journal).copies(), final(pool).image().len() as int, final(pool).zone_list()),
    {
        let a = LogCell { off: self.off };
        let b = LogCell { off: other.off };
        a.swap(&b, pool, journal);
    }

    /// The word the cell holds.
    pub fn read(&self, pool: &BuddyPool) -> (r: u64)
        requires
            pool.inv(),
            cell_ok(*pool, self.loc()),
        ensures
            r == cell_value(pool.image(), self.loc()),
    {
        proof {
            pool.lemma_image_bound();
        }
        pool.read_u64(self.off + 8)
    }

    /// Takes the word out of the cell, leaving 0, copying it into the
    /// journal first when the transaction has no copy. Only while the cell
    /// is not borrowed: the process panics otherwise.
    pub fn take(&self, pool: &mut BuddyPool, journal: &mut Journal) -> (r: u64)
        requires
            self.borrow_state() == 0,
            old(pool).inv(),
            cell_ok(*old(pool), self.loc()),
            old(journal).records().len() < usize::MAX,
        ensures
            r == cell_value(old(pool).image(), self.loc()),
            final(pool).inv(),
            final(pool).zone_list() == old(pool).zone_list(),
            final(pool).zone_total() == old(pool).zone_total(),
            final(pool).zone_quota() == old(pool).zone_quota(),
            final(pool).pool_size() == old(pool).pool_size(),
            cell_logged(*old(journal), *final(journal), old(pool).image(), self.loc()),
            logs_live(old(journal).records(), old(journal).copies(), old(pool).image().len() as int, old(pool).zone_list())
                ==> logs_live(final(journal).records(), final(journal).copies(), final(pool).image().len() as int, final(pool).zone_list()),
            final(pool).image() == cell_set(old(pool).image(), self.loc(), 0),
    {
        cell_replace(pool, journal, self.off, 0)
    }

    /// A shared view of the cell, counted in its borrow state. Only while
    /// the cell has no changing view: the process panics otherwise.
    pub fn borrow(&mut self) -> (r: Ref)
        requires
            old(self).borrow_state() <= 0,
            old(self).borrow_state() > i8::MIN,
        ensures
            r.loc() == old(self).loc(),
            final(self).loc() == old(self).loc(),
            final(self).borrow_state() == old(self).borrow_state() - 1,
    {
        self.borrow = self.borrow - 1;
        Ref { off: self.off }
    }

    /// A view of the cell through which it is changed, marked in its borrow
    /// state. Only while the cell is not borrowed: the process panics
    /// otherwise.
    pub fn borrow_mut(&mut self) -> (r: RefMut)
        requires
            old(self).borrow_state() == 0,
        ensures
            r.loc() == old(self).loc(),
            final(self).loc() == old(self).loc(),
            final(self).borrow_state() == 1,
    {
        self.borrow = 1;
        RefMut { off: self.off }
    }
}

impl Ref {
    /// Offset of the flag byte of the viewed cell.
    pub closed spec fn loc(&self) -> u64 {
        self.off
    }

    /// The same view, owned anew: the borrow it counts moves over to the
    /// new view, and the cell's borrow state does not change.
    pub fn own(orig: Ref) -> (r: Ref)
        ensures
            r.loc() == orig.loc(),
    {
        Ref { off: orig.off }
    }

    /// Ends this shared view of `cell`: the cell's borrow state counts one
    /// shared view less.
    pub fn drop(self, cell: &mut PRefCell)
        requires
            old(cell).loc() == self.loc(),
            old(cell).borrow_state() < 0,
        ensures
            final(cell).loc() == old(cell).loc(),
            final(cell).borrow_state() == old(cell).borrow_state() + 1,
    {
        cell.borrow = cell.borrow + 1;
    }

    /// The word of the viewed cell.
    pub fn get(&self, pool: &BuddyPool) -> (r: u64)
        requires
            pool.inv(),
            cell_ok(*pool, self.loc()),
        ensures
            r == cell_value(pool.image(), self.loc()),
    {
        proof {
            pool.lemma_image_bound();
        }
        pool.read_u64(self.off + 8)
    }
}

impl RefMut {
    /// Offset of the flag byte of the viewed cell.
    pub closed spec fn loc(&self) -> u64 {
        self.off
    }

    /// The same view, owned anew: the cell stays marked as borrowed by the
    /// new view.
    pub fn own(orig: RefMut) -> (r: RefMut)
        ensures
            r.loc() == orig.loc(),
    {
        RefMut { off: orig.off }
    }

    /// Ends this changing view of `cell`: the cell is no longer borrowed.
    pub fn drop(self, cell: &mut PRefCell)
        requires
            old(cell).loc() == self.loc(),
            old(cell).borrow_state() == 1,
        ensures
            final(cell).loc() == old(cell).loc(),
            final(cell).borrow_state() == 0,
    {
        cell.borrow = 0;
    }

    /// The word of the viewed cell.
    pub fn get(&self, pool: &BuddyPool) -> (r: u64)
        requires
            pool.inv(),
            cell_ok(*pool, self.loc()),
        ensures
            r == cell_value(pool.image(), self.loc()),
    {
        proof {
            pool.lemma_image_bound();
        }
        pool.read_u64(self.off + 8)
    }

    /// Stores `v` in the viewed cell, copying the old word into the journal
    /// first when the transaction has no copy.
    pub fn set(&self, pool: &mut BuddyPool, journal: &mut Journal, v: u64)
        requires
            old(pool).inv(),
            cell_ok(*old(pool), self.loc()),
            old(journal).records().len() < usize::MAX,
        ensures
            final(pool).inv(),
            final(pool).zone_list() == old(pool).zone_list(),
            final(pool).zone_total() == old(pool).zone_total(),
            final(pool).zone_quota() == old(pool).zone_quota(),
            final(pool).pool_size() == old(pool).pool_size(),
            cell_logged(*old(journal), *final(journal), old(pool).image(), self.loc()),
            logs_live(old(journal).records(), old(journal).copies(), old(pool).image().len() as int, old(pool).zone_list())
                ==> logs_live(final(journal).records(), final(journal).copies(), final(pool).image().len() as int, final(pool).zone_list()),
            final(pool).image() == cell_set(old(pool).image(), self.loc(), v),
    {
        let _ = cell_replace(pool, journal, self.off, v);
    }
}

/// A value computed by its initializer on first use.
pub struct LazyCell<T, F> {
    cell: Option<T>,
    init: Option<F>,
}

impl<T, F> LazyCell<T, F> {
    /// The value, once computed.
    pub closed spec fn value(&self) -> Option<T> {
        self.cell
    }

    /// The initializer, until it runs.
    pub closed spec fn initializer(&self) -> Option<F> {
        self.init
    }

    /// A new lazy value with initializer `f`, not yet computed.
    pub closed spec fn spec_new(f: F) -> LazyCell<T, F> {
        LazyCell { cell: None, init: Some(f) }
    }

    /// A lazy value computed by `f` on first use.
    pub fn new(f: F) -> (r: LazyCell<T, F>)
        ensures
            r == Self::spec_new(f),
            r.value() is None,
            r.initializer() == Some(f),
    {
        LazyCell { cell: None, init: Some(f) }
    }
}

/// `c1` is `c0` after a `force` that returned `r`: the value when there was
/// one, or else what the initializer made, kept from then on.
pub open spec fn forced<T, F: FnOnce() -> T>(c0: LazyCell<T, F>, c1: LazyCell<T, F>, r: T) -> bool {
    &&& c0.value() matches Some(v) ==> r == v && c1 == c0
    &&& c0.value() is None ==> {
        &&& c0.initializer() matches Some(f) && f.ensures((), r)
        &&& c1.value() == Some(r)
        &&& c1.initializer() is None
    }
}

/// Forcing twice: the first `force` of a new lazy value runs its initializer
/// and keeps what it made; a later `force` gives that same value and changes
/// nothing.
pub proof fn lemma_force_once<T, F: FnOnce() -> T>(f: F, c1: LazyCell<T, F>, r1: T, c2: LazyCell<T, F>, r2: T)
    requires
        forced(LazyCell::<T, F>::spec_new(f), c1, r1),
        forced(c1, c2, r2),
    ensures
        f.ensures((), r1),
        r2 == r1,
        c2 == c1,
        c1.value() == Some(r1),
{
}

impl<T: Copy, F: FnOnce() -> T> LazyCell<T, F> {
    /// The value, computed by the initializer if this is the first use.
    pub fn force(&mut self) -> (r: T)
        requires
            old(self).value() is Some || (old(self).initializer() matches Some(f) && f.requires(())),
        ensures
            forced(*old(self), *final(self), r),
    {
        match self.cell {
            Some(v) => v,
            None => {
                let f = self.init.take().unwrap();
                let v = f();
                self.cell = Some(v);
                v
            },
        }
    }
}

/// The root object of an open pool, with the pool that keeps it open.
pub struct RootCell<'a, T, A> {
    value: &'a T,
    pool: std::sync::Arc<A>,
}

impl<'a, T, A> RootCell<'a, T, A> {
    /// The root object.
    pub closed spec fn root(&self) -> T {
        *self.value
    }

    /// The pool.
    pub closed spec fn owner(&self) -> A {
        *self.pool
    }

    /// A root cell for `value` in `pool`.
    pub fn new(value: &'a T, pool: std::sync::Arc<A>) -> (r: Self)
        ensures
            r.root() == *value,
            r.owner() == *pool,
    {
        RootCell { value, pool }
    }
}

} // verus!

verus! {

/// Record `l`, if a data log, touches no byte of `[off, off + len)` when
/// rolled back or committed: neither its flag byte nor the bytes that its
/// copy is written back to; and it names a copy.
pub open spec fn touch_free(l: Log, copies: Seq<Seq<u8>>, off: int, len: int) -> bool {
    match l.0 {
        LogEnum::DataLog(src, li, _) => src != NONE_OFF ==> {
            &&& li < copies.len()
            &&& (crate::stm::notifier_off(l.1) != NONE_OFF ==> !(off <= crate::stm::notifier_off(l.1) < off + len))
            &&& (src + copies[li as int].len() <= off || off + len <= src)
        },
        _ => true,
    }
}

/// No data log among the first `n` records touches a byte of
/// `[off, off + len)`.
pub open spec fn untouched(logs: Seq<Log>, copies: Seq<Seq<u8>>, off: int, len: int, n: int) -> bool {
    forall|i: int| 0 <= i < n ==> touch_free(#[trigger] logs[i], copies, off, len)
}

/// Clearing flags leaves the bytes that no record touches.
pub proof fn lemma_flags_cleared_untouched(s: Seq<u8>, logs: Seq<Log>, copies: Seq<Seq<u8>>, off: int, len: int, n: int, p: int)
    requires
        0 <= n <= logs.len(),
        untouched(logs, copies, off, len, n),
        off <= p < off + len,
        0 <= p < s.len(),
    ensures
        crate::stm::flags_cleared(s, logs, n)[p] == s[p],
        crate::stm::flags_cleared(s, logs, n).len() == s.len(),
    decreases n,
{
    if n > 0 {
        lemma_flags_cleared_untouched(s, logs, copies, off, len, n - 1, p);
        assert(logs[n - 1] == logs[n - 1]);
    }
}

/// Writing copies back leaves the bytes that no record touches.
pub proof fn lemma_restored_untouched(s: Seq<u8>, logs: Seq<Log>, copies: Seq<Seq<u8>>, off: int, len: int, n: int, p: int)
    requires
        0 <= n <= logs.len(),
        untouched(logs, copies, off, len, n),
        off <= p < off + len,
        0 <= p < s.len(),
    ensures
        crate::stm::restored(s, logs, copies, n)[p] == s[p],
        crate::stm::restored(s, logs, copies, n).len() == s.len(),
    decreases n,
{
    if n > 0 {
        lemma_restored_untouched(s, logs, copies, off, len, n - 1, p);
        assert(logs[n - 1] == logs[n - 1]);
    }
}

/// Rolling back: a transaction that changed a cell for the first time,
/// copying it into the journal, and whose other data logs leave the cell
/// alone, gives the cell back its flag byte and its word when it rolls back.
pub proof fn lemma_rollback_undoes_set(s: Seq<u8>, logs: Seq<Log>, copies: Seq<Seq<u8>>, off: u64, v: u64)
    requires
        off + 16 <= s.len(),
        s.len() <= u64::MAX,
        s[off as int] == 0,
        copies.len() < u64::MAX,
        untouched(logs, copies, off as int, 16, logs.len() as int),
    ensures
        ({
            let logs1 = logs.push(Log(LogEnum::DataLog((off + 8) as u64, copies.len() as u64, 8), Notifier::NonAtomic(off)));
            let copies1 = copies.push(s.subrange(off + 8, off + 16));
            let n = logs1.len() as int;
            crate::stm::restored(crate::stm::flags_cleared(cell_set(s, off, v), logs1, n), logs1, copies1, n).subrange(
                off as int,
                off + 16,
            ) == s.subrange(off as int, off + 16)
        }),
{
    let logs1 = logs.push(Log(LogEnum::DataLog((off + 8) as u64, copies.len() as u64, 8), Notifier::NonAtomic(off)));
    let copies1 = copies.push(s.subrange(off + 8, off + 16));
    let n = logs1.len() as int;
    let s1 = cell_set(s, off, v);
    lemma_wr(raised(s, off), off + 8, v);
    let fc = crate::stm::flags_cleared(s1, logs1, n);
    crate::stm::lemma_flags_cleared_len(s1, logs1, n);
    assert forall|i: int| 0 <= i < n - 1 implies touch_free(#[trigger] logs1[i], copies1, off as int, 16) by {
        assert(logs1[i] == logs[i]);
        assert(touch_free(logs[i], copies, off as int, 16));
        if let LogEnum::DataLog(src, li, _) = logs[i].0 {
            if src != NONE_OFF {
                assert(copies1[li as int] == copies[li as int]);
            }
        }
    }
    let r = crate::stm::restored(fc, logs1, copies1, n - 1);
    crate::stm::lemma_restored_len(fc, logs1, copies1, n - 1);
    assert(logs1[n - 1] == Log(LogEnum::DataLog((off + 8) as u64, copies.len() as u64, 8), Notifier::NonAtomic(off)));
    assert(copies1[copies.len() as int] == s.subrange(off + 8, off + 16));
    let w = crate::pmem::written(r, off + 8, s.subrange(off + 8, off + 16));
    assert(crate::stm::restored(fc, logs1, copies1, n) == w.update(off as int, 0));
    let f = crate::stm::flags_cleared(s1, logs1, n - 1);
    crate::stm::lemma_flags_cleared_len(s1, logs1, n - 1);
    assert(fc == f.update(off as int, 0));
    assert forall|p: int| off <= p < off + 16 implies #[trigger] crate::stm::restored(fc, logs1, copies1, n)[p] == s[p] by {
        if off < p < off + 8 {
            lemma_restored_untouched(fc, logs1, copies1, off as int, 16, n - 1, p);
            lemma_flags_cleared_untouched(s1, logs1, copies1, off as int, 16, n - 1, p);
            assert(w[p] == r[p]);
            assert(fc[p] == f[p]);
            assert(s1[p] == raised(s, off)[p]);
        }
    }
    assert(crate::stm::restored(fc, logs1, copies1, n).subrange(off as int, off + 16) =~= s.subrange(off as int, off + 16));
}

/// No recount record moves a counter word that meets `[off, off + len)`, and
/// every counter word lies in an image of `size` bytes.
pub open spec fn recount_apart(logs: Seq<Log>, off: int, len: int, size: int) -> bool {
    forall|i: int|
        0 <= i < logs.len() ==> match (#[trigger] logs[i]).0 {
            LogEnum::RecountOnFailure(src, _) => src == NONE_OFF || (src + 8 <= size && (src + 8 <= off || off + len
                <= src)),
            _ => true,
        }
}

/// The recovery steps of records `m` to `k - 1`, none of which touches
/// `[off, off + len)`, keep the bytes there.
pub proof fn lemma_recovered_untouched(
    s: Seq<u8>,
    logs: Seq<Log>,
    copies: Seq<Seq<u8>>,
    off: int,
    len: int,
    m: int,
    k: int,
    p: int,
)
    requires
        0 <= m <= k <= logs.len(),
        forall|i: int| m <= i < k ==> touch_free(#[trigger] logs[i], copies, off, len),
        recount_apart(logs, off, len, s.len() as int),
        crate::stm::recovered(s, logs, copies, k, true).len() == s.len(),
        off <= p < off + len,
        0 <= p < s.len(),
    ensures
        crate::stm::recovered(s, logs, copies, m, true)[p] == crate::stm::recovered(s, logs, copies, k, true)[p],
        crate::stm::recovered(s, logs, copies, m, true).len() == s.len(),
    decreases k - m,
{
    if m < k {
        lemma_recovered_untouched(s, logs, copies, off, len, m + 1, k, p);
        let s1 = crate::stm::recovered(s, logs, copies, m + 1, true);
        assert(touch_free(logs[m], copies, off, len));
        match logs[m].0 {
            LogEnum::RecountOnFailure(src, inc) => {
                if src != NONE_OFF && rd(s1, src as int) != NONE_OFF {
                    let x = if inc {
                        (rd(s1, src as int) + 1) as u64
                    } else {
                        (rd(s1, src as int) - 1) as u64
                    };
                    lemma_wr(s1, src as int, x);
                }
            },
            _ => {},
        }
    }
}

/// Recovering: a transaction that changed a cell for the first time,
/// copying it into the journal, and that crashed before it committed, gives
/// the cell back its flag byte and its word when the journal recovers, as
/// long as its other records leave the cell alone.
pub proof fn lemma_recovery_undoes_set(s: Seq<u8>, logs: Seq<Log>, copies: Seq<Seq<u8>>, off: u64, v: u64)
    requires
        off + 16 <= s.len(),
        s.len() <= u64::MAX,
        s[off as int] == 0,
        copies.len() < u64::MAX,
        untouched(logs, copies, off as int, 16, logs.len() as int),
        recount_apart(logs, off as int, 16, s.len() as int),
    ensures
        ({
            let logs1 = logs.push(Log(LogEnum::DataLog((off + 8) as u64, copies.len() as u64, 8), Notifier::NonAtomic(off)));
            let copies1 = copies.push(s.subrange(off + 8, off + 16));
            let n = logs1.len() as int;
            crate::stm::recovered(crate::stm::flags_cleared(cell_set(s, off, v), logs1, n), logs1, copies1, 0, true).subrange(
                off as int,
                off + 16,
            ) == s.subrange(off as int, off + 16)
        }),
{
    let cell_log = Log(LogEnum::DataLog((off + 8) as u64, copies.len() as u64, 8), Notifier::NonAtomic(off));
    let logs1 = logs.push(cell_log);
    let copies1 = copies.push(s.subrange(off + 8, off + 16));
    let n = logs1.len() as int;
    let s1 = cell_set(s, off, v);
    lemma_wr(raised(s, off), off + 8, v);
    let fc = crate::stm::flags_cleared(s1, logs1, n);
    crate::stm::lemma_flags_cleared_len(s1, logs1, n);
    let f = crate::stm::flags_cleared(s1, logs1, n - 1);
    crate::stm::lemma_flags_cleared_len(s1, logs1, n - 1);
    assert(logs1[n - 1] == cell_log);
    assert(fc == f.update(off as int, 0));
    assert forall|i: int| 0 <= i < n - 1 implies touch_free(#[trigger] logs1[i], copies1, off as int, 16) by {
        assert(logs1[i] == logs[i]);
        assert(touch_free(logs[i], copies, off as int, 16));
        if let LogEnum::DataLog(src, li, _) = logs[i].0 {
            if src != NONE_OFF {
                assert(copies1[li as int] == copies[li as int]);
            }
        }
    }
    assert(recount_apart(logs1, off as int, 16, fc.len() as int)) by {
        assert forall|i: int| 0 <= i < logs1.len() implies match (#[trigger] logs1[i]).0 {
            LogEnum::RecountOnFailure(src, _) => src == NONE_OFF || (src + 8 <= fc.len() && (src + 8 <= off || off + 16
                <= src)),
            _ => true,
        } by {
            if i < n - 1 {
                assert(logs1[i] == logs[i]);
            }
        }
    }
    assert(crate::stm::recovered(fc, logs1, copies1, n, true) == fc);
    assert(copies1[copies.len() as int] == s.subrange(off + 8, off + 16));
    let last = crate::stm::recovered(fc, logs1, copies1, n - 1, true);
    let w = crate::pmem::written(fc, off + 8, s.subrange(off + 8, off + 16));
    assert(last == w.update(off as int, 0));
    assert forall|p: int| off <= p < off + 16 implies #[trigger] crate::stm::recovered(fc, logs1, copies1, 0, true)[p] == s[p] by {
        lemma_recovered_untouched(fc, logs1, copies1, off as int, 16, 0, n - 1, p);
        if off < p < off + 8 {
            lemma_flags_cleared_untouched(s1, logs1, copies1, off as int, 16, n - 1, p);
            assert(w[p] == fc[p]);
            assert(fc[p] == f[p]);
            assert(s1[p] == raised(s, off)[p]);
        }
    }
    lemma_recovered_untouched(fc, logs1, copies1, off as int, 16, 0, n - 1, off as int);
    assert(crate::stm::recovered(fc, logs1, copies1, 0, true).subrange(off as int, off + 16) =~= s.subrange(off as int, off + 16));
}

/// Committing: a transaction that changed a cell, and whose other data logs
/// leave the cell alone, keeps the new word when it commits; only the flag
/// byte goes back to 0.
pub proof fn lemma_commit_keeps_set(s: Seq<u8>, logs: Seq<Log>, copies: Seq<Seq<u8>>, off: u64, v: u64)
    requires
        off + 16 <= s.len(),
        s.len() <= u64::MAX,
        s[off as int] == 0,
        copies.len() < u64::MAX,
        untouched(logs, copies, off as int, 16, logs.len() as int),
    ensures
        ({
            let logs1 = logs.push(Log(LogEnum::DataLog((off + 8) as u64, copies.len() as u64, 8), Notifier::NonAtomic(off)));
            let n = logs1.len() as int;
            let c = crate::stm::flags_cleared(cell_set(s, off, v), logs1, n);
            &&& cell_value(c, off) == v
            &&& c[off as int] == 0
        }),
{
    let logs1 = logs.push(Log(LogEnum::DataLog((off + 8) as u64, copies.len() as u64, 8), Notifier::NonAtomic(off)));
    let copies1 = copies.push(s.subrange(off + 8, off + 16));
    let n = logs1.len() as int;
    let s1 = cell_set(s, off, v);
    lemma_wr(raised(s, off), off + 8, v);
    assert forall|i: int| 0 <= i < n - 1 implies touch_free(#[trigger] logs1[i], copies1, off as int, 16) by {
        assert(logs1[i] == logs[i]);
        assert(touch_free(logs[i], copies, off as int, 16));
        if let LogEnum::DataLog(src, li, _) = logs[i].0 {
            if src != NONE_OFF {
                assert(copies1[li as int] == copies[li as int]);
            }
        }
    }
    let f = crate::stm::flags_cleared(s1, logs1, n - 1);
    assert forall|p: int| off <= p < off + 16 implies #[trigger] f[p] == s1[p] by {
        lemma_flags_cleared_untouched(s1, logs1, copies1, off as int, 16, n - 1, p);
    }
    crate::stm::lemma_flags_cleared_len(s1, logs1, n - 1);
    assert(logs1[n - 1] == Log(LogEnum::DataLog((off + 8) as u64, copies.len() as u64, 8), Notifier::NonAtomic(off)));
    let c = crate::stm::flags_cleared(s1, logs1, n);
    assert(c == f.update(off as int, 0));
    assert(c.subrange(off + 8, off + 16) =~= s1.subrange(off + 8, off + 16));
}

} // verus!
