//! Owning pointers to a word in the pool.

use vstd::prelude::*;
use crate::pmem::{NONE_OFF, rd, lemma_wr};
use crate::pool::{BuddyPool, range_live, alloc_fails, zone_dead, avoids_all, lemma_live_avoids};
use crate::buddy::{blk, order_for, is_free};
use crate::pmem::{apply_writes, covers, lemma_apply_reads, lemma_apply_writes, writes_in_bounds};
use crate::vec::{kept_outside, lemma_apart};
use crate::stm::{Journal, Log, LogEnum, Notifier};
use crate::cell::{kept, new_block, lemma_kept_write};

verus! {

/// An owning pointer to a word in a block of the pool.
pub struct Pbox {
    off: u64,
}

impl Pbox {
    /// Offset of the word.
    pub closed spec fn loc(&self) -> u64 {
        self.off
    }

    /// A box always has a word: its offset is never the null offset.
    #[verifier::type_invariant]
    spec fn has_word(&self) -> bool {
        self.off != NONE_OFF
    }

    /// A new block of the pool holding `x`, freed if the transaction fails;
    /// `None` when no zone has room for it.
    pub fn new(x: u64, pool: &mut BuddyPool, journal: &mut Journal) -> (r: Option<Pbox>)
        requires
            old(pool).inv(),
            old(journal).records().len() < usize::MAX,
        ensures
            kept(*old(pool), *final(pool)),
            final(journal).flag_word() == old(journal).flag_word(),
            final(journal).home() == old(journal).home(),
            final(journal).nesting() == old(journal).nesting(),
            final(journal).copies() == old(journal).copies(),
            r is None == (forall|y: int|
                0 <= y < old(pool).zone_total() ==> alloc_fails(#[trigger] old(pool).zone_list()[y], 8)),
            r is None ==> final(journal).records() == old(journal).records(),
            r matches Some(b) ==> {
                &&& b.loc() + 8 <= final(pool).image().len()
                &&& range_live(b.loc() as int, 8, final(pool).zone_list())
                &&& rd(final(pool).image(), b.loc() as int) == x
                &&& forall|p: int| #[trigger] range_live(p, 1, old(pool).zone_list()) ==> !(b.loc() <= p < b.loc() + 8)
                &&& final(journal).records() == old(journal).records().push(
                    Log(LogEnum::DropOnFailure(b.loc(), 8), Notifier::Empty),
                )
            },
    {
        let off = new_block(pool, journal, 8);
        if off == NONE_OFF {
            return None;
        }
        let ghost p1 = *pool;
        proof {
            pool.lemma_image_bound();
            lemma_wr(p1.image(), off as int, x);
        }
        pool.write_u64(off, x);
        proof {
            assert forall|p: int| 0 <= p < p1.image().len() && !(off <= p < off + 8) implies #[trigger] pool.image()[p] == p1.image()[p] by {}
            lemma_kept_write(*old(pool), p1, *pool, off as int, 8);
        }
        Some(Pbox { off })
    }

    /// A new pinned box holding `x`; pinning changes nothing in the pool.
    pub fn pin(x: u64, pool: &mut BuddyPool, journal: &mut Journal) -> (r: Option<Pbox>)
        requires
            old(pool).inv(),
            old(journal).records().len() < usize::MAX,
        ensures
            kept(*old(pool), *final(pool)),
            final(journal).flag_word() == old(journal).flag_word(),
            final(journal).home() == old(journal).home(),
            final(journal).nesting() == old(journal).nesting(),
            final(journal).copies() == old(journal).copies(),
            r is None == (forall|y: int|
                0 <= y < old(pool).zone_total() ==> alloc_fails(#[trigger] old(pool).zone_list()[y], 8)),
            r is None ==> final(journal).records() == old(journal).records(),
            r matches Some(b) ==> {
                &&& b.loc() + 8 <= final(pool).image().len()
                &&& range_live(b.loc() as int, 8, final(pool).zone_list())
                &&& rd(final(pool).image(), b.loc() as int) == x
                &&& forall|p: int| #[trigger] range_live(p, 1, old(pool).zone_list()) ==> !(b.loc() <= p < b.loc() + 8)
                &&& final(journal).records() == old(journal).records().push(
                    Log(LogEnum::DropOnFailure(b.loc(), 8), Notifier::Empty),
                )
            },
    {
        Self::new(x, pool, journal)
    }

    /// Offset of the word.
    pub fn off(&self) -> (r: u64)
        ensures
            r == self.loc(),
    {
        self.off
    }

    /// The word.
    pub fn get(&self, pool: &BuddyPool) -> (r: u64)
        requires
            pool.inv(),
            self.loc() + 8 <= pool.image().len(),
        ensures
            r == rd(pool.image(), self.loc() as int),
    {
        proof {
            pool.lemma_image_bound();
        }
        pool.read_u64(self.off)
    }

    /// Gives up the box, returning the offset of its word, never the null
    /// offset; the word and its block stay as they are, and the caller now
    /// owns the block.
    pub fn into_raw(b: Pbox) -> (r: u64)
        ensures
            r == b.loc(),
            r != NONE_OFF,
    {
        proof {
            use_type_invariant(&b);
        }
        b.off
    }

    /// Takes back the box whose word is at `raw`, as `into_raw` gave it.
    pub fn from_raw(raw: u64) -> (r: Pbox)
        requires
            raw != NONE_OFF,
        ensures
            r.loc() == raw,
    {
        Pbox { off: raw }
    }
}

/// The stores that publish a new block at `b` holding `words`, and then
/// the block's offset in the word at `slot`.
pub open spec fn publish_writes(b: u64, words: Seq<u64>, slot: u64) -> Seq<(u64, u64)> {
    Seq::new(words.len(), |t: int| ((b + 8 * t) as u64, words[t])).push((slot, b))
}

/// Allocates a block for `words`, in turn from the zone of processor `cpu`,
/// and, in one redo batch of that zone with the allocation, stores `words` at
/// the block's start and the block's offset in the word at `slot`. Returns
/// the block's offset, or the null offset, with nothing stored, when every
/// zone fails.
pub(crate) fn publish(pool: &mut BuddyPool, slot: u64, words: &[u64], cpu: usize) -> (r: u64)
    requires
        old(pool).inv(),
        0 < words@.len() <= 6,
        slot + 8 <= old(pool).image().len(),
        range_live(slot as int, 8, old(pool).zone_list()),
    ensures
        final(pool).inv(),
        kept_outside(*old(pool), *final(pool), slot as int, 8),
        (r == NONE_OFF) == (forall|y: int|
            0 <= y < old(pool).zone_total() ==> alloc_fails(#[trigger] old(pool).zone_list()[y], 8 * words@.len() as int)),
        r == NONE_OFF ==> final(pool).image() == old(pool).image(),
        r != NONE_OFF ==> {
            &&& r + 8 * words@.len() <= final(pool).image().len()
            &&& range_live(r as int, 8 * words@.len() as int, final(pool).zone_list())
            &&& forall|p: int| #[trigger] range_live(p, 1, old(pool).zone_list()) ==> !(r <= p < r + 8 * words@.len())
            &&& rd(final(pool).image(), slot as int) == r
            &&& forall|i: int| 0 <= i < words@.len() ==> #[trigger] rd(final(pool).image(), r + 8 * i) == words@[i]
        },
{
    let ghost p0 = *pool;
    let n = words.len();
    proof {
        p0.lemma_idle();
        p0.lemma_image_bound();
    }
    let (off, _l, z) = pool.pre_alloc(8 * n, cpu);
    if off == NONE_OFF {
        proof {
            pool.lemma_idle();
            assert forall|o: int, m: int| #[trigger] range_live(o, m, p0.zone_list()) implies range_live(o, m, pool.zone_list()) by {
                assert forall|y: int, p: int| 0 <= y < pool.zone_list().len() && o <= p < o + m implies !#[trigger] zone_dead(
                    pool.zone_list()[y],
                    p,
                ) by {
                    assert(!zone_dead(p0.zone_list()[y], p));
                }
            }
        }
        return NONE_OFF;
    }
    let ghost p1 = *pool;
    let ghost k = order_for(8 * n as int);
    let ghost a0 = p0.zone_list()[z as int];
    proof {
        assert forall|p: int| #[trigger] range_live(p, 1, p0.zone_list()) implies !(off <= p < off + blk(k)) by {
            if off <= p < off + blk(k) {
                assert(is_free(a0.free_lists(), p));
                assert(zone_dead(p0.zone_list()[z as int], p));
            }
        }
        lemma_apart(p0.zone_list(), slot as int, 8, off as int, blk(k));
        p1.lemma_zones_len(z as int);
        crate::cell::lemma_live_sub(off as int, blk(k), off as int, 8 * n, p1.zone_list());
        assert(range_live(slot as int, 8, p1.zone_list()));
    }
    let mut i: usize = 0;
    while i < n
        invariant
            i <= n,
            n == words@.len(),
            n <= 6,
            z < pool.zone_total(),
            pool.inv_busy(z as int),
            pool.image() == p0.image(),
            pool.zone_total() == p1.zone_total(),
            pool.zone_quota() == p1.zone_quota(),
            pool.pool_size() == p1.pool_size(),
            pool.zone_list().len() == p1.zone_list().len(),
            forall|y: int| 0 <= y < p1.zone_total() && y != z ==> #[trigger] pool.zone_list()[y] == p1.zone_list()[y],
            pool.zone_list()[z as int].pending_lists() == p1.zone_list()[z as int].pending_lists(),
            pool.zone_list()[z as int].free_lists() == p1.zone_list()[z as int].free_lists(),
            pool.zone_list()[z as int].meta_off() == p1.zone_list()[z as int].meta_off(),
            pool.zone_list()[z as int].word_log() == Seq::new(i as nat, |t: int| ((off + 8 * t) as u64, words@[t])),
            range_live(off as int, 8 * n, p1.zone_list()),
            off + 8 * n <= p0.image().len(),
            p0.image().len() <= u64::MAX,
        decreases n - i,
    {
        proof {
            pool.lemma_zones_len(z as int);
            crate::cell::lemma_live_sub(off as int, 8 * n, off + 8 * i, 8, p1.zone_list());
            lemma_live_avoids(off + 8 * i, p1.zone_list());
            assert forall|y: int| 0 <= y < pool.zone_list().len() implies crate::buddy::word_avoids(
                off + 8 * i,
                (#[trigger] pool.zone_list()[y]).meta_off(),
                pool.zone_list()[y].pending_lists(),
            ) by {
                assert(crate::buddy::word_avoids(off + 8 * i, p1.zone_list()[y].meta_off(), p1.zone_list()[y].pending_lists()));
            }
        }
        pool.log64(off + 8 * (i as u64), words[i], z);
        proof {
            pool.lemma_zones_len(z as int);
            assert(pool.zone_list()[z as int].word_log() =~= Seq::new((i + 1) as nat, |t: int| ((off + 8 * t) as u64, words@[t])));
        }
        i = i + 1;
    }
    proof {
        pool.lemma_zones_len(z as int);
        lemma_live_avoids(slot as int, p1.zone_list());
        assert forall|y: int| 0 <= y < pool.zone_list().len() implies crate::buddy::word_avoids(
            slot as int,
            (#[trigger] pool.zone_list()[y]).meta_off(),
            pool.zone_list()[y].pending_lists(),
        ) by {
            assert(crate::buddy::word_avoids(slot as int, p1.zone_list()[y].meta_off(), p1.zone_list()[y].pending_lists()));
        }
    }
    pool.log64(slot, off, z);
    let ghost p2 = *pool;
    let ghost ws = p2.zone_list()[z as int].word_log();
    proof {
        assert(ws =~= publish_writes(off, words@, slot));
    }
    pool.perform(z);
    proof {
        let t = apply_writes(p0.image(), p2.zone_list()[z as int].redo_log());
        assert(writes_in_bounds(ws, t.len() as int)) by {
            assert forall|j: int| 0 <= j < ws.len() implies #[trigger] ws[j].0 + 8 <= t.len() by {}
        }
        lemma_apply_writes(t, ws);
        assert(rd(pool.image(), slot as int) == off) by {
            assert forall|q: int| 0 <= q < ws.len() && q != n implies #[trigger] ws[q].0 + 8 <= ws[n as int].0 || ws[n as int].0 + 8 <= ws[q].0 by {}
            lemma_apply_reads(t, ws, n as int);
        }
        assert forall|j: int| 0 <= j < n implies #[trigger] rd(pool.image(), off + 8 * j) == words@[j] by {
            assert forall|q: int| 0 <= q < ws.len() && q != j implies #[trigger] ws[q].0 + 8 <= ws[j].0 || ws[j].0 + 8 <= ws[q].0 by {}
            lemma_apply_reads(t, ws, j);
        }
        pool.lemma_idle();
        p1.lemma_idle_busy_others();
        assert forall|o: int, m: int| #[trigger] range_live(o, m, p0.zone_list()) implies range_live(o, m, pool.zone_list()) by {
            assert(range_live(o, m, p1.zone_list()));
            assert forall|y: int, p: int| 0 <= y < pool.zone_list().len() && o <= p < o + m implies !#[trigger] zone_dead(
                pool.zone_list()[y],
                p,
            ) by {
                assert(!zone_dead(p1.zone_list()[y], p));
                if y != z {
                    assert(pool.zone_list()[y] == p2.zone_list()[y]);
                }
            }
        }
        assert forall|p: int|
            0 <= p < p0.image().len() && range_live(p, 1, p0.zone_list()) && !(slot <= p < slot + 8) implies #[trigger] pool.image()[p]
                == p0.image()[p] by {
            assert(!zone_dead(p0.zone_list()[z as int], p));
            assert(!is_free(a0.free_lists(), p));
            assert(!(off <= p < off + blk(k)));
            assert(!covers(ws, p));
        }
        assert(range_live(off as int, 8 * n, pool.zone_list())) by {
            assert forall|y: int, p: int| 0 <= y < pool.zone_list().len() && off <= p < off + 8 * n implies !#[trigger] zone_dead(
                pool.zone_list()[y],
                p,
            ) by {
                assert(!zone_dead(p1.zone_list()[y], p));
                if y != z {
                    assert(pool.zone_list()[y] == p2.zone_list()[y]);
                }
            }
        }
    }
    off
}

impl Pbox {
    /// Stores, in the word at `slot` that holds the null offset for "no
    /// box", a new box holding `value`, outside any transaction: the block's
    /// allocation, its word and the store into `slot` take effect together.
    /// An error, with nothing changed, when `slot` lies outside the pool,
    /// when it already holds a box, or when no zone has room.
    pub fn initialize(slot: u64, value: u64, pool: &mut BuddyPool, cpu: usize) -> (r: Result<(), String>)
        requires
            old(pool).inv(),
            slot + 8 <= old(pool).image().len() ==> range_live(slot as int, 8, old(pool).zone_list()),
        ensures
            final(pool).inv(),
            kept_outside(*old(pool), *final(pool), slot as int, 8),
            r is Ok == (slot + 8 <= old(pool).image().len() && rd(old(pool).image(), slot as int) == NONE_OFF
                && !forall|y: int|
                0 <= y < old(pool).zone_total() ==> alloc_fails(#[trigger] old(pool).zone_list()[y], 8)),
            r is Err ==> final(pool).image() == old(pool).image(),
            r is Ok ==> {
                let b = rd(final(pool).image(), slot as int);
                &&& b != NONE_OFF
                &&& b + 8 <= final(pool).image().len()
                &&& range_live(b as int, 8, final(pool).zone_list())
                &&& forall|p: int| #[trigger] range_live(p, 1, old(pool).zone_list()) ==> !(b <= p < b + 8)
                &&& rd(final(pool).image(), b as int) == value
            },
    {
        proof {
            pool.lemma_image_bound();
        }
        let len = pool.image_len() as u64;
        if slot >= len || len - slot < 8 {
            proof {
                assert forall|o: int, m: int| #[trigger] range_live(o, m, pool.zone_list()) implies range_live(o, m, pool.zone_list()) by {}
            }
            return Err("The box object is not in the PM".to_owned());
        }
        if pool.read_u64(slot) != NONE_OFF {
            return Err("already initialized".to_owned());
        }
        let words: [u64; 1] = [value];
        let b = publish(pool, slot, &words, cpu);
        if b == NONE_OFF {
            return Err("out of memory".to_owned());
        }
        proof {
            assert(rd(pool.image(), b + 8 * 0) == words@[0]);
        }
        Ok(())
    }
}

} // verus!
