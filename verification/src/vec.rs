//! Persistent vectors of words. A vector's buffer is a buddy block of the
//! pool, its elements the words at the start of the block. The capacity grows
//! inside the block while the size class allows; otherwise the elements move
//! to a larger block, and the old block is freed when the transaction
//! commits.

use vstd::prelude::*;
use crate::pmem::{NONE_OFF, rd, wr, copied, lemma_wr, lemma_rd_wr_other};
use crate::pool::{BuddyPool, range_live, alloc_fails};
use crate::buddy::{blk, order_for, order_of, get_idx, lemma_order_exists, lemma_order_for, lemma_blk};
use crate::stm::{Journal, Log, LogEnum, Notifier};
use crate::cell::{kept, new_block, lemma_live_sub};

verus! {

/// Bytes of the block behind a capacity of `cap` words.
pub open spec fn block_bytes(cap: int) -> int {
    blk(order_for(8 * cap))
}

/// Whether growing from `len` words to a capacity of `cap` words stays in
/// the size class of `len` words.
pub open spec fn fits_in_place(len: int, cap: int) -> bool {
    len > 0 && order_for(8 * cap) == order_for(8 * len)
}

/// The capacity after reserving room for `additional` more words.
pub open spec fn grown(len: int, cap: int, additional: int) -> int {
    len + if additional > cap {
        additional
    } else {
        cap
    }
}

/// Room for `add` more words can be made for a vector of `len` words and
/// capacity `cap` in `pool`: nothing is asked, the new capacity stays in the
/// size class of the length, or some zone has a block for it.
pub open spec fn can_grow(pool: BuddyPool, len: int, cap: int, add: int) -> bool {
    ||| add == 0
    ||| fits_in_place(len, grown(len, cap, add))
    ||| !(forall|y: int| 0 <= y < pool.zone_total() ==> alloc_fails(#[trigger] pool.zone_list()[y], 8 * grown(len, cap, add)))
}

/// The capacity that `extend_from_slice` asks `reserve` to add for `n` more
/// words: enough to hold them, nothing when the capacity already does.
pub open spec fn extension(len: int, cap: int, n: int) -> int {
    if cap > len + n {
        0
    } else {
        len + n - cap
    }
}

/// Pool `b` keeps what pool `a` holds, but for bytes in `[lo, lo + n)`.
pub open spec fn kept_outside(a: BuddyPool, b: BuddyPool, lo: int, n: int) -> bool {
    &&& b.inv()
    &&& b.image().len() == a.image().len()
    &&& b.zone_total() == a.zone_total()
    &&& b.zone_quota() == a.zone_quota()
    &&& b.pool_size() == a.pool_size()
    &&& forall|o: int, m: int| #[trigger] range_live(o, m, a.zone_list()) ==> range_live(o, m, b.zone_list())
    &&& forall|p: int|
        0 <= p < a.image().len() && range_live(p, 1, a.zone_list()) && !(lo <= p < lo + n) ==> #[trigger] b.image()[p]
            == a.image()[p]
}

/// Orders grow with sizes.
pub proof fn lemma_order_mono(x: int, y: int)
    requires
        0 < x <= y <= 0x8000_0000_0000_0000,
    ensures
        order_for(x) <= order_for(y),
        blk(order_for(x)) <= blk(order_for(y)),
        x <= blk(order_for(x)),
        y <= blk(order_for(y)),
{
    lemma_order_exists(x);
    lemma_order_exists(y);
    let kx = order_for(x);
    let ky = order_for(y);
    if ky < kx {
        if ky < kx - 1 {
            vstd::arithmetic::power2::lemma_pow2_strictly_increases(ky as nat, (kx - 1) as nat);
        }
        assert(false);
    }
    if kx < ky {
        vstd::arithmetic::power2::lemma_pow2_strictly_increases(kx as nat, ky as nat);
    }
}

/// Two ranges of which one lies in live bytes and the other in none do not
/// meet.
pub proof fn lemma_apart(zs: Seq<crate::buddy::BuddyAlg>, a: int, n: int, b: int, m: int)
    requires
        range_live(a, n, zs),
        0 < n,
        0 < m,
        forall|p: int| #[trigger] range_live(p, 1, zs) ==> !(b <= p < b + m),
    ensures
        a + n <= b || b + m <= a,
{
    if !(a + n <= b || b + m <= a) {
        let p = if a < b {
            b
        } else {
            a
        };
        lemma_live_sub(a, n, p, 1, zs);
        assert(range_live(p, 1, zs));
    }
}

/// A persistent vector of words.
pub struct Vec {
    off: u64,
    cap: usize,
    len: usize,
}

impl Vec {
    /// Offset of the buffer, or the null offset without one.
    pub closed spec fn loc(&self) -> u64 {
        self.off
    }

    /// Capacity, in words.
    pub closed spec fn room(&self) -> usize {
        self.cap
    }

    /// Number of elements.
    pub closed spec fn size(&self) -> usize {
        self.len
    }

    /// The buffer lies in live bytes of the pool and holds the capacity.
    pub open spec fn wf(&self, pool: BuddyPool) -> bool {
        &&& self.size() <= self.room()
        &&& 8 * self.room() <= 0x8000_0000_0000_0000
        &&& 8 * self.room() <= usize::MAX
        &&& self.room() == 0 ==> self.loc() == NONE_OFF
        &&& self.room() > 0 ==> {
            &&& self.loc() + block_bytes(self.room() as int) <= pool.image().len()
            &&& range_live(self.loc() as int, block_bytes(self.room() as int), pool.zone_list())
        }
    }

    /// The elements in image `s`.
    pub open spec fn items(&self, s: Seq<u8>) -> Seq<u64> {
        Seq::new(self.size() as nat, |i: int| rd(s, self.loc() + 8 * i))
    }

    /// The buffer holds the capacity's words.
    pub proof fn lemma_room(&self, pool: BuddyPool)
        requires
            self.wf(pool),
            self.room() > 0,
        ensures
            8 * self.room() <= block_bytes(self.room() as int),
            range_live(self.loc() as int, 8 * self.room(), pool.zone_list()),
            self.loc() + 8 * self.room() <= pool.image().len(),
    {
        lemma_order_exists(8 * self.room());
        lemma_live_sub(self.loc() as int, block_bytes(self.room() as int), self.loc() as int, 8 * self.room(), pool.zone_list());
    }

    /// An empty vector without a buffer.
    pub fn new(_j: &Journal) -> (r: Vec)
        ensures
            r.loc() == NONE_OFF,
            r.room() == 0,
            r.size() == 0,
    {
        Self::empty()
    }

    /// An empty vector without a buffer.
    pub fn empty() -> (r: Vec)
        ensures
            r.loc() == NONE_OFF,
            r.room() == 0,
            r.size() == 0,
    {
        Vec { off: NONE_OFF, cap: 0, len: 0 }
    }

    /// An empty vector with a buffer for `cap` words, freed if the
    /// transaction fails; `None` when no zone has room for it. Without a
    /// buffer when `cap` is 0.
    pub fn with_capacity(cap: usize, pool: &mut BuddyPool, journal: &mut Journal) -> (r: Option<Vec>)
        requires
            old(pool).inv(),
            8 * cap <= 0x8000_0000_0000_0000,
            8 * cap <= usize::MAX,
            old(journal).records().len() < usize::MAX,
        ensures
            kept(*old(pool), *final(pool)),
            final(journal).copies() == old(journal).copies(),
            final(journal).flag_word() == old(journal).flag_word(),
            final(journal).nesting() == old(journal).nesting(),
            final(journal).home() == old(journal).home(),
            r is None == (cap > 0 && forall|y: int|
                0 <= y < old(pool).zone_total() ==> alloc_fails(#[trigger] old(pool).zone_list()[y], 8 * cap)),
            r is None || cap == 0 ==> final(journal).records() == old(journal).records(),
            r matches Some(v) ==> {
                &&& v.wf(*final(pool))
                &&& v.size() == 0
                &&& v.room() == cap
                &&& forall|p: int| #[trigger] range_live(p, 1, old(pool).zone_list()) ==> !(v.loc() <= p < v.loc() + 8 * cap)
                &&& cap > 0 ==> final(journal).records() == old(journal).records().push(
                    Log(LogEnum::DropOnFailure(v.loc(), (8 * cap) as usize), Notifier::Empty),
                )
            },
    {
        if cap == 0 {
            proof {
                assert forall|p: int| 0 <= p < pool.image().len() && range_live(p, 1, pool.zone_list()) implies #[trigger] pool.image()[p]
                    == old(pool).image()[p] by {}
            }
            return Some(Self::empty());
        }
        let b = new_block(pool, journal, cap * 8);
        if b == NONE_OFF {
            return None;
        }
        Some(Vec { off: b, cap, len: 0 })
    }

    /// Whether the vector has no elements.
    pub fn is_empty(&self) -> (r: bool)
        ensures
            r == (self.size() == 0),
    {
        self.len == 0
    }

    /// Offset of the buffer.
    pub fn off(&self) -> (r: u64)
        ensures
            r == self.loc(),
    {
        self.off
    }

    /// Capacity, in words.
    pub fn capacity(&self) -> (r: usize)
        ensures
            r == self.room(),
    {
        self.cap
    }

    /// Number of elements.
    pub fn len(&self) -> (r: usize)
        ensures
            r == self.size(),
    {
        self.len
    }

    /// The elements.
    pub fn as_slice(&self, pool: &BuddyPool) -> (r: std::vec::Vec<u64>)
        requires
            pool.inv(),
            self.wf(*pool),
        ensures
            r@ == self.items(pool.image()),
    {
        let mut out: std::vec::Vec<u64> = std::vec::Vec::new();
        let mut i: usize = 0;
        proof {
            pool.lemma_image_bound();
            if self.room() > 0 {
                self.lemma_room(*pool);
            }
        }
        while i < self.len
            invariant
                i <= self.size(),
                pool.image().len() <= u64::MAX,
                self.wf(*pool),
                self.room() > 0 ==> self.loc() + 8 * self.room() <= pool.image().len(),
                out@ == self.items(pool.image()).take(i as int),
            decreases self.size() - i,
        {
            let w = pool.read_u64(self.off + 8 * (i as u64));
            out.push(w);
            i = i + 1;
            proof {
                assert(out@ =~= self.items(pool.image()).take(i as int));
            }
        }
        proof {
            assert(out@ =~= self.items(pool.image()));
        }
        out
    }
}

/// The word at `dst + 8 * i` after a copy of `n` bytes from `src` to `dst`
/// is the word at `src + 8 * i` before.
pub proof fn lemma_rd_copied(s: Seq<u8>, src: int, dst: int, n: int, i: int)
    requires
        0 <= src,
        0 <= dst,
        0 <= i,
        8 * i + 8 <= n,
        src + n <= s.len(),
        dst + n <= s.len(),
    ensures
        rd(copied(s, src, dst, n), dst + 8 * i) == rd(s, src + 8 * i),
{
    assert(copied(s, src, dst, n).subrange(dst + 8 * i, dst + 8 * i + 8) =~= s.subrange(src + 8 * i, src + 8 * i + 8));
}

/// A word in live bytes of a kept pool is unchanged.
pub proof fn lemma_rd_kept(a: BuddyPool, b: BuddyPool, lo: int, n: int, off: int)
    requires
        kept_outside(a, b, lo, n),
        range_live(off, 8, a.zone_list()),
        0 <= off,
        off + 8 <= a.image().len(),
        off + 8 <= lo || lo + n <= off,
    ensures
        rd(b.image(), off) == rd(a.image(), off),
{
    assert forall|p: int| off <= p < off + 8 implies #[trigger] b.image()[p] == a.image()[p] by {
        lemma_live_sub(off, 8, p, 1, a.zone_list());
    }
    assert(b.image().subrange(off, off + 8) =~= a.image().subrange(off, off + 8));
}

/// Journal `j1` is `j0` after a vector moved, or did not move, from `v0` to
/// `v1`: when it moved, the new block is freed if the transaction fails and
/// the old one, if any, when it commits.
pub open spec fn moved_records(j0: Journal, j1: Journal, v0: Vec, v1: Vec) -> bool {
    &&& j1.copies() == j0.copies()
    &&& j1.flag_word() == j0.flag_word()
    &&& j1.nesting() == j0.nesting()
    &&& j1.home() == j0.home()
    &&& if v1.loc() == v0.loc() {
        j1.records() == j0.records()
    } else if v0.room() > 0 {
        j1.records() == j0.records().push(
            Log(LogEnum::DropOnFailure(v1.loc(), (8 * v1.room()) as usize), Notifier::Empty),
        ).push(Log(LogEnum::DropOnCommit(v0.loc(), (8 * v0.room()) as usize), Notifier::Empty))
    } else {
        j1.records() == j0.records().push(
            Log(LogEnum::DropOnFailure(v1.loc(), (8 * v1.room()) as usize), Notifier::Empty),
        )
    }
}

impl Vec {
    /// Makes room for `additional` more words: the capacity becomes the
    /// length plus the larger of `additional` and the old capacity. Inside
    /// the size class of the length only the capacity changes; otherwise the
    /// elements move to a new block, freed if the transaction fails, and the
    /// old block, if any, is freed when it commits. Returns false, with
    /// nothing changed, when no zone has room for the new block.
    pub fn reserve(&mut self, additional: usize, pool: &mut BuddyPool, journal: &mut Journal) -> (ok: bool)
        requires
            old(pool).inv(),
            old(self).wf(*old(pool)),
            8 * grown(old(self).size() as int, old(self).room() as int, additional as int) <= 0x8000_0000_0000_0000,
            8 * grown(old(self).size() as int, old(self).room() as int, additional as int) <= usize::MAX,
            old(journal).records().len() + 2 < usize::MAX,
        ensures
            kept(*old(pool), *final(pool)),
            final(self).wf(*final(pool)),
            final(self).size() == old(self).size(),
            final(self).items(final(pool).image()) == old(self).items(old(pool).image()),
            moved_records(*old(journal), *final(journal), *old(self), *final(self)),
            additional == 0 ==> ok && *final(self) == *old(self),
            additional > 0 && fits_in_place(
                old(self).size() as int,
                grown(old(self).size() as int, old(self).room() as int, additional as int),
            ) ==> ok && final(self).loc() == old(self).loc(),
            additional > 0 ==> (ok == !(!fits_in_place(
                old(self).size() as int,
                grown(old(self).size() as int, old(self).room() as int, additional as int),
            ) && forall|y: int|
                0 <= y < old(pool).zone_total() ==> alloc_fails(
                    #[trigger] old(pool).zone_list()[y],
                    8 * grown(old(self).size() as int, old(self).room() as int, additional as int),
                ))),
            additional > 0 && ok ==> final(self).room() == grown(old(self).size() as int, old(self).room() as int, additional as int),
            !ok ==> *final(self) == *old(self),
    {
        if additional == 0 {
            proof {
                assert forall|p: int| 0 <= p < pool.image().len() && range_live(p, 1, pool.zone_list()) implies #[trigger] pool.image()[p]
                    == old(pool).image()[p] by {}
            }
            return true;
        }
        let cap = self.cap;
        let len = self.len;
        let extra = if additional > cap {
            additional
        } else {
            cap
        };
        let new_cap = len + extra;
        let ghost g = new_cap as int;
        let ki = get_idx(new_cap * 8);
        let kl = get_idx(len * 8);
        let in_place = len > 0 && ki == kl;
        proof {
            lemma_order_exists(8 * g);
            if len > 0 {
                lemma_order_exists(8 * len);
                lemma_order_for(8 * g, ki as int);
                lemma_order_for(8 * len, kl as int);
            }
            assert(in_place == fits_in_place(len as int, g));
        }
        if in_place {
            proof {
                lemma_order_mono(8 * len, 8 * cap);
                lemma_live_sub(self.off as int, block_bytes(cap as int), self.off as int, block_bytes(g), pool.zone_list());
                assert forall|p: int| 0 <= p < pool.image().len() && range_live(p, 1, pool.zone_list()) implies #[trigger] pool.image()[p]
                    == old(pool).image()[p] by {}
            }
            self.cap = new_cap;
            proof {
                assert(self.items(pool.image()) =~= old(self).items(old(pool).image()));
            }
            return true;
        }
        let ghost p0 = *pool;
        let ghost j0 = *journal;
        let b = new_block(pool, journal, new_cap * 8);
        if b == NONE_OFF {
            proof {
                assert forall|i: int| 0 <= i < len implies #[trigger] self.items(pool.image())[i] == self.items(p0.image())[i] by {
                    self.lemma_room(p0);
                    lemma_live_sub(self.loc() as int, 8 * cap, self.loc() + 8 * i, 8, p0.zone_list());
                    lemma_rd_kept(p0, *pool, 0, 0, self.loc() + 8 * i);
                }
                assert(self.items(pool.image()) =~= self.items(p0.image()));
            }
            return false;
        }
        let ghost p1 = *pool;
        proof {
            if cap > 0 {
                self.lemma_room(p0);
                lemma_order_exists(8 * g);
                lemma_apart(p0.zone_list(), self.off as int, 8 * cap, b as int, 8 * g);
            }
            assert(b != self.off);
        }
        proof {
            pool.lemma_image_bound();
            lemma_order_exists(8 * g);
            lemma_live_sub(b as int, blk(order_for(8 * g)), b as int, 8 * g, pool.zone_list());
        }
        if len > 0 {
            proof {
                self.lemma_room(p0);
                lemma_live_sub(self.off as int, 8 * cap, self.off as int, 8 * len, p0.zone_list());
                lemma_apart(p0.zone_list(), self.off as int, 8 * len, b as int, 8 * g);
                lemma_live_sub(b as int, 8 * g, b as int, 8 * len, pool.zone_list());
            }
            pool.copy(self.off, b, (len * 8) as u64);
            proof {
                assert forall|p: int| 0 <= p < p1.image().len() && !(b <= p < b + 8 * len) implies #[trigger] pool.image()[p]
                    == p1.image()[p] by {}
                crate::cell::lemma_kept_write(p0, p1, *pool, b as int, 8 * len);
            }
        }
        let ghost p2 = *pool;
        if cap > 0 {
            Log::drop_on_commit(self.off, cap * 8, journal);
        }
        let ghost v0 = *self;
        self.off = b;
        self.cap = new_cap;
        proof {
            assert forall|i: int| 0 <= i < len implies #[trigger] self.items(pool.image())[i] == v0.items(p0.image())[i] by {
                v0.lemma_room(p0);
                lemma_live_sub(v0.loc() as int, 8 * cap, v0.loc() + 8 * i, 8, p0.zone_list());
                lemma_rd_kept(p0, p1, 0, 0, v0.loc() + 8 * i);
                lemma_rd_copied(p1.image(), v0.loc() as int, b as int, 8 * len, i);
            }
            assert(self.items(pool.image()) =~= v0.items(p0.image()));
        }
        true
    }
}

/// A store into `[lo, lo + n)` keeps what lies outside.
pub proof fn lemma_kept_outside_wr(a: BuddyPool, b: BuddyPool, lo: int, n: int, off: int, x: u64)
    requires
        a.inv(),
        b.inv(),
        b.image() == wr(a.image(), off, x),
        b.zone_list() == a.zone_list(),
        b.zone_total() == a.zone_total(),
        b.zone_quota() == a.zone_quota(),
        b.pool_size() == a.pool_size(),
        0 <= lo <= off,
        off + 8 <= lo + n,
        off + 8 <= a.image().len(),
    ensures
        kept_outside(a, b, lo, n),
{
    lemma_wr(a.image(), off, x);
}

/// Keeping outside a range is transitive.
pub proof fn lemma_kept_outside_trans(a: BuddyPool, b: BuddyPool, c: BuddyPool, lo: int, n: int)
    requires
        kept_outside(a, b, lo, n),
        kept_outside(b, c, lo, n),
    ensures
        kept_outside(a, c, lo, n),
{
    assert forall|p: int|
        0 <= p < a.image().len() && range_live(p, 1, a.zone_list()) && !(lo <= p < lo + n) implies #[trigger] c.image()[p]
            == a.image()[p] by {
        assert(range_live(p, 1, b.zone_list()));
        assert(b.image()[p] == a.image()[p]);
        assert(c.image()[p] == b.image()[p]);
    }
}

/// The elements of `s` whose flag in `keep` is set, in order.
pub open spec fn filtered(s: Seq<u64>, keep: Seq<bool>) -> Seq<u64>
    decreases s.len(),
{
    if s.len() == 0 {
        Seq::empty()
    } else {
        let r = filtered(s.drop_last(), keep.drop_last());
        if keep.last() {
            r.push(s.last())
        } else {
            r
        }
    }
}

impl Vec {
    /// Stores `x` in slot `i` of the buffer.
    fn put(&self, pool: &mut BuddyPool, i: usize, x: u64)
        requires
            old(pool).inv(),
            self.wf(*old(pool)),
            i < self.room(),
        ensures
            final(pool).inv(),
            final(pool).image() == wr(old(pool).image(), self.loc() + 8 * i, x),
            final(pool).zone_list() == old(pool).zone_list(),
            final(pool).zone_total() == old(pool).zone_total(),
            final(pool).zone_quota() == old(pool).zone_quota(),
            final(pool).pool_size() == old(pool).pool_size(),
            final(pool).image().len() == old(pool).image().len(),
            self.wf(*final(pool)),
            kept_outside(*old(pool), *final(pool), self.loc() as int, block_bytes(self.room() as int)),
            kept_outside(*old(pool), *final(pool), self.loc() as int, 8 * self.room()),
    {
        proof {
            pool.lemma_image_bound();
            self.lemma_room(*pool);
            lemma_live_sub(self.loc() as int, 8 * self.room(), self.loc() + 8 * i, 8, pool.zone_list());
            lemma_wr(pool.image(), self.loc() + 8 * i, x);
        }
        let ghost p0 = *pool;
        pool.write_u64(self.off + 8 * (i as u64), x);
        proof {
            lemma_kept_outside_wr(p0, *pool, self.loc() as int, block_bytes(self.room() as int), self.loc() + 8 * i, x);
            lemma_kept_outside_wr(p0, *pool, self.loc() as int, 8 * self.room(), self.loc() + 8 * i, x);
        }
    }

    /// The word in slot `i` of the buffer.
    fn at(&self, pool: &BuddyPool, i: usize) -> (r: u64)
        requires
            pool.inv(),
            self.wf(*pool),
            i < self.room(),
        ensures
            r == rd(pool.image(), self.loc() + 8 * i),
    {
        proof {
            pool.lemma_image_bound();
            self.lemma_room(*pool);
        }
        pool.read_u64(self.off + 8 * (i as u64))
    }

    /// Appends `x`, first making room as `reserve(1)` does when the vector
    /// is full. Returns false, with nothing changed, when no zone has room
    /// for a larger block.
    pub fn push(&mut self, x: u64, pool: &mut BuddyPool, journal: &mut Journal) -> (ok: bool)
        requires
            old(pool).inv(),
            old(self).wf(*old(pool)),
            8 * grown(old(self).size() as int, old(self).room() as int, 1) <= 0x8000_0000_0000_0000,
            8 * grown(old(self).size() as int, old(self).room() as int, 1) <= usize::MAX,
            old(journal).records().len() + 2 < usize::MAX,
        ensures
            final(self).wf(*final(pool)),
            kept_outside(*old(pool), *final(pool), final(self).loc() as int, block_bytes(final(self).room() as int)),
            moved_records(*old(journal), *final(journal), *old(self), *final(self)),
            ok == !(old(self).size() == old(self).room() && !fits_in_place(
                old(self).size() as int,
                grown(old(self).size() as int, old(self).room() as int, 1),
            ) && forall|y: int|
                0 <= y < old(pool).zone_total() ==> alloc_fails(
                    #[trigger] old(pool).zone_list()[y],
                    8 * grown(old(self).size() as int, old(self).room() as int, 1),
                )),
            ok ==> final(self).items(final(pool).image()) == old(self).items(old(pool).image()).push(x),
            !ok ==> *final(self) == *old(self) && final(self).items(final(pool).image()) == old(self).items(old(pool).image()),
    {
        let ghost p0 = *pool;
        if self.len == self.cap {
            if !self.reserve(1, pool, journal) {
                return false;
            }
        } else {
            proof {
                assert forall|p: int| 0 <= p < pool.image().len() && range_live(p, 1, pool.zone_list()) implies #[trigger] pool.image()[p]
                    == old(pool).image()[p] by {}
            }
        }
        let ghost p1 = *pool;
        let ghost v1 = *self;
        let i = self.len;
        self.put(pool, i, x);
        self.len = i + 1;
        proof {
            lemma_kept_outside_trans(p0, p1, *pool, self.loc() as int, block_bytes(self.room() as int));
            v1.lemma_room(p1);
            assert forall|j: int| 0 <= j < i implies #[trigger] self.items(pool.image())[j] == v1.items(p1.image())[j] by {
                lemma_rd_wr_other(p1.image(), self.loc() + 8 * i, x, self.loc() + 8 * j);
            }
            lemma_wr(p1.image(), self.loc() + 8 * i, x);
            assert(self.items(pool.image()) =~= old(self).items(old(pool).image()).push(x));
        }
        true
    }

    /// Removes the last element and returns it; `None` when empty.
    pub fn pop(&mut self, pool: &BuddyPool) -> (r: Option<u64>)
        requires
            pool.inv(),
            old(self).wf(*pool),
        ensures
            final(self).wf(*pool),
            final(self).loc() == old(self).loc(),
            final(self).room() == old(self).room(),
            old(self).size() == 0 ==> r is None && *final(self) == *old(self),
            old(self).size() > 0 ==> r == Some(old(self).items(pool.image()).last())
                && final(self).items(pool.image()) == old(self).items(pool.image()).drop_last(),
    {
        if self.len == 0 {
            return None;
        }
        let i = self.len - 1;
        let w = self.at(pool, i);
        self.len = i;
        proof {
            assert(self.items(pool.image()) =~= old(self).items(pool.image()).drop_last());
        }
        Some(w)
    }

    /// Keeps the first `len` elements, if there are more.
    pub fn truncate(&mut self, len: usize)
        ensures
            final(self).loc() == old(self).loc(),
            final(self).room() == old(self).room(),
            final(self).size() == if len < old(self).size() {
                len
            } else {
                old(self).size()
            },
            forall|s: Seq<u8>| #[trigger] final(self).items(s) == old(self).items(s).take(final(self).size() as int),
    {
        if len <= self.len {
            self.len = len;
        }
        proof {
            assert forall|s: Seq<u8>| #[trigger] self.items(s) == old(self).items(s).take(self.size() as int) by {
                assert(self.items(s) =~= old(self).items(s).take(self.size() as int));
            }
        }
    }

    /// Removes all elements; the buffer stays.
    pub fn clear(&mut self)
        ensures
            final(self).loc() == old(self).loc(),
            final(self).room() == old(self).room(),
            final(self).size() == 0,
    {
        self.truncate(0);
    }

    /// Removes the element at `index` and returns it, the last element
    /// taking its place.
    pub fn swap_remove(&mut self, index: usize, pool: &mut BuddyPool) -> (r: u64)
        requires
            old(pool).inv(),
            old(self).wf(*old(pool)),
            index < old(self).size(),
        ensures
            r == old(self).items(old(pool).image())[index as int],
            final(self).wf(*final(pool)),
            final(self).loc() == old(self).loc(),
            final(self).room() == old(self).room(),
            final(self).items(final(pool).image()) == old(self).items(old(pool).image()).update(
                index as int,
                old(self).items(old(pool).image()).last(),
            ).drop_last(),
            kept_outside(*old(pool), *final(pool), final(self).loc() as int, block_bytes(final(self).room() as int)),
    {
        let hole = self.at(pool, index);
        let last = self.at(pool, self.len - 1);
        let n = self.len - 1;
        self.len = n;
        let ghost p0 = *pool;
        self.put(pool, index, last);
        proof {
            old(self).lemma_room(p0);
            lemma_wr(p0.image(), self.loc() + 8 * index, last);
            assert forall|j: int| 0 <= j < n && j != index implies #[trigger] self.items(pool.image())[j] == old(self).items(p0.image())[j] by {
                lemma_rd_wr_other(p0.image(), self.loc() + 8 * index, last, self.loc() + 8 * j);
            }
            assert(self.items(pool.image()) =~= old(self).items(old(pool).image()).update(
                index as int,
                old(self).items(old(pool).image()).last(),
            ).drop_last());
        }
        hole
    }
}

impl Vec {
    /// Inserts `x` at `index`, moving the later elements one slot up,
    /// first making room as `reserve(1)` does when the vector is full.
    /// Returns false, with nothing changed, when no zone has room for a
    /// larger block.
    pub fn insert(&mut self, index: usize, x: u64, pool: &mut BuddyPool, journal: &mut Journal) -> (ok: bool)
        requires
            old(pool).inv(),
            old(self).wf(*old(pool)),
            index <= old(self).size(),
            8 * grown(old(self).size() as int, old(self).room() as int, 1) <= 0x8000_0000_0000_0000,
            8 * grown(old(self).size() as int, old(self).room() as int, 1) <= usize::MAX,
            old(journal).records().len() + 2 < usize::MAX,
        ensures
            final(self).wf(*final(pool)),
            kept_outside(*old(pool), *final(pool), final(self).loc() as int, block_bytes(final(self).room() as int)),
            moved_records(*old(journal), *final(journal), *old(self), *final(self)),
            ok == !(old(self).size() == old(self).room() && !fits_in_place(
                old(self).size() as int,
                grown(old(self).size() as int, old(self).room() as int, 1),
            ) && forall|y: int|
                0 <= y < old(pool).zone_total() ==> alloc_fails(
                    #[trigger] old(pool).zone_list()[y],
                    8 * grown(old(self).size() as int, old(self).room() as int, 1),
                )),
            ok ==> final(self).items(final(pool).image()) == old(self).items(old(pool).image()).insert(index as int, x),
            !ok ==> *final(self) == *old(self) && final(self).items(final(pool).image()) == old(self).items(old(pool).image()),
    {
        let ghost p0 = *pool;
        if self.len == self.cap {
            if !self.reserve(1, pool, journal) {
                return false;
            }
        } else {
            proof {
                assert forall|p: int| 0 <= p < pool.image().len() && range_live(p, 1, pool.zone_list()) implies #[trigger] pool.image()[p]
                    == old(pool).image()[p] by {}
            }
        }
        let ghost p1 = *pool;
        let ghost items0 = old(self).items(old(pool).image());
        let len = self.len;
        let mut i = len;
        while i > index
            invariant
                index <= i <= len,
                len == self.size(),
                len < self.room(),
                self.wf(*pool),
                pool.inv(),
                kept_outside(p1, *pool, self.loc() as int, block_bytes(self.room() as int)),
                pool.zone_list() == p1.zone_list(),
                items0 == self.items(p1.image()),
                forall|j: int| 0 <= j < i ==> #[trigger] rd(pool.image(), self.loc() + 8 * j) == items0[j],
                forall|j: int| i < j <= len ==> #[trigger] rd(pool.image(), self.loc() + 8 * j) == items0[j - 1],
            decreases i,
        {
            let w = self.at(pool, i - 1);
            let ghost p2 = *pool;
            self.put(pool, i, w);
            proof {
                self.lemma_room(p2);
                lemma_kept_outside_trans(p1, p2, *pool, self.loc() as int, block_bytes(self.room() as int));
                lemma_wr(p2.image(), self.loc() + 8 * i, w);
                assert forall|j: int| 0 <= j < i - 1 implies #[trigger] rd(pool.image(), self.loc() + 8 * j) == items0[j] by {
                    lemma_rd_wr_other(p2.image(), self.loc() + 8 * i, w, self.loc() + 8 * j);
                }
                assert forall|j: int| i - 1 < j <= len implies #[trigger] rd(pool.image(), self.loc() + 8 * j) == items0[j - 1] by {
                    if j != i {
                        lemma_rd_wr_other(p2.image(), self.loc() + 8 * i, w, self.loc() + 8 * j);
                    }
                }
            }
            i = i - 1;
        }
        let ghost p3 = *pool;
        self.put(pool, index, x);
        self.len = len + 1;
        proof {
            self.lemma_room(p3);
            lemma_kept_outside_trans(p1, p3, *pool, self.loc() as int, block_bytes(self.room() as int));
            lemma_kept_outside_trans(p0, p1, *pool, self.loc() as int, block_bytes(self.room() as int));
            lemma_wr(p3.image(), self.loc() + 8 * index, x);
            assert forall|j: int| 0 <= j <= len && j != index implies #[trigger] rd(pool.image(), self.loc() + 8 * j) == rd(p3.image(), self.loc() + 8 * j) by {
                lemma_rd_wr_other(p3.image(), self.loc() + 8 * index, x, self.loc() + 8 * j);
            }
            assert(self.items(pool.image()) =~= items0.insert(index as int, x));
        }
        true
    }

    /// Removes the element at `index` and returns it, moving the later
    /// elements one slot down.
    pub fn remove(&mut self, index: usize, pool: &mut BuddyPool) -> (r: u64)
        requires
            old(pool).inv(),
            old(self).wf(*old(pool)),
            index < old(self).size(),
        ensures
            r == old(self).items(old(pool).image())[index as int],
            final(self).wf(*final(pool)),
            final(self).loc() == old(self).loc(),
            final(self).room() == old(self).room(),
            final(self).items(final(pool).image()) == old(self).items(old(pool).image()).remove(index as int),
            kept_outside(*old(pool), *final(pool), final(self).loc() as int, block_bytes(final(self).room() as int)),
    {
        let ghost items0 = old(self).items(old(pool).image());
        let ret = self.at(pool, index);
        let len = self.len;
        let mut i = index;
        proof {
            assert forall|p: int| 0 <= p < pool.image().len() && range_live(p, 1, pool.zone_list()) implies #[trigger] pool.image()[p]
                == old(pool).image()[p] by {}
        }
        while i + 1 < len
            invariant
                index <= i < len,
                len == self.size(),
                len <= self.room(),
                self.loc() == old(self).loc(),
                self.room() == old(self).room(),
                self.wf(*pool),
                pool.inv(),
                kept_outside(*old(pool), *pool, self.loc() as int, block_bytes(self.room() as int)),
                items0 == old(self).items(old(pool).image()),
                forall|j: int| 0 <= j < index ==> #[trigger] rd(pool.image(), self.loc() + 8 * j) == items0[j],
                forall|j: int| index <= j < i ==> #[trigger] rd(pool.image(), self.loc() + 8 * j) == items0[j + 1],
                forall|j: int| i < j < len ==> #[trigger] rd(pool.image(), self.loc() + 8 * j) == items0[j],
            decreases len - i,
        {
            let w = self.at(pool, i + 1);
            let ghost p2 = *pool;
            self.put(pool, i, w);
            proof {
                self.lemma_room(p2);
                lemma_kept_outside_trans(*old(pool), p2, *pool, self.loc() as int, block_bytes(self.room() as int));
                lemma_wr(p2.image(), self.loc() + 8 * i, w);
                assert forall|j: int| 0 <= j < index implies #[trigger] rd(pool.image(), self.loc() + 8 * j) == items0[j] by {
                    lemma_rd_wr_other(p2.image(), self.loc() + 8 * i, w, self.loc() + 8 * j);
                }
                assert forall|j: int| index <= j < i + 1 implies #[trigger] rd(pool.image(), self.loc() + 8 * j) == items0[j + 1] by {
                    if j != i {
                        lemma_rd_wr_other(p2.image(), self.loc() + 8 * i, w, self.loc() + 8 * j);
                    }
                }
                assert forall|j: int| i + 1 < j < len implies #[trigger] rd(pool.image(), self.loc() + 8 * j) == items0[j] by {
                    lemma_rd_wr_other(p2.image(), self.loc() + 8 * i, w, self.loc() + 8 * j);
                }
            }
            i = i + 1;
        }
        self.len = len - 1;
        proof {
            assert(self.items(pool.image()) =~= items0.remove(index as int));
        }
        ret
    }

    /// Keeps the elements for which `f` holds, in order.
    pub fn retain<F: Fn(u64) -> bool>(&mut self, pool: &mut BuddyPool, f: F)
        requires
            old(pool).inv(),
            old(self).wf(*old(pool)),
            forall|x: u64| #[trigger] f.requires((x,)),
        ensures
            final(self).wf(*final(pool)),
            final(self).loc() == old(self).loc(),
            final(self).room() == old(self).room(),
            kept_outside(*old(pool), *final(pool), final(self).loc() as int, block_bytes(final(self).room() as int)),
            exists|keep: Seq<bool>|
                #![trigger filtered(old(self).items(old(pool).image()), keep)]
                keep.len() == old(self).size() && (forall|i: int|
                    0 <= i < keep.len() ==> f.ensures((old(self).items(old(pool).image())[i],), #[trigger] keep[i]))
                    && final(self).items(final(pool).image()) == filtered(old(self).items(old(pool).image()), keep),
    {
        let ghost items0 = old(self).items(old(pool).image());
        let len = self.len;
        let mut del: usize = 0;
        let mut i: usize = 0;
        let ghost mut keep: Seq<bool> = Seq::empty();
        proof {
            assert forall|p: int| 0 <= p < pool.image().len() && range_live(p, 1, pool.zone_list()) implies #[trigger] pool.image()[p]
                == old(pool).image()[p] by {}
            assert(filtered(items0.take(0), keep) =~= Seq::<u64>::empty());
        }
        while i < len
            invariant
                del <= i <= len,
                len == self.size(),
                len <= self.room(),
                self.loc() == old(self).loc(),
                self.room() == old(self).room(),
                self.wf(*pool),
                pool.inv(),
                kept_outside(*old(pool), *pool, self.loc() as int, block_bytes(self.room() as int)),
                items0 == old(self).items(old(pool).image()),
                items0.len() == len,
                forall|x: u64| #[trigger] f.requires((x,)),
                keep.len() == i,
                forall|k: int| 0 <= k < i ==> f.ensures((items0[k],), #[trigger] keep[k]),
                filtered(items0.take(i as int), keep).len() == i - del,
                forall|j: int| 0 <= j < i - del ==> #[trigger] rd(pool.image(), self.loc() + 8 * j) == filtered(items0.take(i as int), keep)[j],
                forall|j: int| i <= j < len ==> #[trigger] rd(pool.image(), self.loc() + 8 * j) == items0[j],
            decreases len - i,
        {
            let v = self.at(pool, i);
            let b = f(v);
            proof {
                assert(items0.take(i + 1).drop_last() =~= items0.take(i as int));
                assert((keep.push(b)).drop_last() =~= keep);
            }
            if !b {
                del = del + 1;
            } else if del > 0 {
                let u = self.at(pool, i - del);
                let ghost p2 = *pool;
                self.put(pool, i - del, v);
                let ghost p3 = *pool;
                self.put(pool, i, u);
                proof {
                    self.lemma_room(p2);
                    lemma_kept_outside_trans(*old(pool), p2, p3, self.loc() as int, block_bytes(self.room() as int));
                    lemma_kept_outside_trans(*old(pool), p3, *pool, self.loc() as int, block_bytes(self.room() as int));
                    lemma_wr(p2.image(), self.loc() + 8 * (i - del), v);
                    lemma_wr(p3.image(), self.loc() + 8 * i, u);
                    assert forall|j: int| 0 <= j < i - del implies #[trigger] rd(pool.image(), self.loc() + 8 * j) == rd(p2.image(), self.loc() + 8 * j) by {
                        lemma_rd_wr_other(p2.image(), self.loc() + 8 * (i - del), v, self.loc() + 8 * j);
                        lemma_rd_wr_other(p3.image(), self.loc() + 8 * i, u, self.loc() + 8 * j);
                    }
                    assert(rd(pool.image(), self.loc() + 8 * (i - del)) == v) by {
                        lemma_rd_wr_other(p3.image(), self.loc() + 8 * i, u, self.loc() + 8 * (i - del));
                    }
                    assert forall|j: int| i < j < len implies #[trigger] rd(pool.image(), self.loc() + 8 * j) == rd(p2.image(), self.loc() + 8 * j) by {
                        lemma_rd_wr_other(p2.image(), self.loc() + 8 * (i - del), v, self.loc() + 8 * j);
                        lemma_rd_wr_other(p3.image(), self.loc() + 8 * i, u, self.loc() + 8 * j);
                    }
                }
            }
            proof {
                keep = keep.push(b);
            }
            i = i + 1;
        }
        proof {
            assert(items0.take(len as int) =~= items0);
        }
        let ghost v0 = *self;
        self.truncate(len - del);
        proof {
            assert(self.items(pool.image()) =~= filtered(items0, keep));
        }
    }
}

/// Whether capacities of `a` and `b` words take blocks of one size class
/// (no block at all for 0).
pub open spec fn same_class(a: int, b: int) -> bool {
    (a == 0 && b == 0) || (a > 0 && b > 0 && order_for(8 * a) == order_for(8 * b))
}

/// The capacity that `shrink_to(new_cap)` asks for: never below the length.
pub open spec fn shrunk(len: int, new_cap: int) -> int {
    if new_cap < len {
        len
    } else {
        new_cap
    }
}

impl Vec {
    /// Sets the capacity to `new_cap`, or to the length if that is larger.
    /// Within the size class of the old capacity only the capacity changes;
    /// otherwise an empty vector gives up its buffer, and the elements of
    /// another move to a new block of their size, freed if the transaction
    /// fails, the old block left as it is. Returns false, with nothing
    /// changed, when no zone has room for the new block. The new capacity
    /// must fit the block that it ends up with.
    pub fn shrink_to(&mut self, new_cap: usize, pool: &mut BuddyPool, journal: &mut Journal) -> (ok: bool)
        requires
            old(pool).inv(),
            old(self).wf(*old(pool)),
            8 * new_cap <= 0x8000_0000_0000_0000,
            8 * new_cap <= usize::MAX,
            ({
                let nc = shrunk(old(self).size() as int, new_cap as int);
                ||| nc == 0
                ||| same_class(nc, old(self).room() as int)
                ||| (old(self).size() > 0 && same_class(nc, old(self).size() as int))
            }),
            old(journal).records().len() < usize::MAX,
        ensures
            kept(*old(pool), *final(pool)),
            final(self).wf(*final(pool)),
            final(self).size() == old(self).size(),
            final(self).items(final(pool).image()) == old(self).items(old(pool).image()),
            final(journal).copies() == old(journal).copies(),
            final(journal).flag_word() == old(journal).flag_word(),
            final(journal).nesting() == old(journal).nesting(),
            final(journal).home() == old(journal).home(),
            ({
                let len = old(self).size() as int;
                let nc = shrunk(len, new_cap as int);
                if same_class(nc, old(self).room() as int) {
                    &&& ok
                    &&& final(self).loc() == old(self).loc()
                    &&& final(self).room() == nc
                    &&& final(journal).records() == old(journal).records()
                } else if len == 0 {
                    &&& ok
                    &&& final(self).loc() == NONE_OFF
                    &&& final(self).room() == 0
                    &&& final(journal).records() == old(journal).records()
                } else {
                    &&& ok == !(forall|y: int|
                        0 <= y < old(pool).zone_total() ==> alloc_fails(#[trigger] old(pool).zone_list()[y], 8 * len))
                    &&& ok ==> final(self).room() == nc && final(journal).records() == old(journal).records().push(
                        Log(LogEnum::DropOnFailure(final(self).loc(), (8 * len) as usize), Notifier::Empty),
                    )
                    &&& !ok ==> *final(self) == *old(self) && final(journal).records() == old(journal).records()
                }
            }),
    {
        proof {
            assert forall|p: int| 0 <= p < pool.image().len() && range_live(p, 1, pool.zone_list()) implies #[trigger] pool.image()[p]
                == old(pool).image()[p] by {}
        }
        let cap = self.cap;
        let len = self.len;
        let nc = if new_cap < len {
            len
        } else {
            new_cap
        };
        let ki = get_idx(nc * 8);
        let kc = get_idx(cap * 8);
        proof {
            if nc > 0 {
                lemma_order_exists(8 * nc);
                lemma_order_for(8 * nc, ki as int);
            }
            if cap > 0 {
                lemma_order_exists(8 * cap);
                lemma_order_for(8 * cap, kc as int);
            }
            if len > 0 {
                lemma_order_exists(8 * len);
            }
            assert((ki == kc) == same_class(nc as int, cap as int));
        }
        if ki == kc {
            self.cap = nc;
            proof {
                assert(self.items(pool.image()) =~= old(self).items(old(pool).image()));
            }
            return true;
        }
        if len == 0 {
            self.off = NONE_OFF;
            self.cap = 0;
            proof {
                assert(self.items(pool.image()) =~= old(self).items(old(pool).image()));
            }
            return true;
        }
        let ghost p0 = *pool;
        let b = new_block(pool, journal, len * 8);
        if b == NONE_OFF {
            proof {
                assert forall|i: int| 0 <= i < len implies #[trigger] self.items(pool.image())[i] == self.items(p0.image())[i] by {
                    self.lemma_room(p0);
                    lemma_live_sub(self.loc() as int, 8 * cap, self.loc() + 8 * i, 8, p0.zone_list());
                    lemma_rd_kept(p0, *pool, 0, 0, self.loc() + 8 * i);
                }
                assert(self.items(pool.image()) =~= self.items(p0.image()));
            }
            return false;
        }
        let ghost p1 = *pool;
        proof {
            pool.lemma_image_bound();
            self.lemma_room(p0);
            lemma_live_sub(self.off as int, 8 * cap, self.off as int, 8 * len, p0.zone_list());
            lemma_apart(p0.zone_list(), self.off as int, 8 * len, b as int, 8 * len);
        }
        pool.copy(self.off, b, (len * 8) as u64);
        proof {
            assert forall|p: int| 0 <= p < p1.image().len() && !(b <= p < b + 8 * len) implies #[trigger] pool.image()[p]
                == p1.image()[p] by {}
            crate::cell::lemma_kept_write(p0, p1, *pool, b as int, 8 * len);
        }
        let ghost v0 = *self;
        self.off = b;
        self.cap = nc;
        proof {
            assert forall|i: int| 0 <= i < len implies #[trigger] self.items(pool.image())[i] == v0.items(p0.image())[i] by {
                lemma_live_sub(v0.loc() as int, 8 * cap, v0.loc() + 8 * i, 8, p0.zone_list());
                lemma_rd_kept(p0, p1, 0, 0, v0.loc() + 8 * i);
                lemma_rd_copied(p1.image(), v0.loc() as int, b as int, 8 * len, i);
            }
            assert(self.items(pool.image()) =~= v0.items(p0.image()));
        }
        true
    }

    /// Makes the capacity equal to the length, as `shrink_to(len)` does.
    /// Inside the same size class only the capacity changes; an empty vector
    /// gives up its buffer; otherwise the elements move to a new block of
    /// their size, freed if the transaction fails, and the old block is left
    /// as it is. Returns false, with nothing changed, when no zone has room
    /// for the new block.
    pub fn shrink_to_fit(&mut self, pool: &mut BuddyPool, journal: &mut Journal) -> (ok: bool)
        requires
            old(pool).inv(),
            old(self).wf(*old(pool)),
            old(journal).records().len() < usize::MAX,
        ensures
            kept(*old(pool), *final(pool)),
            final(self).wf(*final(pool)),
            final(self).size() == old(self).size(),
            final(self).items(final(pool).image()) == old(self).items(old(pool).image()),
            final(journal).copies() == old(journal).copies(),
            final(journal).flag_word() == old(journal).flag_word(),
            final(journal).nesting() == old(journal).nesting(),
            final(journal).home() == old(journal).home(),
            old(self).room() == old(self).size() ==> ok && *final(self) == *old(self)
                && final(journal).records() == old(journal).records(),
            old(self).room() != old(self).size() && old(self).size() == 0 ==> ok && final(self).loc() == NONE_OFF
                && final(self).room() == 0 && final(journal).records() == old(journal).records(),
            old(self).room() != old(self).size() && fits_in_place(old(self).size() as int, old(self).room() as int) ==> ok
                && final(self).loc() == old(self).loc() && final(self).room() == old(self).size()
                && final(journal).records() == old(journal).records(),
            old(self).room() != old(self).size() && old(self).size() > 0 && !fits_in_place(
                old(self).size() as int,
                old(self).room() as int,
            ) ==> {
                &&& ok == !(forall|y: int|
                    0 <= y < old(pool).zone_total() ==> alloc_fails(#[trigger] old(pool).zone_list()[y], 8 * old(self).size()))
                &&& ok ==> final(self).room() == old(self).size() && final(journal).records() == old(journal).records().push(
                    Log(LogEnum::DropOnFailure(final(self).loc(), (8 * old(self).size()) as usize), Notifier::Empty),
                )
                &&& !ok ==> *final(self) == *old(self) && final(journal).records() == old(journal).records()
            },
    {
        if self.cap == self.len {
            proof {
                assert forall|p: int| 0 <= p < pool.image().len() && range_live(p, 1, pool.zone_list()) implies #[trigger] pool.image()[p]
                    == old(pool).image()[p] by {}
            }
            return true;
        }
        let len = self.len;
        self.shrink_to(len, pool, journal)
    }

    /// The images under `f` of the elements, in order.
    pub fn cast<U, F: Fn(u64) -> U>(&self, pool: &BuddyPool, f: F) -> (r: std::vec::Vec<U>)
        requires
            pool.inv(),
            self.wf(*pool),
            forall|x: u64| #[trigger] f.requires((x,)),
        ensures
            r@.len() == self.size(),
            forall|i: int| 0 <= i < self.size() ==> f.ensures((self.items(pool.image())[i],), #[trigger] r@[i]),
    {
        let mut res: std::vec::Vec<U> = std::vec::Vec::new();
        let mut i: usize = 0;
        while i < self.len
            invariant
                i <= self.size(),
                self.wf(*pool),
                pool.inv(),
                forall|x: u64| #[trigger] f.requires((x,)),
                res@.len() == i,
                forall|k: int| 0 <= k < i ==> f.ensures((self.items(pool.image())[k],), #[trigger] res@[k]),
            decreases self.size() - i,
        {
            let v = self.at(pool, i);
            res.push(f(v));
            i = i + 1;
        }
        res
    }

    /// A consuming walk over the elements.
    pub fn into_iter(self, pool: &BuddyPool) -> (r: IntoIteratorHelper)
        requires
            pool.inv(),
            self.wf(*pool),
        ensures
            r.rest() == self.items(pool.image()),
    {
        let items = self.as_slice(pool);
        IntoIteratorHelper { items, pos: 0 }
    }

    /// A walk over the elements.
    pub fn iter(&self, pool: &BuddyPool) -> (r: IterHelper)
        requires
            pool.inv(),
            self.wf(*pool),
        ensures
            r.rest() == self.items(pool.image()),
    {
        let items = self.as_slice(pool);
        IterHelper { items, pos: 0 }
    }
}

/// A consuming walk over the elements of a vector.
pub struct IntoIteratorHelper {
    items: std::vec::Vec<u64>,
    pos: usize,
}

impl IntoIteratorHelper {
    /// The elements not yet handed out.
    pub closed spec fn rest(&self) -> Seq<u64> {
        if self.pos <= self.items@.len() {
            self.items@.skip(self.pos as int)
        } else {
            Seq::empty()
        }
    }

    /// The next element, if any.
    pub fn next(&mut self) -> (r: Option<u64>)
        ensures
            old(self).rest().len() == 0 ==> r is None && final(self).rest() == old(self).rest(),
            old(self).rest().len() > 0 ==> r == Some(old(self).rest()[0]) && final(self).rest() == old(self).rest().drop_first(),
    {
        if self.pos >= self.items.len() {
            return None;
        }
        let v = self.items[self.pos];
        self.pos = self.pos + 1;
        proof {
            assert(self.rest() =~= old(self).rest().drop_first());
        }
        Some(v)
    }
}

/// A walk over the elements of a vector.
pub struct IterHelper {
    items: std::vec::Vec<u64>,
    pos: usize,
}

impl IterHelper {
    /// The elements not yet handed out.
    pub closed spec fn rest(&self) -> Seq<u64> {
        if self.pos <= self.items@.len() {
            self.items@.skip(self.pos as int)
        } else {
            Seq::empty()
        }
    }

    /// The next element, if any.
    pub fn next(&mut self) -> (r: Option<u64>)
        ensures
            old(self).rest().len() == 0 ==> r is None && final(self).rest() == old(self).rest(),
            old(self).rest().len() > 0 ==> r == Some(old(self).rest()[0]) && final(self).rest() == old(self).rest().drop_first(),
    {
        if self.pos >= self.items.len() {
            return None;
        }
        let v = self.items[self.pos];
        self.pos = self.pos + 1;
        proof {
            assert(self.rest() =~= old(self).rest().drop_first());
        }
        Some(v)
    }
}

impl Vec {
    /// Writes `xs` into the slots from the length on and counts them in.
    fn append_within(&mut self, xs: &[u64], pool: &mut BuddyPool)
        requires
            old(pool).inv(),
            old(self).wf(*old(pool)),
            old(self).size() + xs@.len() <= old(self).room(),
        ensures
            final(self).wf(*final(pool)),
            final(self).loc() == old(self).loc(),
            final(self).room() == old(self).room(),
            final(self).items(final(pool).image()) == old(self).items(old(pool).image()) + xs@,
            kept_outside(*old(pool), *final(pool), final(self).loc() as int, block_bytes(final(self).room() as int)),
            kept_outside(*old(pool), *final(pool), final(self).loc() as int, 8 * final(self).room()),
    {
        let ghost items0 = old(self).items(old(pool).image());
        let mut i: usize = 0;
        let len = self.len;
        proof {
            assert forall|p: int| 0 <= p < pool.image().len() && range_live(p, 1, pool.zone_list()) implies #[trigger] pool.image()[p]
                == old(pool).image()[p] by {}
        }
        while i < xs.len()
            invariant
                i <= xs@.len(),
                len == self.size(),
                len == old(self).size(),
                len + xs@.len() <= self.room(),
                self.loc() == old(self).loc(),
                self.room() == old(self).room(),
                self.wf(*pool),
                pool.inv(),
                kept_outside(*old(pool), *pool, self.loc() as int, block_bytes(self.room() as int)),
                kept_outside(*old(pool), *pool, self.loc() as int, 8 * self.room()),
                items0 == old(self).items(old(pool).image()),
                forall|j: int| 0 <= j < len ==> #[trigger] rd(pool.image(), self.loc() + 8 * j) == items0[j],
                forall|j: int| 0 <= j < i ==> #[trigger] rd(pool.image(), self.loc() + 8 * (len + j)) == xs@[j],
            decreases xs@.len() - i,
        {
            let ghost p2 = *pool;
            self.put(pool, len + i, xs[i]);
            proof {
                self.lemma_room(p2);
                lemma_kept_outside_trans(*old(pool), p2, *pool, self.loc() as int, block_bytes(self.room() as int));
                lemma_kept_outside_trans(*old(pool), p2, *pool, self.loc() as int, 8 * self.room());
                lemma_wr(p2.image(), self.loc() + 8 * (len + i), xs@[i as int]);
                assert forall|j: int| 0 <= j < len implies #[trigger] rd(pool.image(), self.loc() + 8 * j) == items0[j] by {
                    lemma_rd_wr_other(p2.image(), self.loc() + 8 * (len + i), xs@[i as int], self.loc() + 8 * j);
                }
                assert forall|j: int| 0 <= j < i + 1 implies #[trigger] rd(pool.image(), self.loc() + 8 * (len + j)) == xs@[j] by {
                    if j < i {
                        lemma_rd_wr_other(p2.image(), self.loc() + 8 * (len + i), xs@[i as int], self.loc() + 8 * (len + j));
                    }
                }
            }
            i = i + 1;
        }
        self.len = len + xs.len();
        proof {
            assert forall|j: int| 0 <= j < self.size() implies #[trigger] self.items(pool.image())[j] == (items0 + xs@)[j] by {
                if j >= len {
                    assert(rd(pool.image(), self.loc() + 8 * (len + (j - len))) == xs@[j - len]);
                }
            }
            assert(self.items(pool.image()) =~= items0 + xs@);
        }
    }

    /// A vector holding `x`, in a new block freed if the transaction fails;
    /// `None` when no zone has room for it. Without a buffer when `x` is
    /// empty.
    pub fn from_slice(x: &[u64], pool: &mut BuddyPool, journal: &mut Journal) -> (r: Option<Vec>)
        requires
            old(pool).inv(),
            8 * x@.len() <= 0x8000_0000_0000_0000,
            8 * x@.len() <= usize::MAX,
            old(journal).records().len() < usize::MAX,
        ensures
            final(journal).copies() == old(journal).copies(),
            final(journal).flag_word() == old(journal).flag_word(),
            final(journal).nesting() == old(journal).nesting(),
            final(journal).home() == old(journal).home(),
            r is None == (x@.len() > 0 && forall|y: int|
                0 <= y < old(pool).zone_total() ==> alloc_fails(#[trigger] old(pool).zone_list()[y], 8 * x@.len() as int)),
            r is None ==> kept(*old(pool), *final(pool)) && final(journal).records() == old(journal).records(),
            r matches Some(v) ==> {
                &&& v.wf(*final(pool))
                &&& v.items(final(pool).image()) == x@
                &&& v.room() == x@.len()
                &&& kept_outside(*old(pool), *final(pool), v.loc() as int, block_bytes(v.room() as int))
                &&& kept_outside(*old(pool), *final(pool), v.loc() as int, 8 * v.room())
                &&& forall|p: int| #[trigger] range_live(p, 1, old(pool).zone_list()) ==> !(v.loc() <= p < v.loc() + 8 * v.room())
                &&& x@.len() == 0 ==> final(journal).records() == old(journal).records()
                &&& x@.len() > 0 ==> final(journal).records() == old(journal).records().push(
                    Log(LogEnum::DropOnFailure(v.loc(), (8 * x@.len()) as usize), Notifier::Empty),
                )
            },
    {
        let ghost p0 = *pool;
        match Self::with_capacity(x.len(), pool, journal) {
            None => None,
            Some(v) => {
                let mut v = v;
                let ghost p1 = *pool;
                proof {
                    assert(v.items(p1.image()) =~= Seq::<u64>::empty());
                }
                v.append_within(x, pool);
                proof {
                    assert(v.items(pool.image()) =~= x@);
                    assert forall|p: int|
                        0 <= p < p0.image().len() && range_live(p, 1, p0.zone_list()) && !(v.loc() <= p < v.loc()
                            + block_bytes(v.room() as int)) implies #[trigger] pool.image()[p] == p0.image()[p] by {
                        assert(range_live(p, 1, p1.zone_list()));
                    }
                    assert forall|p: int|
                        0 <= p < p0.image().len() && range_live(p, 1, p0.zone_list()) && !(v.loc() <= p < v.loc()
                            + 8 * v.room()) implies #[trigger] pool.image()[p] == p0.image()[p] by {
                        assert(range_live(p, 1, p1.zone_list()));
                    }
                }
                Some(v)
            },
        }
    }

    /// Appends `other`, first growing the capacity, as `reserve` does, to
    /// hold the elements when it does not. Returns false, with nothing
    /// changed, when no zone has room for a larger block.
    pub fn extend_from_slice(&mut self, other: &[u64], pool: &mut BuddyPool, journal: &mut Journal) -> (ok: bool)
        requires
            old(pool).inv(),
            old(self).wf(*old(pool)),
            8 * (old(self).size() + old(self).room() + other@.len()) <= 0x8000_0000_0000_0000,
            8 * (old(self).size() + old(self).room() + other@.len()) <= usize::MAX,
            old(self).size() + other@.len() <= old(self).room() || grown(
                old(self).size() as int,
                old(self).room() as int,
                old(self).size() + other@.len() - old(self).room(),
            ) >= old(self).size() + other@.len(),
            old(journal).records().len() + 2 < usize::MAX,
        ensures
            final(self).wf(*final(pool)),
            kept_outside(*old(pool), *final(pool), final(self).loc() as int, block_bytes(final(self).room() as int)),
            moved_records(*old(journal), *final(journal), *old(self), *final(self)),
            ok == (other@.len() == 0 || can_grow(
                *old(pool),
                old(self).size() as int,
                old(self).room() as int,
                extension(old(self).size() as int, old(self).room() as int, other@.len() as int),
            )),
            old(self).size() + other@.len() <= old(self).room() ==> ok && final(self).loc() == old(self).loc()
                && final(self).room() == old(self).room(),
            ok ==> final(self).items(final(pool).image()) == old(self).items(old(pool).image()) + other@,
            !ok ==> *final(self) == *old(self) && final(self).items(final(pool).image()) == old(self).items(old(pool).image()),
    {
        if other.len() == 0 {
            proof {
                assert forall|p: int| 0 <= p < pool.image().len() && range_live(p, 1, pool.zone_list()) implies #[trigger] pool.image()[p]
                    == old(pool).image()[p] by {}
                assert(old(self).items(old(pool).image()) + other@ =~= old(self).items(old(pool).image()));
            }
            return true;
        }
        let len = self.len;
        let cap = self.cap;
        let need = len + other.len();
        let new_cap = if cap > need {
            cap
        } else {
            need
        };
        let ghost p0 = *pool;
        if !self.reserve(new_cap - cap, pool, journal) {
            return false;
        }
        let ghost p1 = *pool;
        self.append_within(other, pool);
        proof {
            assert forall|p: int|
                0 <= p < p0.image().len() && range_live(p, 1, p0.zone_list()) && !(self.loc() <= p < self.loc() + block_bytes(
                    self.room() as int,
                )) implies #[trigger] pool.image()[p] == p0.image()[p] by {
                assert(range_live(p, 1, p1.zone_list()));
            }
        }
        true
    }
}

impl Vec {
    /// Splits the vector at `at`: this one keeps the first `at` elements,
    /// and a new vector, in a new block freed if the transaction fails,
    /// holds the rest. `None`, with nothing changed, when no zone has room
    /// for that block.
    pub fn split_off(&mut self, at: usize, pool: &mut BuddyPool, journal: &mut Journal) -> (r: Option<Vec>)
        requires
            old(pool).inv(),
            old(self).wf(*old(pool)),
            at <= old(self).size(),
            old(journal).records().len() < usize::MAX,
        ensures
            final(journal).copies() == old(journal).copies(),
            final(journal).flag_word() == old(journal).flag_word(),
            final(journal).nesting() == old(journal).nesting(),
            final(journal).home() == old(journal).home(),
            r is None == (at < old(self).size() && forall|y: int|
                0 <= y < old(pool).zone_total() ==> alloc_fails(#[trigger] old(pool).zone_list()[y], 8 * (old(self).size() - at))),
            r is None ==> {
                &&& *final(self) == *old(self)
                &&& kept(*old(pool), *final(pool))
                &&& final(journal).records() == old(journal).records()
            },
            r matches Some(o) ==> {
                &&& final(self).wf(*final(pool))
                &&& o.wf(*final(pool))
                &&& final(self).loc() == old(self).loc()
                &&& final(self).room() == old(self).room()
                &&& final(self).items(final(pool).image()) == old(self).items(old(pool).image()).take(at as int)
                &&& o.items(final(pool).image()) == old(self).items(old(pool).image()).skip(at as int)
                &&& o.room() == old(self).size() - at
                &&& kept_outside(*old(pool), *final(pool), o.loc() as int, 8 * o.room())
                &&& at == old(self).size() ==> final(journal).records() == old(journal).records()
                &&& at < old(self).size() ==> final(journal).records() == old(journal).records().push(
                    Log(LogEnum::DropOnFailure(o.loc(), (8 * (old(self).size() - at)) as usize), Notifier::Empty),
                )
            },
    {
        let ghost items0 = self.items(pool.image());
        let mut tail: std::vec::Vec<u64> = std::vec::Vec::new();
        let mut i: usize = at;
        while i < self.len
            invariant
                at <= i <= self.size(),
                pool.inv(),
                self.wf(*pool),
                items0 == self.items(pool.image()),
                tail@ == items0.subrange(at as int, i as int),
            decreases self.size() - i,
        {
            let w = self.at(pool, i);
            tail.push(w);
            i = i + 1;
            proof {
                assert(tail@ =~= items0.subrange(at as int, i as int));
            }
        }
        proof {
            assert(tail@ =~= items0.skip(at as int));
        }
        let ghost p0 = *pool;
        match Vec::from_slice(tail.as_slice(), pool, journal) {
            None => None,
            Some(o) => {
                let ghost v0 = *self;
                self.len = at;
                proof {
                    pool.lemma_image_bound();
                    if v0.room() > 0 {
                        v0.lemma_room(p0);
                    }
                    assert forall|j: int| 0 <= j < at implies #[trigger] self.items(pool.image())[j] == items0[j] by {
                        lemma_live_sub(v0.loc() as int, 8 * v0.room(), v0.loc() + 8 * j, 8, p0.zone_list());
                        if o.room() > 0 {
                            lemma_apart(p0.zone_list(), v0.loc() + 8 * j, 8, o.loc() as int, 8 * o.room());
                        }
                        lemma_rd_kept(p0, *pool, o.loc() as int, 8 * o.room(), v0.loc() + 8 * j);
                    }
                    assert(self.items(pool.image()) =~= items0.take(at as int));
                    if v0.room() > 0 {
                        assert(range_live(v0.loc() as int, block_bytes(v0.room() as int), pool.zone_list()));
                    }
                }
                Some(o)
            },
        }
    }

    /// Moves the elements of `other` to the end of this vector, growing the
    /// capacity as `extend_from_slice` does, and leaves `other` empty.
    /// Returns false, with nothing changed, when no zone has room for a
    /// larger block.
    pub fn append(&mut self, other: &mut Vec, pool: &mut BuddyPool, journal: &mut Journal) -> (ok: bool)
        requires
            old(pool).inv(),
            old(self).wf(*old(pool)),
            old(other).wf(*old(pool)),
            8 * (old(self).size() + old(self).room() + old(other).size()) <= 0x8000_0000_0000_0000,
            8 * (old(self).size() + old(self).room() + old(other).size()) <= usize::MAX,
            old(self).size() + old(other).size() <= old(self).room() || grown(
                old(self).size() as int,
                old(self).room() as int,
                old(self).size() + old(other).size() - old(self).room(),
            ) >= old(self).size() + old(other).size(),
            old(journal).records().len() + 2 < usize::MAX,
        ensures
            final(self).wf(*final(pool)),
            final(other).wf(*final(pool)),
            kept_outside(*old(pool), *final(pool), final(self).loc() as int, block_bytes(final(self).room() as int)),
            moved_records(*old(journal), *final(journal), *old(self), *final(self)),
            final(other).loc() == old(other).loc(),
            final(other).room() == old(other).room(),
            ok == (old(other).size() == 0 || can_grow(
                *old(pool),
                old(self).size() as int,
                old(self).room() as int,
                extension(old(self).size() as int, old(self).room() as int, old(other).size() as int),
            )),
            ok ==> final(self).items(final(pool).image()) == old(self).items(old(pool).image()) + old(other).items(
                old(pool).image(),
            ),
            ok ==> final(other).size() == 0,
            !ok ==> {
                &&& *final(self) == *old(self)
                &&& *final(other) == *old(other)
                &&& final(self).items(final(pool).image()) == old(self).items(old(pool).image())
            },
    {
        let xs = other.as_slice(pool);
        let ghost p0 = *pool;
        let ok = self.extend_from_slice(xs.as_slice(), pool, journal);
        proof {
            if other.room() > 0 {
                assert(range_live(other.loc() as int, block_bytes(other.room() as int), pool.zone_list()));
            }
        }
        if ok {
            other.len = 0;
        }
        ok
    }
}

} // verus!
