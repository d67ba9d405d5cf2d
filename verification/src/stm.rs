//! Undo journals of failure-atomic transactions. A data log keeps, in a block
//! of the pool, a copy of bytes that a transaction is about to change; drop
//! logs name blocks to free when the transaction commits, aborts or fails.

use vstd::prelude::*;
use crate::pmem::{NONE_OFF, copied, written, rd, wr, lemma_wr};
use crate::pool::{BuddyPool, range_live, live_byte};
use crate::buddy::{blk, order_for, is_free, in_zone, apart};

verus! {

/// Flag of a journal whose transaction is over.
pub const JOURNAL_COMMITTED: u64 = 1;

/// One record of a journal.
#[derive(Clone, Copy, Debug, PartialEq, Eq, Structural)]
pub enum LogEnum {
    /// The bytes `[src, src + len)` have a copy at `log`.
    DataLog(u64, u64, usize),
    /// The block at `src` of `len` bytes is freed if the transaction aborts.
    DropOnAbort(u64, usize),
    /// The block at `src` of `len` bytes is freed when the transaction commits.
    DropOnCommit(u64, usize),
    /// The block at `src` of `len` bytes is freed if the transaction fails.
    DropOnFailure(u64, usize),
    /// The counter at `src` moves up (`true`) or down by one if the
    /// transaction fails.
    RecountOnFailure(u64, bool),
    /// The lock at `src` is released when the transaction commits.
    UnlockOnCommit(u64),
    /// An empty record.
    Empty,
}

/// The flag byte that tells whether a data log exists for an object.
#[derive(Clone, Copy, Debug, PartialEq, Eq, Structural)]
pub enum Notifier {
    /// Updated atomically.
    Atomic(u64),
    /// Updated with a plain store.
    NonAtomic(u64),
    /// No flag.
    Empty,
}

/// Offset of a notifier's flag byte, or the null offset.
pub open spec fn notifier_off(n: Notifier) -> u64 {
    match n {
        Notifier::Atomic(o) => o,
        Notifier::NonAtomic(o) => o,
        Notifier::Empty => NONE_OFF,
    }
}

impl Notifier {
    /// Offset of the flag byte, or the null offset.
    pub fn off(&self) -> (r: u64)
        ensures
            r == notifier_off(*self),
    {
        match self {
            Notifier::Atomic(o) => *o,
            Notifier::NonAtomic(o) => *o,
            Notifier::Empty => NONE_OFF,
        }
    }
}

/// A journal record with the flag byte that it sets.
#[derive(Clone, Copy, Debug, PartialEq, Eq, Structural)]
pub struct Log(pub LogEnum, pub Notifier);

/// Name of a record's kind.
pub open spec fn kind_name(l: LogEnum) -> Seq<char> {
    match l {
        LogEnum::DataLog(_, _, _) => "DataLog"@,
        LogEnum::DropOnAbort(_, _) => "DropOnAbort"@,
        LogEnum::DropOnCommit(_, _) => "DropOnCommit"@,
        LogEnum::DropOnFailure(_, _) => "DropOnFailure"@,
        LogEnum::RecountOnFailure(_, _) => "RecountOnFailure"@,
        LogEnum::UnlockOnCommit(_) => "UnlockOnCommit"@,
        LogEnum::Empty => "None"@,
    }
}

impl Log {
    /// A record with its notifier.
    pub fn new(log: LogEnum, notifier: Notifier) -> (r: Log)
        ensures
            r == Log(log, notifier),
    {
        Log(log, notifier)
    }

    /// Name of the record's kind.
    pub fn kind(&self) -> (r: String)
        ensures
            r@ == kind_name(self.0),
    {
        match self.0 {
            LogEnum::DataLog(_, _, _) => "DataLog".to_owned(),
            LogEnum::DropOnAbort(_, _) => "DropOnAbort".to_owned(),
            LogEnum::DropOnCommit(_, _) => "DropOnCommit".to_owned(),
            LogEnum::DropOnFailure(_, _) => "DropOnFailure".to_owned(),
            LogEnum::RecountOnFailure(_, _) => "RecountOnFailure".to_owned(),
            LogEnum::UnlockOnCommit(_) => "UnlockOnCommit".to_owned(),
            LogEnum::Empty => "None".to_owned(),
        }
    }

    /// The record.
    pub fn inner(&self) -> (r: LogEnum)
        ensures
            r == self.0,
    {
        self.0
    }
}

/// The journal of a transaction.
pub struct Journal {
    logs: Vec<Log>,
    saved: Vec<Vec<u8>>,
    depth: u32,
    gen: u32,
    flags: u64,
    sec_id: u64,
    prev_off: u64,
    next_off: u64,
    cpu: usize,
}

impl Journal {
    /// The records, oldest first.
    pub closed spec fn records(&self) -> Seq<Log> {
        self.logs@
    }

    /// The saved copies of data logs.
    pub closed spec fn copies(&self) -> Seq<Seq<u8>> {
        Seq::new(self.saved@.len(), |i: int| self.saved@[i]@)
    }

    /// The flag word.
    pub closed spec fn flag_word(&self) -> u64 {
        self.flags
    }

    /// How many transactions, one inside the other, use the journal.
    pub closed spec fn nesting(&self) -> u32 {
        self.depth
    }

    /// The chaperoned session the journal belongs to; 0 for none.
    pub closed spec fn session(&self) -> u64 {
        self.sec_id
    }

    /// The generation number.
    pub closed spec fn spec_gen(&self) -> u32 {
        self.gen
    }

    /// The journal holds no more records and copies than a vector can.
    pub proof fn lemma_bounds(&self)
        ensures
            self.records().len() <= usize::MAX,
            self.copies().len() <= usize::MAX,
    {
        assert(self.logs@.len() == self.logs.len());
        assert(self.saved@.len() == self.saved.len());
    }

    /// The processor whose zone the journal allocates from first.
    pub closed spec fn home(&self) -> usize {
        self.cpu
    }

    /// An empty journal of generation `gen` for processor `cpu`.
    pub fn new(gen: u32, cpu: usize) -> (r: Journal)
        ensures
            r.records() == Seq::<Log>::empty(),
            r.copies() == Seq::<Seq<u8>>::empty(),
            r.flag_word() == 0,
            r.nesting() == 0,
            r.spec_gen() == gen,
            r.home() == cpu,
    {
        Journal {
            logs: Vec::new(),
            saved: Vec::new(),
            depth: 0,
            gen,
            flags: 0,
            sec_id: 0,
            prev_off: NONE_OFF,
            next_off: NONE_OFF,
            cpu,
        }
    }

    /// The processor whose zone the journal allocates from first.
    pub fn cpu(&self) -> (r: usize)
        ensures
            r == self.home(),
    {
        self.cpu
    }

    /// The generation number.
    pub fn gen(&self) -> (r: u32)
        ensures
            r == self.spec_gen(),
    {
        self.gen
    }

    /// Whether all bits of `flag` are set.
    pub fn is_set(&self, flag: u64) -> (r: bool)
        ensures
            r == (self.flag_word() & flag == flag),
    {
        self.flags & flag == flag
    }

    /// Whether the transaction is over.
    pub fn is_committed(&self) -> (r: bool)
        ensures
            r == (self.flag_word() & JOURNAL_COMMITTED == JOURNAL_COMMITTED),
    {
        self.is_set(JOURNAL_COMMITTED)
    }

    /// Sets the bits of `flag`.
    pub fn set(&mut self, flag: u64)
        ensures
            final(self).flag_word() == old(self).flag_word() | flag,
            final(self).nesting() == old(self).nesting(),
            final(self).records() == old(self).records(),
            final(self).copies() == old(self).copies(),
            final(self).spec_gen() == old(self).spec_gen(),
            final(self).home() == old(self).home(),
    {
        self.flags = self.flags | flag;
    }

    /// Clears the bits of `flag`.
    pub fn unset(&mut self, flag: u64)
        ensures
            final(self).flag_word() == old(self).flag_word() & !flag,
            final(self).nesting() == old(self).nesting(),
            final(self).records() == old(self).records(),
            final(self).copies() == old(self).copies(),
            final(self).spec_gen() == old(self).spec_gen(),
            final(self).home() == old(self).home(),
    {
        self.flags = self.flags & !flag;
    }

    /// Appends a record and returns its position.
    pub fn write(&mut self, log: LogEnum, notifier: Notifier) -> (r: usize)
        requires
            old(self).records().len() < usize::MAX,
        ensures
            r == old(self).records().len(),
            final(self).records() == old(self).records().push(Log(log, notifier)),
            final(self).copies() == old(self).copies(),
            final(self).flag_word() == old(self).flag_word(),
            final(self).spec_gen() == old(self).spec_gen(),
            final(self).home() == old(self).home(),
            final(self).nesting() == old(self).nesting(),
    {
        let r = self.logs.len();
        self.logs.push(Log(log, notifier));
        r
    }
}

impl Log {
    /// Records that the block at `offset` of `len` bytes is freed when the
    /// transaction commits.
    pub fn drop_on_commit(offset: u64, len: usize, journal: &mut Journal) -> (r: usize)
        requires
            len != 0,
            old(journal).records().len() < usize::MAX,
        ensures
            r == old(journal).records().len(),
            final(journal).records() == old(journal).records().push(Log(LogEnum::DropOnCommit(offset, len), Notifier::Empty)),
            final(journal).flag_word() == old(journal).flag_word(),
            final(journal).copies() == old(journal).copies(),
            final(journal).home() == old(journal).home(),
            final(journal).nesting() == old(journal).nesting(),
    {
        journal.write(LogEnum::DropOnCommit(offset, len), Notifier::Empty)
    }

    /// Records that the block at `offset` of `len` bytes is freed if the
    /// transaction aborts.
    pub fn drop_on_abort(offset: u64, len: usize, journal: &mut Journal) -> (r: usize)
        requires
            len != 0,
            old(journal).records().len() < usize::MAX,
        ensures
            r == old(journal).records().len(),
            final(journal).records() == old(journal).records().push(Log(LogEnum::DropOnAbort(offset, len), Notifier::Empty)),
            final(journal).flag_word() == old(journal).flag_word(),
            final(journal).copies() == old(journal).copies(),
            final(journal).home() == old(journal).home(),
            final(journal).nesting() == old(journal).nesting(),
    {
        journal.write(LogEnum::DropOnAbort(offset, len), Notifier::Empty)
    }

    /// Records that the block at `offset` of `len` bytes is freed if the
    /// transaction fails.
    pub fn drop_on_failure(offset: u64, len: usize, journal: &mut Journal) -> (r: usize)
        requires
            len != 0,
            old(journal).records().len() < usize::MAX,
        ensures
            r == old(journal).records().len(),
            final(journal).records() == old(journal).records().push(Log(LogEnum::DropOnFailure(offset, len), Notifier::Empty)),
            final(journal).flag_word() == old(journal).flag_word(),
            final(journal).copies() == old(journal).copies(),
            final(journal).home() == old(journal).home(),
            final(journal).nesting() == old(journal).nesting(),
    {
        journal.write(LogEnum::DropOnFailure(offset, len), Notifier::Empty)
    }

    /// Records that the lock at `offset` is released when the transaction
    /// commits.
    pub fn unlock_on_commit(offset: u64, journal: &mut Journal) -> (r: usize)
        requires
            old(journal).records().len() < usize::MAX,
        ensures
            r == old(journal).records().len(),
            final(journal).records() == old(journal).records().push(Log(LogEnum::UnlockOnCommit(offset), Notifier::Empty)),
            final(journal).flag_word() == old(journal).flag_word(),
            final(journal).copies() == old(journal).copies(),
            final(journal).home() == old(journal).home(),
            final(journal).nesting() == old(journal).nesting(),
    {
        journal.write(LogEnum::UnlockOnCommit(offset), Notifier::Empty)
    }

    /// Records that the counter at `offset` is moved up (`inc`) or down by
    /// one if the transaction fails: down to undo an increment, up to undo a
    /// decrement.
    pub fn recount_on_failure(offset: u64, inc: bool, journal: &mut Journal) -> (r: usize)
        requires
            old(journal).records().len() < usize::MAX,
        ensures
            r == old(journal).records().len(),
            final(journal).records() == old(journal).records().push(Log(LogEnum::RecountOnFailure(offset, inc), Notifier::Empty)),
            final(journal).flag_word() == old(journal).flag_word(),
            final(journal).copies() == old(journal).copies(),
            final(journal).home() == old(journal).home(),
            final(journal).nesting() == old(journal).nesting(),
    {
        journal.write(LogEnum::RecountOnFailure(offset, inc), Notifier::Empty)
    }
}

} // verus!

verus! {

/// Image `s` with the flag byte of notifier `n`, if any, set to `v`.
pub open spec fn flag_set(s: Seq<u8>, n: Notifier, v: u8) -> Seq<u8> {
    let o = notifier_off(n);
    if o != NONE_OFF && o < s.len() {
        s.update(o as int, v)
    } else {
        s
    }
}

/// The flag byte of notifier `n`, if any, is a live byte of the pool.
pub open spec fn flag_live(n: Notifier, len: int, zs: Seq<crate::buddy::BuddyAlg>) -> bool {
    let o = notifier_off(n);
    o != NONE_OFF ==> o < len && range_live(o as int, 1, zs)
}

/// The record is a data log of an object.
pub open spec fn live_data(l: Log) -> bool {
    l.0 matches LogEnum::DataLog(src, _, _) && src != NONE_OFF
}

/// Image `s` after clearing the flags of the data logs among the first `n`
/// records.
pub open spec fn flags_cleared(s: Seq<u8>, logs: Seq<Log>, n: int) -> Seq<u8>
    decreases n,
{
    if n <= 0 {
        s
    } else {
        let s1 = flags_cleared(s, logs, n - 1);
        if live_data(logs[n - 1]) {
            flag_set(s1, logs[n - 1].1, 0)
        } else {
            s1
        }
    }
}

/// Image `s` after writing back, in order, the copies of the data logs among
/// the first `n` records, each also clearing its flag.
pub open spec fn restored(s: Seq<u8>, logs: Seq<Log>, copies: Seq<Seq<u8>>, n: int) -> Seq<u8>
    decreases n,
{
    if n <= 0 {
        s
    } else {
        let s1 = restored(s, logs, copies, n - 1);
        match logs[n - 1].0 {
            LogEnum::DataLog(src, li, _) => if src != NONE_OFF && li < copies.len() {
                flag_set(written(s1, src as int, copies[li as int]), logs[n - 1].1, 0)
            } else {
                s1
            },
            _ => s1,
        }
    }
}

/// Every data log's copy exists with its length, and its source bytes and
/// flag byte are live bytes of the pool.
pub open spec fn logs_live(logs: Seq<Log>, copies: Seq<Seq<u8>>, size: int, zs: Seq<crate::buddy::BuddyAlg>) -> bool {
    forall|i: int|
        0 <= i < logs.len() ==> match (#[trigger] logs[i]).0 {
            LogEnum::DataLog(src, li, len) => src != NONE_OFF ==> {
                &&& li < copies.len()
                &&& copies[li as int].len() == len
                &&& src + len <= size
                &&& range_live(src as int, len as int, zs)
                &&& flag_live(logs[i].1, size, zs)
            },
            _ => true,
        }
}

impl Notifier {
    /// Sets the flag byte, if any, to `v`.
    pub fn update(&self, pool: &mut BuddyPool, v: u8)
        requires
            old(pool).inv(),
            flag_live(*self, old(pool).image().len() as int, old(pool).zone_list()),
        ensures
            final(pool).image().len() == old(pool).image().len(),
            final(pool).inv(),
            final(pool).image() == flag_set(old(pool).image(), *self, v),
            final(pool).zone_list() == old(pool).zone_list(),
            final(pool).zone_total() == old(pool).zone_total(),
            final(pool).zone_quota() == old(pool).zone_quota(),
            final(pool).pool_size() == old(pool).pool_size(),
    {
        let o = self.off();
        if o != NONE_OFF {
            pool.write_byte(o, v);
        }
    }
}

impl Log {
    /// Tells the owner of a data log's source, through its flag, that the
    /// data is logged (`v` 1) or not (`v` 0); other records have no owner to
    /// tell.
    pub fn notify(&self, pool: &mut BuddyPool, v: u8)
        requires
            old(pool).inv(),
            flag_live(self.1, old(pool).image().len() as int, old(pool).zone_list()),
        ensures
            final(pool).inv(),
            final(pool).image() == match self.0 {
                LogEnum::DataLog(src, _, _) => if src != NONE_OFF {
                    flag_set(old(pool).image(), self.1, v)
                } else {
                    old(pool).image()
                },
                _ => old(pool).image(),
            },
            final(pool).zone_list() == old(pool).zone_list(),
            final(pool).zone_total() == old(pool).zone_total(),
            final(pool).zone_quota() == old(pool).zone_quota(),
            final(pool).pool_size() == old(pool).pool_size(),
    {
        if let LogEnum::DataLog(src, _, _) = self.0 {
            if src != NONE_OFF {
                self.1.update(pool, v);
            }
        }
    }

    /// Records a data log for the `len` bytes at `src`, keeping a copy of
    /// them, and sets the notifier's flag; a record only when `len` is not 0.
    pub fn create(pool: &mut BuddyPool, journal: &mut Journal, src: u64, len: usize, notifier: Notifier) -> (r: Option<
        usize,
    >)
        requires
            old(pool).inv(),
            src + len <= old(pool).image().len(),
            flag_live(notifier, old(pool).image().len() as int, old(pool).zone_list()),
            old(journal).records().len() < usize::MAX,
        ensures
            final(pool).inv(),
            final(pool).image() == flag_set(old(pool).image(), notifier, 1),
            final(pool).zone_list() == old(pool).zone_list(),
            final(pool).zone_total() == old(pool).zone_total(),
            final(pool).zone_quota() == old(pool).zone_quota(),
            final(pool).pool_size() == old(pool).pool_size(),
            final(journal).flag_word() == old(journal).flag_word(),
            final(journal).home() == old(journal).home(),
            final(journal).nesting() == old(journal).nesting(),
            len == 0 ==> r is None && final(journal).records() == old(journal).records() && final(journal).copies()
                == old(journal).copies(),
            len != 0 ==> {
                &&& r == Some(old(journal).records().len() as usize)
                &&& final(journal).records() == old(journal).records().push(
                    Log(LogEnum::DataLog(src, old(journal).copies().len() as u64, len), notifier),
                )
                &&& final(journal).copies() == old(journal).copies().push(
                    old(pool).image().subrange(src as int, src + len),
                )
            },
    {
        if len == 0 {
            notifier.update(pool, 1);
            return None;
        }
        let copy = pool.read_bytes(src, len as u64);
        let li = journal.saved.len();
        journal.saved.push(copy);
        let r = journal.write(LogEnum::DataLog(src, li as u64, len), notifier);
        proof {
            assert(journal.copies() =~= old(journal).copies().push(old(pool).image().subrange(src as int, src + len)));
        }
        notifier.update(pool, 1);
        Some(r)
    }
}

impl Journal {
    /// Clears the flags of the data logs among the records, in order.
    fn notify_all(&self, pool: &mut BuddyPool)
        requires
            old(pool).inv(),
            logs_live(self.records(), self.copies(), old(pool).image().len() as int, old(pool).zone_list()),
        ensures
            final(pool).image().len() == old(pool).image().len(),
            final(pool).inv(),
            final(pool).image() == flags_cleared(old(pool).image(), self.records(), self.records().len() as int),
            final(pool).zone_list() == old(pool).zone_list(),
            final(pool).zone_total() == old(pool).zone_total(),
            final(pool).zone_quota() == old(pool).zone_quota(),
            final(pool).pool_size() == old(pool).pool_size(),
    {
        let mut i: usize = 0;
        while i < self.logs.len()
            invariant
                i <= self.records().len(),
                pool.inv(),
                logs_live(self.records(), self.copies(), pool.image().len() as int, pool.zone_list()),
                pool.image() == flags_cleared(old(pool).image(), self.records(), i as int),
                pool.image().len() == old(pool).image().len(),
                pool.zone_list() == old(pool).zone_list(),
                pool.zone_total() == old(pool).zone_total(),
                pool.zone_quota() == old(pool).zone_quota(),
                pool.pool_size() == old(pool).pool_size(),
            decreases self.records().len() - i,
        {
            let l = self.logs[i];
            proof {
                assert(l == self.records()[i as int]);
            }
            match l.0 {
                LogEnum::DataLog(src, _, _) => {
                    if src != NONE_OFF {
                        l.1.update(pool, 0);
                    }
                },
                _ => {},
            }
            i = i + 1;
        }
    }

    /// Writes back the copies of the data logs, in order, clearing their flags.
    fn restore_all(&mut self, pool: &mut BuddyPool)
        requires
            old(pool).inv(),
            logs_live(old(self).records(), old(self).copies(), old(pool).image().len() as int, old(pool).zone_list()),
        ensures
            final(self).nesting() == old(self).nesting(),
            final(pool).image().len() == old(pool).image().len(),
            final(pool).inv(),
            final(pool).image() == restored(
                old(pool).image(),
                old(self).records(),
                old(self).copies(),
                old(self).records().len() as int,
            ),
            final(pool).zone_list() == old(pool).zone_list(),
            final(pool).zone_total() == old(pool).zone_total(),
            final(pool).zone_quota() == old(pool).zone_quota(),
            final(pool).pool_size() == old(pool).pool_size(),
            final(self).records().len() == old(self).records().len(),
            forall|i: int| 0 <= i < old(self).records().len() ==> (#[trigger] final(self).records()[i]).0 == old(self).records()[i].0,
            final(self).copies() == old(self).copies(),
            final(self).flag_word() == old(self).flag_word(),
            final(self).home() == old(self).home(),
    {
        let ghost logs0 = self.records();
        let mut i: usize = 0;
        while i < self.logs.len()
            invariant
                i <= self.records().len(),
                self.records().len() == logs0.len(),
                forall|j: int| 0 <= j < logs0.len() ==> (#[trigger] self.records()[j]).0 == logs0[j].0,
                forall|j: int| i <= j < logs0.len() ==> #[trigger] self.records()[j] == logs0[j],
                self.copies() == old(self).copies(),
                self.flag_word() == old(self).flag_word(),
                self.nesting() == old(self).nesting(),
                self.home() == old(self).home(),
                pool.inv(),
                logs_live(logs0, self.copies(), pool.image().len() as int, pool.zone_list()),
                pool.image() == restored(old(pool).image(), logs0, self.copies(), i as int),
                pool.image().len() == old(pool).image().len(),
                pool.zone_list() == old(pool).zone_list(),
                pool.zone_total() == old(pool).zone_total(),
                pool.zone_quota() == old(pool).zone_quota(),
                pool.pool_size() == old(pool).pool_size(),
            decreases logs0.len() - i,
        {
            let l = self.logs[i];
            proof {
                assert(l == logs0[i as int]);
            }
            match l.0 {
                LogEnum::DataLog(src, li, len) => {
                    if src != NONE_OFF && (li as usize) < self.saved.len() {
                        proof {
                            assert(logs_live(logs0, self.copies(), pool.image().len() as int, pool.zone_list()));
                            assert(match logs0[i as int].0 {
                                LogEnum::DataLog(src, li, len) => src != NONE_OFF ==> {
                                    &&& li < self.copies().len()
                                    &&& self.copies()[li as int].len() == len
                                    &&& src + len <= pool.image().len()
                                    &&& range_live(src as int, len as int, pool.zone_list())
                                    &&& flag_live(logs0[i as int].1, pool.image().len() as int, pool.zone_list())
                                },
                                _ => true,
                            });
                            assert(self.saved@[li as int]@ == self.copies()[li as int]);
                        }
                        pool.write_bytes(src, self.saved[li as usize].as_slice());
                        l.1.update(pool, 0);
                        self.logs.set(i, Log(l.0, Notifier::Empty));
                    }
                },
                _ => {},
            }
            i = i + 1;
        }
    }
}

} // verus!

verus! {

/// Byte `p` is free in some zone.
pub open spec fn pool_free(zs: Seq<crate::buddy::BuddyAlg>, p: int) -> bool {
    exists|y: int| 0 <= y < zs.len() && is_free((#[trigger] zs[y]).free_lists(), p)
}

/// The block that a record of kind `on` (0: commit, 1: abort, 2: failure)
/// frees, if it names one.
pub open spec fn drop_of(l: LogEnum, on: u8) -> Option<(u64, usize)> {
    match l {
        LogEnum::DropOnCommit(o, n) => if on == 0 && o != NONE_OFF { Some((o, n)) } else { None },
        LogEnum::DropOnAbort(o, n) => if on == 1 && o != NONE_OFF { Some((o, n)) } else { None },
        LogEnum::DropOnFailure(o, n) => if on == 2 && o != NONE_OFF { Some((o, n)) } else { None },
        _ => None,
    }
}

/// Byte `p` lies in the block that the record frees on `on`.
pub open spec fn drop_covers(l: LogEnum, on: u8, p: int) -> bool {
    drop_of(l, on) matches Some((o, n)) && o <= p < o + blk(order_for(n as int))
}

/// The pool can free the block at `off` that was allocated for `len` bytes.
pub open spec fn block_ok(pool: BuddyPool, off: u64, len: usize) -> bool {
    let z = off / (pool.zone_quota() as u64);
    &&& z < pool.zone_total()
    &&& {
        let a = pool.zone_list()[z as int];
        let k = order_for(len as int);
        &&& 0 < len <= a.zone_size()
        &&& in_zone(off as int, k, a.zone_base(), a.zone_size())
        &&& forall|p: int| off <= p < off + blk(k) ==> !#[trigger] is_free(a.free_lists(), p)
    }
}

/// The blocks that the records free on `on` can all be freed, and they do not
/// overlap.
pub open spec fn drops_ok(logs: Seq<Log>, on: u8, pool: BuddyPool) -> bool {
    &&& forall|i: int|
        0 <= i < logs.len() ==> ((#[trigger] drop_of(logs[i].0, on)) matches Some((o, n)) ==> block_ok(pool, o, n))
    &&& forall|i: int, j: int|
        0 <= i < j < logs.len() ==> ((#[trigger] drop_of(logs[i].0, on)) matches Some((o1, n1)) ==> ((#[trigger] drop_of(
            logs[j].0,
            on,
        )) matches Some((o2, n2)) ==> apart(o1 as int, order_for(n1 as int), o2 as int, order_for(n2 as int))))
}

/// The record with its block, if it frees one on `on`, marked as done.
pub open spec fn drop_done(l: Log, on: u8) -> Log {
    match l.0 {
        LogEnum::DropOnCommit(_, n) => if on == 0 { Log(LogEnum::DropOnCommit(NONE_OFF, n), l.1) } else { l },
        LogEnum::DropOnAbort(_, n) => if on == 1 { Log(LogEnum::DropOnAbort(NONE_OFF, n), l.1) } else { l },
        LogEnum::DropOnFailure(_, n) => if on == 2 { Log(LogEnum::DropOnFailure(NONE_OFF, n), l.1) } else { l },
        _ => l,
    }
}

/// Freeing one block keeps every block apart from it freeable.
proof fn lemma_drop_keeps(pb: BuddyPool, pa: BuddyPool, o: u64, n: usize, o2: u64, n2: usize)
    requires
        pa.zone_total() == pb.zone_total(),
        pa.zone_quota() == pb.zone_quota(),
        0 < pb.zone_quota() <= u64::MAX,
        block_ok(pb, o, n),
        block_ok(pb, o2, n2),
        apart(o as int, order_for(n as int), o2 as int, order_for(n2 as int)),
        ({
            let z = (o / (pb.zone_quota() as u64)) as int;
            &&& forall|y: int| 0 <= y < pb.zone_total() && y != z ==> #[trigger] pa.zone_list()[y] == pb.zone_list()[y]
            &&& pa.zone_list()[z].zone_base() == pb.zone_list()[z].zone_base()
            &&& pa.zone_list()[z].zone_size() == pb.zone_list()[z].zone_size()
            &&& forall|p: int| #[trigger] is_free(pa.zone_list()[z].free_lists(), p) <==> is_free(pb.zone_list()[z].free_lists(), p)
                || (o <= p < o + blk(order_for(n as int)))
        }),
    ensures
        block_ok(pa, o2, n2),
{
    let z = (o / (pb.zone_quota() as u64)) as int;
    let z2 = (o2 / (pb.zone_quota() as u64)) as int;
    if z2 != z {
        assert(pa.zone_list()[z2] == pb.zone_list()[z2]);
    } else {
        let k2 = order_for(n2 as int);
        assert forall|p: int| o2 <= p < o2 + blk(k2) implies !#[trigger] is_free(pa.zone_list()[z2].free_lists(), p) by {
            assert(!is_free(pb.zone_list()[z2].free_lists(), p));
        }
    }
}

impl Journal {
    /// Frees, in order, the blocks that the records free on `on` and marks
    /// those records as done.
    fn free_drops(&mut self, pool: &mut BuddyPool, on: u8)
        requires
            old(pool).inv(),
            drops_ok(old(self).records(), on, *old(pool)),
        ensures
            final(self).nesting() == old(self).nesting(),
            final(pool).inv(),
            forall|p: int| #[trigger] pool_free(final(pool).zone_list(), p) <==> pool_free(old(pool).zone_list(), p)
                || exists|i: int| 0 <= i < old(self).records().len() && #[trigger] drop_covers(old(self).records()[i].0, on, p),
            forall|p: int|
                0 <= p < old(pool).image().len() && live_byte(old(pool).zone_list(), p) && live_byte(final(pool).zone_list(), p)
                    ==> #[trigger] final(pool).image()[p] == old(pool).image()[p],
            forall|y: int, p: int| 0 <= y < old(pool).zone_total() && #[trigger] is_free(old(pool).zone_list()[y].free_lists(), p)
                ==> is_free(final(pool).zone_list()[y].free_lists(), p),
            final(pool).image().len() == old(pool).image().len(),
            final(pool).zone_total() == old(pool).zone_total(),
            final(pool).zone_quota() == old(pool).zone_quota(),
            final(pool).pool_size() == old(pool).pool_size(),
            final(self).records().len() == old(self).records().len(),
            forall|i: int| 0 <= i < old(self).records().len() ==> #[trigger] final(self).records()[i] == drop_done(old(self).records()[i], on),
            final(self).copies() == old(self).copies(),
            final(self).flag_word() == old(self).flag_word(),
            final(self).home() == old(self).home(),
    {
        let ghost logs0 = self.records();
        let ghost p0 = *pool;
        let mut i: usize = 0;
        while i < self.logs.len()
            invariant
                i <= logs0.len(),
                self.records().len() == logs0.len(),
                forall|j: int| 0 <= j < i ==> #[trigger] self.records()[j] == drop_done(logs0[j], on),
                forall|j: int| i <= j < logs0.len() ==> #[trigger] self.records()[j] == logs0[j],
                self.copies() == old(self).copies(),
                self.flag_word() == old(self).flag_word(),
                self.nesting() == old(self).nesting(),
                self.home() == old(self).home(),
                pool.inv(),
                drops_ok(logs0, on, p0),
                forall|j: int| i <= j < logs0.len() ==> ((#[trigger] drop_of(logs0[j].0, on)) matches Some((o, n)) ==> block_ok(*pool, o, n)),
                forall|p: int| #[trigger] pool_free(pool.zone_list(), p) <==> pool_free(p0.zone_list(), p)
                    || exists|j: int| 0 <= j < i && #[trigger] drop_covers(logs0[j].0, on, p),
                forall|p: int|
                    0 <= p < p0.image().len() && live_byte(p0.zone_list(), p) && live_byte(pool.zone_list(), p)
                        ==> #[trigger] pool.image()[p] == p0.image()[p],
                forall|y: int, p: int| 0 <= y < p0.zone_total() && #[trigger] is_free(p0.zone_list()[y].free_lists(), p)
                    ==> is_free(pool.zone_list()[y].free_lists(), p),
                forall|y: int| 0 <= y < p0.zone_total() ==> (#[trigger] pool.zone_list()[y]).meta_off() == p0.zone_list()[y].meta_off(),
                pool.image().len() == p0.image().len(),
                pool.zone_total() == p0.zone_total(),
                pool.zone_quota() == p0.zone_quota(),
                pool.pool_size() == p0.pool_size(),
            decreases logs0.len() - i,
        {
            let l = self.logs[i];
            proof {
                assert(l == logs0[i as int]);
            }
            let d: Option<(u64, usize)> = match l.0 {
                LogEnum::DropOnCommit(o, n) => if on == 0 && o != NONE_OFF { Some((o, n)) } else { None },
                LogEnum::DropOnAbort(o, n) => if on == 1 && o != NONE_OFF { Some((o, n)) } else { None },
                LogEnum::DropOnFailure(o, n) => if on == 2 && o != NONE_OFF { Some((o, n)) } else { None },
                _ => None,
            };
            assert(d == drop_of(l.0, on));
            if let Some((o, n)) = d {
                let ghost pb = *pool;
                proof {
                    assert(block_ok(pb, o, n));
                }
                pool.dealloc(o, n);
                proof {
                    let z = (o / (pb.zone_quota() as u64)) as int;
                    let k = order_for(n as int);
                    pb.lemma_zones_len(-1);
                    pool.lemma_zones_len(-1);
                    assert(forall|y: int| 0 <= y < pb.zone_total() && y != z ==> #[trigger] pool.zone_list()[y] == pb.zone_list()[y]);
                    // the later blocks stay allocated
                    assert forall|j: int| i < j < logs0.len() implies ((#[trigger] drop_of(logs0[j].0, on)) matches Some((o2, n2)) ==> block_ok(*pool, o2, n2)) by {
                        if let Some((o2, n2)) = drop_of(logs0[j].0, on) {
                            assert(drop_of(logs0[i as int].0, on) == Some((o, n)));
                            assert(apart(o as int, k, o2 as int, order_for(n2 as int)));
                            assert(block_ok(pb, o2, n2));
                            lemma_drop_keeps(pb, *pool, o, n, o2, n2);
                        }
                    }
                    assert forall|p: int| #[trigger] pool_free(pool.zone_list(), p) <==> pool_free(p0.zone_list(), p)
                        || exists|j: int| 0 <= j < i + 1 && #[trigger] drop_covers(logs0[j].0, on, p) by {
                        if pool_free(pool.zone_list(), p) {
                            let y = choose|y: int| 0 <= y < pool.zone_list().len() && is_free((#[trigger] pool.zone_list()[y]).free_lists(), p);
                            if y != z {
                                assert(pool.zone_list()[y] == pb.zone_list()[y]);
                                assert(pool_free(pb.zone_list(), p));
                            } else if !(o <= p < o + blk(k)) {
                                assert(is_free(pb.zone_list()[y].free_lists(), p));
                                assert(pool_free(pb.zone_list(), p));
                            } else {
                                assert(drop_covers(logs0[i as int].0, on, p));
                            }
                        }
                        if pool_free(pb.zone_list(), p) {
                            let y = choose|y: int| 0 <= y < pb.zone_list().len() && is_free((#[trigger] pb.zone_list()[y]).free_lists(), p);
                            if y != z {
                                assert(pool.zone_list()[y] == pb.zone_list()[y]);
                            }
                            assert(is_free(pool.zone_list()[y].free_lists(), p));
                        }
                        if exists|j: int| 0 <= j < i + 1 && #[trigger] drop_covers(logs0[j].0, on, p) {
                            let j = choose|j: int| 0 <= j < i + 1 && #[trigger] drop_covers(logs0[j].0, on, p);
                            if j == i {
                                assert(is_free(pool.zone_list()[z].free_lists(), p));
                            } else {
                                assert(pool_free(pb.zone_list(), p));
                                let y = choose|y: int| 0 <= y < pb.zone_list().len() && is_free((#[trigger] pb.zone_list()[y]).free_lists(), p);
                                if y != z {
                                    assert(pool.zone_list()[y] == pb.zone_list()[y]);
                                }
                                assert(is_free(pool.zone_list()[y].free_lists(), p));
                            }
                        }
                    }
                    assert forall|y: int, p: int| 0 <= y < p0.zone_total() && #[trigger] is_free(p0.zone_list()[y].free_lists(), p)
                        implies is_free(pool.zone_list()[y].free_lists(), p) by {
                        assert(is_free(pb.zone_list()[y].free_lists(), p));
                        if y != z {
                            assert(pool.zone_list()[y] == pb.zone_list()[y]);
                        }
                    }
                    assert forall|p: int|
                        0 <= p < p0.image().len() && live_byte(p0.zone_list(), p) && live_byte(pool.zone_list(), p)
                            implies #[trigger] pool.image()[p] == p0.image()[p] by {
                        assert forall|y: int| 0 <= y < pb.zone_list().len() implies !(pb.zone_list()[y].meta_off() <= p < pb.zone_list()[y].meta_off() + 512)
                            && !is_free((#[trigger] pb.zone_list()[y]).free_lists(), p) by {
                            assert(!is_free(pool.zone_list()[y].free_lists(), p));
                            if y != z {
                                assert(pool.zone_list()[y] == pb.zone_list()[y]);
                            }
                        }
                        assert(live_byte(pb.zone_list(), p));
                    }
                    assert forall|y: int| 0 <= y < p0.zone_total() implies (#[trigger] pool.zone_list()[y]).meta_off() == p0.zone_list()[y].meta_off() by {
                        if y != z {
                            assert(pool.zone_list()[y] == pb.zone_list()[y]);
                        }
                    }
                }
            }
            let done = match l.0 {
                LogEnum::DropOnCommit(_, n) => if on == 0 { Log(LogEnum::DropOnCommit(NONE_OFF, n), l.1) } else { l },
                LogEnum::DropOnAbort(_, n) => if on == 1 { Log(LogEnum::DropOnAbort(NONE_OFF, n), l.1) } else { l },
                LogEnum::DropOnFailure(_, n) => if on == 2 { Log(LogEnum::DropOnFailure(NONE_OFF, n), l.1) } else { l },
                _ => l,
            };
            self.logs.set(i, done);
            proof {
                assert forall|p: int| #[trigger] pool_free(pool.zone_list(), p) <==> pool_free(p0.zone_list(), p)
                    || exists|j: int| 0 <= j < i + 1 && #[trigger] drop_covers(logs0[j].0, on, p) by {
                    if d is None && exists|j: int| 0 <= j < i + 1 && #[trigger] drop_covers(logs0[j].0, on, p) {
                        let j = choose|j: int| 0 <= j < i + 1 && #[trigger] drop_covers(logs0[j].0, on, p);
                        assert(j != i);
                    }
                }
            }
            i = i + 1;
        }
    }
}

} // verus!

verus! {

/// Image `s` after writing back, from the last to the first, the copies of
/// the data logs among the records from position `n` on, each also clearing
/// its flag.
pub open spec fn restored_rev(s: Seq<u8>, logs: Seq<Log>, copies: Seq<Seq<u8>>, n: int) -> Seq<u8>
    decreases logs.len() - n,
{
    if n >= logs.len() || n < 0 {
        s
    } else {
        let s1 = restored_rev(s, logs, copies, n + 1);
        match logs[n].0 {
            LogEnum::DataLog(src, li, _) => if src != NONE_OFF && li < copies.len() {
                flag_set(written(s1, src as int, copies[li as int]), logs[n].1, 0)
            } else {
                s1
            },
            _ => s1,
        }
    }
}

impl Journal {
    /// Whether recovery skips the logs: the transaction committed, and it was
    /// not part of a chaperoned session, or that session completed.
    pub fn fast_forward(&self, chaperon_complete: bool) -> (r: bool)
        ensures
            r == ((self.flag_word() & JOURNAL_COMMITTED == JOURNAL_COMMITTED) && (self.session() == 0
                || chaperon_complete)),
    {
        if !self.is_set(JOURNAL_COMMITTED) {
            false
        } else if self.sec_id != 0 {
            chaperon_complete
        } else {
            true
        }
    }

    /// Commits: marks the transaction over, clears the flags of the data
    /// logs and frees the blocks of the drop-on-commit records.
    pub fn commit(&mut self, pool: &mut BuddyPool)
        requires
            old(pool).inv(),
            logs_live(old(self).records(), old(self).copies(), old(pool).image().len() as int, old(pool).zone_list()),
            drops_ok(old(self).records(), 0, *old(pool)),
        ensures
            final(self).nesting() == old(self).nesting(),
            final(pool).inv(),
            final(self).flag_word() == old(self).flag_word() | JOURNAL_COMMITTED,
            forall|p: int|
                0 <= p < old(pool).image().len() && live_byte(old(pool).zone_list(), p) && live_byte(final(pool).zone_list(), p)
                    ==> #[trigger] final(pool).image()[p] == flags_cleared(
                    old(pool).image(),
                    old(self).records(),
                    old(self).records().len() as int,
                )[p],
            forall|p: int| #[trigger] pool_free(final(pool).zone_list(), p) <==> pool_free(old(pool).zone_list(), p)
                || exists|i: int| 0 <= i < old(self).records().len() && #[trigger] drop_covers(old(self).records()[i].0, 0, p),
            final(self).records().len() == old(self).records().len(),
            forall|i: int| 0 <= i < old(self).records().len() ==> #[trigger] final(self).records()[i] == drop_done(old(self).records()[i], 0),
            final(self).copies() == old(self).copies(),
            final(pool).image().len() == old(pool).image().len(),
            final(pool).zone_total() == old(pool).zone_total(),
            final(pool).zone_quota() == old(pool).zone_quota(),
            final(pool).pool_size() == old(pool).pool_size(),
    {
        self.set(JOURNAL_COMMITTED);
        self.notify_all(pool);
        self.free_drops(pool, 0);
    }

    /// Rolls back: clears the flags of the data logs, writes their copies
    /// back in order, frees the blocks of the drop-on-abort records and marks
    /// the transaction over.
    pub fn rollback(&mut self, pool: &mut BuddyPool)
        requires
            old(pool).inv(),
            logs_live(old(self).records(), old(self).copies(), old(pool).image().len() as int, old(pool).zone_list()),
            drops_ok(old(self).records(), 1, *old(pool)),
        ensures
            final(self).nesting() == old(self).nesting(),
            final(pool).inv(),
            final(self).flag_word() == old(self).flag_word() | JOURNAL_COMMITTED,
            forall|p: int|
                0 <= p < old(pool).image().len() && live_byte(old(pool).zone_list(), p) && live_byte(final(pool).zone_list(), p)
                    ==> #[trigger] final(pool).image()[p] == restored(
                    flags_cleared(old(pool).image(), old(self).records(), old(self).records().len() as int),
                    old(self).records(),
                    old(self).copies(),
                    old(self).records().len() as int,
                )[p],
            forall|p: int| #[trigger] pool_free(final(pool).zone_list(), p) <==> pool_free(old(pool).zone_list(), p)
                || exists|i: int| 0 <= i < old(self).records().len() && #[trigger] drop_covers(old(self).records()[i].0, 1, p),
            final(self).records().len() == old(self).records().len(),
            forall|i: int| 0 <= i < old(self).records().len() ==> (#[trigger] final(self).records()[i]).0 == drop_done(old(self).records()[i], 1).0,
            final(self).copies() == old(self).copies(),
            final(pool).image().len() == old(pool).image().len(),
            final(pool).zone_total() == old(pool).zone_total(),
            final(pool).zone_quota() == old(pool).zone_quota(),
            final(pool).pool_size() == old(pool).pool_size(),
    {
        self.notify_all(pool);
        let ghost logs0 = self.records();
        self.restore_all(pool);
        proof {
            assert forall|i: int| 0 <= i < self.records().len() implies ((#[trigger] drop_of(self.records()[i].0, 1)) matches Some((o, n)) ==> block_ok(*pool, o, n)) by {
                assert(self.records()[i].0 == logs0[i].0);
                assert(drop_of(logs0[i].0, 1) == drop_of(self.records()[i].0, 1));
            }
            assert forall|i: int, j: int| 0 <= i < j < self.records().len() implies ((#[trigger] drop_of(self.records()[i].0, 1)) matches Some((o1, n1)) ==> ((#[trigger] drop_of(
                self.records()[j].0,
                1,
            )) matches Some((o2, n2)) ==> apart(o1 as int, order_for(n1 as int), o2 as int, order_for(n2 as int)))) by {
                assert(self.records()[i].0 == logs0[i].0);
                assert(self.records()[j].0 == logs0[j].0);
                assert(drop_of(logs0[i].0, 1) == drop_of(self.records()[i].0, 1));
                assert(drop_of(logs0[j].0, 1) == drop_of(self.records()[j].0, 1));
            }
        }
        let ghost logs1 = self.records();
        self.free_drops(pool, 1);
        proof {
            assert forall|i: int| 0 <= i < logs0.len() implies (#[trigger] self.records()[i]).0 == drop_done(logs0[i], 1).0 by {
                assert(self.records()[i] == drop_done(logs1[i], 1));
                assert(logs1[i].0 == logs0[i].0);
            }
            assert forall|p: int| #[trigger] pool_free(pool.zone_list(), p) <==> pool_free(old(pool).zone_list(), p)
                || exists|i: int| 0 <= i < logs0.len() && #[trigger] drop_covers(logs0[i].0, 1, p) by {
                if exists|i: int| 0 <= i < logs1.len() && #[trigger] drop_covers(logs1[i].0, 1, p) {
                    let i = choose|i: int| 0 <= i < logs1.len() && #[trigger] drop_covers(logs1[i].0, 1, p);
                    assert(logs1[i].0 == logs0[i].0);
                }
                if exists|i: int| 0 <= i < logs0.len() && #[trigger] drop_covers(logs0[i].0, 1, p) {
                    let i = choose|i: int| 0 <= i < logs0.len() && #[trigger] drop_covers(logs0[i].0, 1, p);
                    assert(logs1[i].0 == logs0[i].0);
                    assert(drop_covers(logs1[i].0, 1, p));
                }
            }
        }
        self.set(JOURNAL_COMMITTED);
    }
}

} // verus!

verus! {

/// Image `s` after the recovery steps of the records from position `n` to the
/// last, taken from the last: a data log writes its copy back and clears its
/// flag when `rollback`; a recount record moves its counter back, unless the
/// counter holds the null offset.
pub open spec fn recovered(s: Seq<u8>, logs: Seq<Log>, copies: Seq<Seq<u8>>, n: int, rollback: bool) -> Seq<u8>
    decreases logs.len() - n,
{
    if n >= logs.len() || n < 0 {
        s
    } else {
        let s1 = recovered(s, logs, copies, n + 1, rollback);
        match logs[n].0 {
            LogEnum::DataLog(src, li, _) => if rollback && src != NONE_OFF && li < copies.len() {
                flag_set(written(s1, src as int, copies[li as int]), logs[n].1, 0)
            } else {
                s1
            },
            LogEnum::RecountOnFailure(src, inc) => if src != NONE_OFF && rd(s1, src as int) != NONE_OFF {
                wr(s1, src as int, if inc { (rd(s1, src as int) + 1) as u64 } else { (rd(s1, src as int) - 1) as u64 })
            } else {
                s1
            },
            _ => s1,
        }
    }
}

/// Every recount record's counter is a live word, and a counter to move down
/// is not 0 when its turn comes.
pub open spec fn recounts_ok(s: Seq<u8>, logs: Seq<Log>, copies: Seq<Seq<u8>>, rollback: bool, len: int, zs: Seq<crate::buddy::BuddyAlg>) -> bool {
    forall|i: int|
        0 <= i < logs.len() ==> match (#[trigger] logs[i]).0 {
            LogEnum::RecountOnFailure(src, inc) => src != NONE_OFF ==> {
                &&& src + 8 <= len
                &&& range_live(src as int, 8, zs)
                &&& !inc ==> rd(recovered(s, logs, copies, i + 1, rollback), src as int) != 0
            },
            _ => true,
        }
}

impl Journal {
    /// The recovery steps of the records, from the last to the first.
    fn recover_steps(&mut self, pool: &mut BuddyPool, rollback: bool)
        requires
            old(pool).inv(),
            logs_live(old(self).records(), old(self).copies(), old(pool).image().len() as int, old(pool).zone_list()),
            recounts_ok(old(pool).image(), old(self).records(), old(self).copies(), rollback, old(pool).image().len() as int, old(pool).zone_list()),
        ensures
            final(self).nesting() == old(self).nesting(),
            final(pool).inv(),
            final(pool).image() == recovered(old(pool).image(), old(self).records(), old(self).copies(), 0, rollback),
            final(pool).image().len() == old(pool).image().len(),
            final(pool).zone_list() == old(pool).zone_list(),
            final(pool).zone_total() == old(pool).zone_total(),
            final(pool).zone_quota() == old(pool).zone_quota(),
            final(pool).pool_size() == old(pool).pool_size(),
            final(self).records().len() == old(self).records().len(),
            forall|i: int| 0 <= i < old(self).records().len() ==> drop_of((#[trigger] final(self).records()[i]).0, 2)
                == drop_of(old(self).records()[i].0, 2),
            final(self).copies() == old(self).copies(),
            final(self).flag_word() == old(self).flag_word(),
            final(self).home() == old(self).home(),
    {
        let ghost logs0 = self.records();
        let ghost s0 = pool.image();
        let mut i: usize = self.logs.len();
        while i > 0
            invariant
                i <= logs0.len(),
                self.records().len() == logs0.len(),
                forall|j: int| 0 <= j < logs0.len() ==> drop_of((#[trigger] self.records()[j]).0, 2) == drop_of(logs0[j].0, 2),
                forall|j: int| 0 <= j < i ==> #[trigger] self.records()[j] == logs0[j],
                self.copies() == old(self).copies(),
                self.flag_word() == old(self).flag_word(),
                self.nesting() == old(self).nesting(),
                self.home() == old(self).home(),
                pool.inv(),
                logs_live(logs0, self.copies(), pool.image().len() as int, pool.zone_list()),
                recounts_ok(s0, logs0, self.copies(), rollback, pool.image().len() as int, pool.zone_list()),
                pool.image() == recovered(s0, logs0, self.copies(), i as int, rollback),
                pool.image().len() == s0.len(),
                pool.zone_list() == old(pool).zone_list(),
                pool.zone_total() == old(pool).zone_total(),
                pool.zone_quota() == old(pool).zone_quota(),
                pool.pool_size() == old(pool).pool_size(),
            decreases i,
        {
            i = i - 1;
            let l = self.logs[i];
            proof {
                assert(l == logs0[i as int]);
            }
            match l.0 {
                LogEnum::DataLog(src, li, len) => {
                    if rollback && src != NONE_OFF && (li as usize) < self.saved.len() {
                        proof {
                            assert(match logs0[i as int].0 {
                                LogEnum::DataLog(src, li, len) => src != NONE_OFF ==> {
                                    &&& li < self.copies().len()
                                    &&& self.copies()[li as int].len() == len
                                    &&& src + len <= pool.image().len()
                                    &&& range_live(src as int, len as int, pool.zone_list())
                                    &&& flag_live(logs0[i as int].1, pool.image().len() as int, pool.zone_list())
                                },
                                _ => true,
                            });
                            assert(self.saved@[li as int]@ == self.copies()[li as int]);
                        }
                        pool.write_bytes(src, self.saved[li as usize].as_slice());
                        l.1.update(pool, 0);
                        self.logs.set(i, Log(l.0, Notifier::Empty));
                    }
                },
                LogEnum::RecountOnFailure(src, inc) => {
                    if src != NONE_OFF {
                        proof {
                            assert(match logs0[i as int].0 {
                                LogEnum::RecountOnFailure(src, inc) => src != NONE_OFF ==> {
                                    &&& src + 8 <= pool.image().len()
                                    &&& range_live(src as int, 8, pool.zone_list())
                                    &&& !inc ==> rd(recovered(s0, logs0, self.copies(), i + 1, rollback), src as int) != 0
                                },
                                _ => true,
                            });
                        }
                        let c = pool.read_u64(src);
                        if c != NONE_OFF {
                            let ghost before = pool.image();
                            if inc {
                                pool.write_u64(src, c + 1);
                            } else {
                                pool.write_u64(src, c - 1);
                            }
                            proof {
                                crate::pmem::lemma_wr(before, src as int, if inc { (c + 1) as u64 } else { (c - 1) as u64 });
                            }
                        }
                        self.logs.set(i, Log(LogEnum::RecountOnFailure(NONE_OFF, inc), l.1));
                    }
                },
                LogEnum::UnlockOnCommit(src) => {
                    self.logs.set(i, Log(LogEnum::UnlockOnCommit(NONE_OFF), l.1));
                },
                _ => {},
            }
        }
    }

    /// Recovers after a crash: clears the flags of the data logs; unless the
    /// transaction committed and may be fast-forwarded, takes the recovery
    /// steps of the records (rolling data back unless fast-forwarding), frees
    /// the drop-on-failure blocks when rolling back, and marks the
    /// transaction over.
    pub fn recover(&mut self, pool: &mut BuddyPool, chaperon_complete: bool)
        requires
            old(pool).inv(),
            logs_live(old(self).records(), old(self).copies(), old(pool).image().len() as int, old(pool).zone_list()),
            ({
                let committed = old(self).flag_word() & JOURNAL_COMMITTED == JOURNAL_COMMITTED;
                let ff = committed && (old(self).session() == 0 || chaperon_complete);
                let rollback = !ff || !committed;
                let s1 = flags_cleared(old(pool).image(), old(self).records(), old(self).records().len() as int);
                &&& recounts_ok(s1, old(self).records(), old(self).copies(), rollback, old(pool).image().len() as int, old(pool).zone_list())
                &&& rollback ==> drops_ok(old(self).records(), 2, *old(pool))
            }),
        ensures
            final(self).nesting() == old(self).nesting(),
            final(pool).inv(),
            ({
                let committed = old(self).flag_word() & JOURNAL_COMMITTED == JOURNAL_COMMITTED;
                let ff = committed && (old(self).session() == 0 || chaperon_complete);
                let rollback = !ff || !committed;
                let s1 = flags_cleared(old(pool).image(), old(self).records(), old(self).records().len() as int);
                let work = !committed || ff;
                &&& work ==> final(self).flag_word() == old(self).flag_word() | JOURNAL_COMMITTED
                &&& !work ==> final(self).flag_word() == old(self).flag_word()
                &&& forall|p: int|
                    0 <= p < old(pool).image().len() && live_byte(old(pool).zone_list(), p) && live_byte(final(pool).zone_list(), p)
                        ==> #[trigger] final(pool).image()[p] == (if work {
                        recovered(s1, old(self).records(), old(self).copies(), 0, rollback)
                    } else {
                        s1
                    })[p]
                &&& forall|p: int| #[trigger] pool_free(final(pool).zone_list(), p) <==> pool_free(old(pool).zone_list(), p)
                    || (work && rollback && exists|i: int| 0 <= i < old(self).records().len() && #[trigger] drop_covers(old(self).records()[i].0, 2, p))
            }),
            final(self).copies() == old(self).copies(),
            final(pool).image().len() == old(pool).image().len(),
            final(pool).zone_total() == old(pool).zone_total(),
            final(pool).zone_quota() == old(pool).zone_quota(),
            final(pool).pool_size() == old(pool).pool_size(),
    {
        self.notify_all(pool);
        let ff = self.fast_forward(chaperon_complete);
        let committed = self.is_set(JOURNAL_COMMITTED);
        if !committed || ff {
            let rollback = !ff || !committed;
            let ghost logs0 = self.records();
            self.recover_steps(pool, rollback);
            if rollback {
                proof {
                    assert forall|i: int| 0 <= i < self.records().len() implies ((#[trigger] drop_of(self.records()[i].0, 2)) matches Some((o, n)) ==> block_ok(*pool, o, n)) by {
                        assert(drop_of(self.records()[i].0, 2) == drop_of(logs0[i].0, 2));
                    }
                    assert forall|i: int, j: int| 0 <= i < j < self.records().len() implies ((#[trigger] drop_of(self.records()[i].0, 2)) matches Some((o1, n1)) ==> ((#[trigger] drop_of(
                        self.records()[j].0,
                        2,
                    )) matches Some((o2, n2)) ==> apart(o1 as int, order_for(n1 as int), o2 as int, order_for(n2 as int)))) by {
                        assert(drop_of(self.records()[i].0, 2) == drop_of(logs0[i].0, 2));
                        assert(drop_of(self.records()[j].0, 2) == drop_of(logs0[j].0, 2));
                    }
                }
                let ghost logs1 = self.records();
                self.free_drops(pool, 2);
                proof {
                    assert forall|p: int| #[trigger] pool_free(pool.zone_list(), p) <==> pool_free(old(pool).zone_list(), p)
                        || exists|i: int| 0 <= i < logs0.len() && #[trigger] drop_covers(logs0[i].0, 2, p) by {
                        if exists|i: int| 0 <= i < logs1.len() && #[trigger] drop_covers(logs1[i].0, 2, p) {
                            let i = choose|i: int| 0 <= i < logs1.len() && #[trigger] drop_covers(logs1[i].0, 2, p);
                            assert(drop_of(logs1[i].0, 2) == drop_of(logs0[i].0, 2));
                        }
                        if exists|i: int| 0 <= i < logs0.len() && #[trigger] drop_covers(logs0[i].0, 2, p) {
                            let i = choose|i: int| 0 <= i < logs0.len() && #[trigger] drop_covers(logs0[i].0, 2, p);
                            assert(drop_of(logs1[i].0, 2) == drop_of(logs0[i].0, 2));
                            assert(drop_covers(logs1[i].0, 2, p));
                        }
                    }
                }
            }
            self.set(JOURNAL_COMMITTED);
        }
    }
}

} // verus!

verus! {

/// Image `s` after releasing, in order, the locks of the unlock records among
/// the first `n` records (their flag byte set to 0).
pub open spec fn unlocked(s: Seq<u8>, logs: Seq<Log>, n: int) -> Seq<u8>
    decreases n,
{
    if n <= 0 {
        s
    } else {
        let s1 = unlocked(s, logs, n - 1);
        match logs[n - 1].0 {
            LogEnum::UnlockOnCommit(src) => if src != NONE_OFF && src < s1.len() {
                s1.update(src as int, 0)
            } else {
                s1
            },
            _ => s1,
        }
    }
}

/// The flag byte of every unlock record is a live byte.
pub open spec fn unlocks_live(logs: Seq<Log>, size: int, zs: Seq<crate::buddy::BuddyAlg>) -> bool {
    forall|i: int|
        0 <= i < logs.len() ==> match (#[trigger] logs[i]).0 {
            LogEnum::UnlockOnCommit(src) => src != NONE_OFF ==> src < size && range_live(src as int, 1, zs),
            _ => true,
        }
}

/// The drop records that a transaction ending with `ok` carries out: those
/// for commit, or those for abort.
pub open spec fn tx_drop_kind(ok: bool) -> u8 {
    if ok {
        0
    } else {
        1
    }
}

/// How a transaction ended.
#[derive(Clone, Copy, Debug, PartialEq, Eq, Structural)]
pub enum TxOutcome {
    /// The outermost transaction committed.
    Committed,
    /// An inner transaction ended; the outer one goes on.
    Nested,
    /// The outermost transaction failed and was rolled back.
    RolledBack,
    /// An inner transaction failed; the failure goes to the outer one.
    Propagate,
}

impl Journal {
    /// Releases the locks of the unlock records and forgets all records.
    pub fn clear(&mut self, pool: &mut BuddyPool)
        requires
            old(pool).inv(),
            unlocks_live(old(self).records(), old(pool).image().len() as int, old(pool).zone_list()),
        ensures
            final(pool).inv(),
            final(pool).image() == unlocked(old(pool).image(), old(self).records(), old(self).records().len() as int),
            final(pool).image().len() == old(pool).image().len(),
            final(pool).zone_list() == old(pool).zone_list(),
            final(pool).zone_total() == old(pool).zone_total(),
            final(pool).zone_quota() == old(pool).zone_quota(),
            final(pool).pool_size() == old(pool).pool_size(),
            final(self).records() == Seq::<Log>::empty(),
            final(self).copies() == Seq::<Seq<u8>>::empty(),
            final(self).flag_word() == old(self).flag_word(),
            final(self).nesting() == old(self).nesting(),
            final(self).home() == old(self).home(),
    {
        let ghost logs0 = self.records();
        let mut i: usize = 0;
        while i < self.logs.len()
            invariant
                i <= logs0.len(),
                self.records() == logs0,
                pool.inv(),
                unlocks_live(logs0, pool.image().len() as int, pool.zone_list()),
                pool.image() == unlocked(old(pool).image(), logs0, i as int),
                pool.image().len() == old(pool).image().len(),
                pool.zone_list() == old(pool).zone_list(),
                pool.zone_total() == old(pool).zone_total(),
                pool.zone_quota() == old(pool).zone_quota(),
                pool.pool_size() == old(pool).pool_size(),
            decreases logs0.len() - i,
        {
            let l = self.logs[i];
            proof {
                assert(l == logs0[i as int]);
            }
            match l.0 {
                LogEnum::UnlockOnCommit(src) => {
                    if src != NONE_OFF {
                        proof {
                            assert(match logs0[i as int].0 {
                                LogEnum::UnlockOnCommit(src) => src != NONE_OFF ==> src < pool.image().len()
                                    && range_live(src as int, 1, pool.zone_list()),
                                _ => true,
                            });
                        }
                        pool.write_byte(src, 0);
                    }
                },
                _ => {},
            }
            i = i + 1;
        }
        self.logs.clear();
        self.saved.clear();
        proof {
            assert(self.copies() =~= Seq::<Seq<u8>>::empty());
        }
    }

    /// Enters a transaction: one more level uses the journal, which is not
    /// committed.
    pub fn enter(&mut self)
        requires
            old(self).nesting() < u32::MAX,
        ensures
            final(self).nesting() == old(self).nesting() + 1,
            final(self).flag_word() == old(self).flag_word() & !JOURNAL_COMMITTED,
            final(self).records() == old(self).records(),
            final(self).copies() == old(self).copies(),
            final(self).home() == old(self).home(),
    {
        self.depth = self.depth + 1;
        self.unset(JOURNAL_COMMITTED);
    }

    /// Ends a transaction whose body finished (`ok`) or failed. The outermost
    /// one commits, or rolls back, and then clears the journal, releasing its
    /// locks; an inner one only leaves its level.
    pub fn finish(&mut self, pool: &mut BuddyPool, ok: bool) -> (r: TxOutcome)
        requires
            old(pool).inv(),
            old(self).nesting() > 0,
            old(self).nesting() == 1 ==> {
                let on = tx_drop_kind(ok);
                &&& logs_live(old(self).records(), old(self).copies(), old(pool).image().len() as int, old(pool).zone_list())
                &&& drops_ok(old(self).records(), on, *old(pool))
                &&& unlocks_live(old(self).records(), old(pool).image().len() as int, old(pool).zone_list())
                &&& forall|i: int, j: int|
                    0 <= i < old(self).records().len() && 0 <= j < old(self).records().len() ==> ((#[trigger] old(self).records()[i]).0 matches LogEnum::UnlockOnCommit(src)
                        ==> !drop_covers((#[trigger] old(self).records()[j]).0, on, src as int))
            },
        ensures
            final(pool).inv(),
            final(self).nesting() == old(self).nesting() - 1,
            old(self).nesting() > 1 ==> {
                &&& r == (if ok { TxOutcome::Nested } else { TxOutcome::Propagate })
                &&& *final(pool) == *old(pool)
                &&& final(self).records() == old(self).records()
            },
            old(self).nesting() == 1 ==> {
                &&& r == (if ok { TxOutcome::Committed } else { TxOutcome::RolledBack })
                &&& final(self).records() == Seq::<Log>::empty()
                &&& final(self).flag_word() & JOURNAL_COMMITTED == JOURNAL_COMMITTED
                &&& forall|p: int|
                    0 <= p < old(pool).image().len() && live_byte(old(pool).zone_list(), p) && live_byte(final(pool).zone_list(), p)
                        ==> #[trigger] final(pool).image()[p] == unlocked(
                        if ok {
                            flags_cleared(old(pool).image(), old(self).records(), old(self).records().len() as int)
                        } else {
                            restored(
                                flags_cleared(old(pool).image(), old(self).records(), old(self).records().len() as int),
                                old(self).records(),
                                old(self).copies(),
                                old(self).records().len() as int,
                            )
                        },
                        old(self).records(),
                        old(self).records().len() as int,
                    )[p]
                &&& forall|p: int| #[trigger] pool_free(final(pool).zone_list(), p) <==> pool_free(old(pool).zone_list(), p)
                    || exists|i: int| 0 <= i < old(self).records().len() && #[trigger] drop_covers(old(self).records()[i].0, tx_drop_kind(ok), p)
            },
    {
        self.depth = self.depth - 1;
        if self.depth > 0 {
            return if ok {
                TxOutcome::Nested
            } else {
                TxOutcome::Propagate
            };
        }
        let ghost on = tx_drop_kind(ok);
        let ghost p1 = *pool;
        let ghost logs0 = self.records();
        if ok {
            self.commit(pool);
        } else {
            self.rollback(pool);
        }
        let ghost logs1 = self.records();
        let ghost p2 = *pool;
        proof {
            assert forall|i: int| 0 <= i < logs1.len() && ((#[trigger] logs1[i]).0 is UnlockOnCommit || logs0[i].0 is UnlockOnCommit) implies logs1[i].0 == logs0[i].0 by {
                if ok {
                    assert(logs1[i] == drop_done(logs0[i], 0));
                } else {
                    assert(logs1[i].0 == drop_done(logs0[i], 1).0);
                }
            }
            assert forall|i: int| 0 <= i < logs1.len() implies match (#[trigger] logs1[i]).0 {
                LogEnum::UnlockOnCommit(src) => src != NONE_OFF ==> src < p2.image().len() && range_live(src as int, 1, p2.zone_list()),
                _ => true,
            } by {
                if let LogEnum::UnlockOnCommit(src) = logs1[i].0 {
                    if ok {
                        assert(logs1[i] == drop_done(logs0[i], 0));
                    } else {
                        assert(logs1[i].0 == drop_done(logs0[i], 1).0);
                    }
                    assert(logs1[i].0 == logs0[i].0);
                    if src != NONE_OFF {
                        assert(match logs0[i].0 {
                            LogEnum::UnlockOnCommit(src) => src != NONE_OFF ==> src < p1.image().len() && range_live(src as int, 1, p1.zone_list()),
                            _ => true,
                        });
                        p1.lemma_idle();
                        p2.lemma_idle();
                        assert forall|y: int, q: int|
                            0 <= y < p2.zone_list().len() && src <= q < src + 1 implies !#[trigger] crate::pool::zone_dead(p2.zone_list()[y], q) by {
                            assert(q == src);
                            assert(p2.zone_total() == p1.zone_total());
                            assert(p2.pool_size() == p1.pool_size());
                            assert(p2.zone_list()[y].meta_off() == p2.pool_size() + 512 * y);
                            assert(p1.zone_list()[y].meta_off() == p1.pool_size() + 512 * y);
                            assert(!crate::pool::zone_dead(p1.zone_list()[y], q));
                            if is_free(p2.zone_list()[y].pending_lists(), q) {
                                assert(is_free(p2.zone_list()[y].free_lists(), q));
                                assert(pool_free(p2.zone_list(), q));
                                if pool_free(p1.zone_list(), q) {
                                    let y1 = choose|y1: int| 0 <= y1 < p1.zone_list().len() && is_free((#[trigger] p1.zone_list()[y1]).free_lists(), q);
                                    assert(is_free(p1.zone_list()[y1].pending_lists(), q));
                                    assert(src <= q < src + 1);
                                    assert(!crate::pool::zone_dead(p1.zone_list()[y1], q));
                                } else if ok {
                                    let j = choose|j: int| 0 <= j < logs0.len() && #[trigger] drop_covers(logs0[j].0, 0, q);
                                    assert(!drop_covers(logs0[j].0, on, src as int));
                                } else {
                                    let j = choose|j: int| 0 <= j < logs0.len() && #[trigger] drop_covers(logs0[j].0, 1, q);
                                    assert(!drop_covers(logs0[j].0, on, src as int));
                                }
                            }
                        }
                        assert(range_live(src as int, 1, p2.zone_list()));
                    }
                }
            }
        }
        self.clear(pool);
        proof {
            lemma_unlocked_same(p2.image(), logs1, logs0, logs0.len() as int);
            let n = logs0.len() as int;
            let base = if ok {
                flags_cleared(p1.image(), logs0, n)
            } else {
                restored(flags_cleared(p1.image(), logs0, n), logs0, old(self).copies(), n)
            };
            lemma_flags_cleared_len(p1.image(), logs0, n);
            lemma_restored_len(flags_cleared(p1.image(), logs0, n), logs0, old(self).copies(), n);
            assert forall|p: int|
                0 <= p < p1.image().len() && live_byte(p1.zone_list(), p) && live_byte(pool.zone_list(), p)
                    implies #[trigger] pool.image()[p] == unlocked(base, logs0, n)[p] by {
                assert(p2.image()[p] == base[p]);
                lemma_unlocked_point(p2.image(), base, logs0, n, p);
            }
            if ok {
                assert forall|p: int| #[trigger] pool_free(pool.zone_list(), p) <==> pool_free(p1.zone_list(), p)
                    || exists|i: int| 0 <= i < logs0.len() && #[trigger] drop_covers(logs0[i].0, tx_drop_kind(ok), p) by {
                    assert(pool_free(p2.zone_list(), p) <==> pool_free(p1.zone_list(), p)
                        || exists|i: int| 0 <= i < logs0.len() && #[trigger] drop_covers(logs0[i].0, 0, p));
                }
            } else {
                assert forall|p: int| #[trigger] pool_free(pool.zone_list(), p) <==> pool_free(p1.zone_list(), p)
                    || exists|i: int| 0 <= i < logs0.len() && #[trigger] drop_covers(logs0[i].0, tx_drop_kind(ok), p) by {
                    assert(pool_free(p2.zone_list(), p) <==> pool_free(p1.zone_list(), p)
                        || exists|i: int| 0 <= i < logs0.len() && #[trigger] drop_covers(logs0[i].0, 1, p));
                }
            }
            let w = old(self).flag_word();
            assert((w | 1u64) & 1u64 == 1u64) by (bit_vector);
        }
        if ok {
            TxOutcome::Committed
        } else {
            TxOutcome::RolledBack
        }
    }
}

/// Clearing flags keeps the length of the image.
pub proof fn lemma_flags_cleared_len(s: Seq<u8>, logs: Seq<Log>, n: int)
    requires
        n <= logs.len(),
    ensures
        flags_cleared(s, logs, n).len() == s.len(),
    decreases n,
{
    if n > 0 {
        lemma_flags_cleared_len(s, logs, n - 1);
    }
}

/// Writing copies back keeps the length of the image.
pub proof fn lemma_restored_len(s: Seq<u8>, logs: Seq<Log>, copies: Seq<Seq<u8>>, n: int)
    requires
        n <= logs.len(),
    ensures
        restored(s, logs, copies, n).len() == s.len(),
    decreases n,
{
    if n > 0 {
        lemma_restored_len(s, logs, copies, n - 1);
    }
}

/// Unlocking keeps the length of the image.
pub proof fn lemma_unlocked_len(s: Seq<u8>, logs: Seq<Log>, n: int)
    requires
        n <= logs.len(),
    ensures
        unlocked(s, logs, n).len() == s.len(),
    decreases n,
{
    if n > 0 {
        lemma_unlocked_len(s, logs, n - 1);
    }
}

/// A byte after unlocking depends only on that byte before.
pub proof fn lemma_unlocked_point(a: Seq<u8>, b: Seq<u8>, logs: Seq<Log>, n: int, p: int)
    requires
        n <= logs.len(),
        a.len() == b.len(),
        0 <= p < a.len(),
        a[p] == b[p],
    ensures
        unlocked(a, logs, n)[p] == unlocked(b, logs, n)[p],
        unlocked(a, logs, n).len() == a.len(),
        unlocked(b, logs, n).len() == b.len(),
    decreases n,
{
    lemma_unlocked_len(a, logs, n);
    lemma_unlocked_len(b, logs, n);
    if n > 0 {
        lemma_unlocked_point(a, b, logs, n - 1, p);
    }
}

/// Unlocking depends only on the unlock records.
pub proof fn lemma_unlocked_same(s: Seq<u8>, a: Seq<Log>, b: Seq<Log>, n: int)
    requires
        0 <= n <= a.len(),
        a.len() == b.len(),
        forall|i: int| 0 <= i < a.len() ==> ((#[trigger] a[i]).0 is UnlockOnCommit || b[i].0 is UnlockOnCommit ==> a[i].0 == b[i].0),
    ensures
        unlocked(s, a, n) == unlocked(s, b, n),
    decreases n,
{
    if n > 0 {
        lemma_unlocked_same(s, a, b, n - 1);
        assert(a[n - 1].0 is UnlockOnCommit || b[n - 1].0 is UnlockOnCommit ==> a[n - 1].0 == b[n - 1].0);
    }
}

} // verus!

verus! {

/// Position of a record's kind among the kinds of `LogEnum`, in their order.
pub open spec fn kind_index(l: LogEnum) -> int {
    match l {
        LogEnum::DataLog(_, _, _) => 0,
        LogEnum::DropOnAbort(_, _) => 1,
        LogEnum::DropOnCommit(_, _) => 2,
        LogEnum::DropOnFailure(_, _) => 3,
        LogEnum::RecountOnFailure(_, _) => 4,
        LogEnum::UnlockOnCommit(_) => 5,
        LogEnum::Empty => 6,
    }
}

/// Number of records of kind `k` among the first `n`.
pub open spec fn count_kind(logs: Seq<Log>, k: int, n: int) -> nat
    decreases n,
{
    if n <= 0 {
        0
    } else {
        count_kind(logs, k, n - 1) + if kind_index(logs[n - 1].0) == k {
            1nat
        } else {
            0nat
        }
    }
}

/// A count never exceeds the number of records counted.
pub proof fn lemma_count_kind_le(logs: Seq<Log>, k: int, n: int)
    requires
        0 <= n,
    ensures
        count_kind(logs, k, n) <= n,
    decreases n,
{
    if n > 0 {
        lemma_count_kind_le(logs, k, n - 1);
    }
}

impl Journal {
    /// Whether a transaction is running on this journal.
    pub fn is_running(&self) -> (r: bool)
        ensures
            r == (self.nesting() > 0),
    {
        self.depth != 0
    }

    /// Drops every record without acting on it: nothing is rolled back,
    /// committed or freed.
    pub fn ignore(&mut self)
        ensures
            final(self).records() == Seq::<Log>::empty(),
            final(self).copies() == old(self).copies(),
            final(self).flag_word() == old(self).flag_word(),
            final(self).nesting() == old(self).nesting(),
            final(self).home() == old(self).home(),
    {
        self.logs = Vec::new();
    }

    /// Number of records.
    pub fn len(&self) -> (r: usize)
        ensures
            r == self.records().len(),
    {
        self.logs.len()
    }

    /// The record at position `i`.
    pub fn record_at(&self, i: usize) -> (r: Log)
        requires
            i < self.records().len(),
        ensures
            r == self.records()[i as int],
    {
        self.logs[i]
    }

    /// Number of records of each kind, in the order of `LogEnum`'s kinds.
    pub fn log_counts(&self) -> (r: Vec<u64>)
        ensures
            r@.len() == 7,
            forall|k: int| 0 <= k < 7 ==> #[trigger] r@[k] == count_kind(self.records(), k, self.records().len() as int),
    {
        let mut counts: Vec<u64> = vec![0, 0, 0, 0, 0, 0, 0];
        let mut i: usize = 0;
        while i < self.logs.len()
            invariant
                i <= self.records().len(),
                counts@.len() == 7,
                forall|k: int| 0 <= k < 7 ==> #[trigger] counts@[k] == count_kind(self.records(), k, i as int),
            decreases self.records().len() - i,
        {
            let k: usize = match self.logs[i].0 {
                LogEnum::DataLog(_, _, _) => 0,
                LogEnum::DropOnAbort(_, _) => 1,
                LogEnum::DropOnCommit(_, _) => 2,
                LogEnum::DropOnFailure(_, _) => 3,
                LogEnum::RecountOnFailure(_, _) => 4,
                LogEnum::UnlockOnCommit(_) => 5,
                LogEnum::Empty => 6,
            };
            proof {
                assert(self.logs[i as int] == self.records()[i as int]);
                assert(k == kind_index(self.records()[i as int].0));
                lemma_count_kind_le(self.records(), k as int, i as int);
                self.lemma_bounds();
            }
            let c = counts[k];
            counts.set(k, c + 1);
            i = i + 1;
        }
        counts
    }
}

} // verus!
