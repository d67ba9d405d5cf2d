//! A pool: one buddy zone per processor over one persistent image. Zone `i`
//! manages the bytes from `i * quota`; the head words of all zones follow the
//! zones, 512 bytes per zone. Beside the image, a log image holds one redo
//! record per zone.

use vstd::prelude::*;
use crate::pmem::{PMem, NONE_OFF, covers, rd, wr, written, copied, lemma_wr};
use crate::buddy::{BuddyAlg, blk, in_zone, is_free, word_avoids, order_for, lemma_blk, lowest_fit, split_lists};
use crate::freelist::freed_lists;
use crate::record::{REC_BYTES, rec_at, rec_idle, rec_valid, rec_writes, replay_all, write_record, clear_record, replay_records, lemma_replay_after_crash, lemma_replay_idle, lemma_apply_writes_concat};

verus! {

/// Number of processors of this machine.
///
/// Calls `num_cpus::get`, which its documentation says returns at least one.
#[verifier::external_body]
fn cpu_count() -> (r: usize)
    ensures
        r >= 1,
{
    num_cpus::get()
}

/// Number of zones of a new pool: the configured count, else one per
/// processor.
pub fn zone_count(configured: Option<usize>) -> (r: usize)
    ensures
        configured matches Some(c) ==> r == c,
        configured is None ==> r >= 1,
{
    match configured {
        Some(c) => c,
        None => cpu_count(),
    }
}

/// The zone objects of a pool: `count` zones of `quota` bytes each, their
/// objects after `base` reserved bytes.
pub struct Zones<T> {
    count: usize,
    quota: usize,
    base: usize,
    items: Vec<T>,
}

impl<T> Zones<T> {
    /// Number of zones.
    pub closed spec fn spec_count(&self) -> int {
        self.count as int
    }

    /// Bytes per zone.
    pub closed spec fn spec_quota(&self) -> int {
        self.quota as int
    }

    /// Reserved bytes before the zone objects.
    pub closed spec fn spec_base(&self) -> int {
        self.base as int
    }

    /// The zone objects.
    pub closed spec fn items(&self) -> Seq<T> {
        self.items@
    }

    /// There is one object per zone.
    pub closed spec fn wf(&self) -> bool {
        self.items@.len() == self.count
    }

    /// Zones with the objects `items`, one per zone.
    pub fn new(count: usize, offset: usize, quota: usize, items: Vec<T>) -> (r: Self)
        requires
            offset <= quota,
            items@.len() == count,
        ensures
            r.wf(),
            r.spec_count() == count,
            r.spec_quota() == quota,
            r.spec_base() == offset,
            r.items() == items@,
    {
        Zones { count, quota, base: offset, items }
    }

    /// Bytes per zone.
    pub fn quota(&self) -> (r: usize)
        ensures
            r == self.spec_quota(),
    {
        self.quota
    }

    /// Number of zones.
    pub fn count(&self) -> (r: usize)
        ensures
            r == self.spec_count(),
    {
        self.count
    }

    /// The object of zone `i`.
    pub fn at(&self, i: usize) -> (r: &T)
        requires
            self.wf(),
            i < self.spec_count(),
        ensures
            *r == self.items()[i as int],
    {
        &self.items[i]
    }

    /// The object of the zone of processor `cpu`.
    pub fn get(&self, cpu: usize) -> (r: &T)
        requires
            self.wf(),
            self.spec_count() > 0,
        ensures
            *r == self.items()[(cpu as int) % self.spec_count()],
    {
        &self.items[cpu % self.count]
    }

    /// The object of the zone that holds offset `off`, with its index.
    pub fn from_off(&self, off: u64) -> (r: (&T, usize))
        requires
            self.wf(),
            self.spec_quota() > 0,
            off / (self.spec_quota() as u64) < self.spec_count(),
        ensures
            r.1 == off / (self.spec_quota() as u64),
            *r.0 == self.items()[r.1 as int],
    {
        let i = (off / (self.quota as u64)) as usize;
        (&self.items[i], i)
    }
}

/// A word store at `a` touches no free block of any zone of `zs`, nor their
/// head words.
pub open spec fn avoids_all(a: int, zs: Seq<BuddyAlg>) -> bool {
    forall|y: int| 0 <= y < zs.len() ==> word_avoids(a, (#[trigger] zs[y]).meta_off(), zs[y].pending_lists())
}

/// A buddy pool over one persistent image.
pub struct BuddyPool {
    mem: PMem,
    zones: Zones<BuddyAlg>,
    size: usize,
    log: PMem,
}

impl BuddyPool {
    /// The persistent image.
    pub closed spec fn image(&self) -> Seq<u8> {
        self.mem@
    }

    /// The log image: the redo record of zone `z` at `rec_at(z)`.
    pub closed spec fn log_image(&self) -> Seq<u8> {
        self.log@
    }

    /// The zone allocators.
    pub closed spec fn zone_list(&self) -> Seq<BuddyAlg> {
        self.zones.items()
    }

    /// Number of zones.
    pub closed spec fn zone_total(&self) -> int {
        self.zones.spec_count()
    }

    /// Bytes per zone.
    pub closed spec fn zone_quota(&self) -> int {
        self.zones.spec_quota()
    }

    /// Bytes given to the zones.
    pub closed spec fn pool_size(&self) -> int {
        self.size as int
    }

    /// Zone `z` manages at most `quota` bytes from `quota * z`, with its head
    /// words after all zones.
    pub open spec fn zone_placed(a: BuddyAlg, z: int, quota: int, size: int) -> bool {
        &&& a.zone_base() == quota * z
        &&& a.zone_size() <= quota
        &&& a.meta_off() == size + 512 * z
    }

    /// The pool is consistent; only zone `busy` may have queued changes.
    pub closed spec fn inv_busy(&self, busy: int) -> bool {
        let zs = self.zones.items();
        let n = self.zones.spec_count();
        let q = self.zones.spec_quota();
        &&& self.zones.wf()
        &&& n >= 1
        &&& q >= 8
        &&& n * q <= self.size
        &&& self.mem@.len() == self.size + 512 * n
        &&& self.size + 512 * n <= u64::MAX
        &&& self.size + 512 * n <= usize::MAX
        &&& self.log@.len() == REC_BYTES * n
        &&& REC_BYTES * n <= usize::MAX
        &&& forall|z: int| 0 <= z < n ==> #[trigger] rec_idle(self.log@, z)
        &&& forall|z: int|
            0 <= z < n ==> {
                &&& (#[trigger] zs[z]).inv(self.mem@)
                &&& Self::zone_placed(zs[z], z, q, self.size as int)
                &&& z != busy ==> zs[z].redo_log().len() == 0 && zs[z].drop_records().len() == 0 && zs[z].word_log().len() == 0
            }
        &&& forall|z: int, j: int|
            0 <= z < n && 0 <= j < zs[z].word_log().len() ==> avoids_all(
                (#[trigger] zs[z].word_log()[j]).0 as int,
                zs,
            )
    }

    /// The pool is consistent and no zone has queued changes.
    pub open spec fn inv(&self) -> bool {
        self.inv_busy(-1)
    }
}

} // verus!

verus! {

/// Zone `z` of a pool of `size` bytes over `cpus` zones, laid out as `init`
/// lays it out, holds no well formed free lists in image `mem`.
pub open spec fn zone_unreadable(mem: Seq<u8>, size: int, cpus: int, z: int) -> bool {
    forall|kk: int, ls: Seq<Seq<u64>>|
        3 <= kk < 64 && blk(kk) <= size / cpus < blk(kk + 1) ==> !#[trigger] crate::buddy::stores_zone(
            mem,
            size + 512 * z,
            (size / cpus) * z,
            kk,
            ls,
        )
}

impl BuddyPool {
    /// A pool of `size` bytes split into `cpus` zones of `size / cpus` bytes,
    /// each zone set up with one free block of the largest power of two that
    /// fits in its quota.
    pub fn init(size: usize, cpus: usize) -> (r: Self)
        requires
            cpus >= 1,
            8 <= size / cpus <= 0x8000_0000_0000_0000u64,
            size + 512 * cpus <= u64::MAX,
            size + 512 * cpus <= usize::MAX,
            REC_BYTES * cpus <= usize::MAX,
        ensures
            r.inv(),
            r.log_image().len() == REC_BYTES * cpus,
            r.zone_total() == cpus,
            r.zone_quota() == size / cpus,
            r.pool_size() == size,
            forall|z: int|
                0 <= z < cpus ==> {
                    let a = #[trigger] r.zone_list()[z];
                    &&& a.zone_base() == (size / cpus) * z
                    &&& blk(a.last_order()) <= size / cpus < blk(a.last_order() + 1)
                    &&& a.spec_available() == a.zone_size()
                    &&& a.word_log().len() == 0
                    &&& a.drop_records().len() == 0
                },
    {
        let quota = size / cpus;
        proof {
            assert(quota * cpus <= size) by (nonlinear_arith)
                requires
                    quota == size / cpus,
                    cpus >= 1,
            ;
        }
        let total: usize = size + 512 * cpus;
        let mut mem = PMem::new(total);
        let mut items: Vec<BuddyAlg> = Vec::new();
        let mut i: usize = 0;
        while i < cpus
            invariant
                i <= cpus,
                quota == size / cpus,
                quota * cpus <= size,
                8 <= quota <= 0x8000_0000_0000_0000u64,
                total == size + 512 * cpus,
                total <= u64::MAX,
                mem@.len() == total,
                items@.len() == i,
                forall|z: int|
                    0 <= z < i ==> {
                        let a = #[trigger] items@[z];
                        &&& a.inv(mem@)
                        &&& Self::zone_placed(a, z, quota as int, size as int)
                        &&& a.redo_log().len() == 0
                        &&& a.word_log().len() == 0
                        &&& a.drop_records().len() == 0
                        &&& blk(a.last_order()) <= quota < blk(a.last_order() + 1)
                        &&& a.spec_available() == a.zone_size()
                    },
            decreases cpus - i,
        {
            proof {
                assert(quota * i + quota <= quota * cpus) by (nonlinear_arith)
                    requires
                        i < cpus,
                        quota >= 0,
                ;
            }
            let base: usize = quota * i;
            let meta: usize = size + 512 * i;
            let ghost m1 = mem@;
            let a = BuddyAlg::init(&mut mem, meta as u64, base as u64, quota);
            proof {
                assert forall|z: int| 0 <= z < i implies (#[trigger] items@[z]).inv(mem@) by {
                    let y = items@[z];
                    assert(quota * z + quota <= quota * i) by (nonlinear_arith)
                        requires
                            z < i,
                            quota >= 0,
                    ;
                    y.lemma_inv_core(m1);
                    y.lemma_free_in_zone(m1);
                    assert forall|p: int|
                        0 <= p < m1.len() && (y.meta_off() <= p < y.meta_off() + 512 || is_free(y.free_lists(), p))
                            implies #[trigger] m1[p] == mem@[p] by {}
                    y.lemma_inv_frame(m1, mem@);
                }
            }
            let ghost before = items@;
            items.push(a);
            proof {
                assert forall|z: int| 0 <= z < i + 1 implies {
                    let a = #[trigger] items@[z];
                    &&& a.inv(mem@)
                    &&& Self::zone_placed(a, z, quota as int, size as int)
                    &&& a.redo_log().len() == 0
                    &&& a.word_log().len() == 0
                    &&& a.drop_records().len() == 0
                    &&& blk(a.last_order()) <= quota < blk(a.last_order() + 1)
                    &&& a.spec_available() == a.zone_size()
                } by {
                    if z < i {
                        assert(items@[z] == before[z]);
                    }
                }
            }
            i = i + 1;
        }
        let zones = Zones::new(cpus, 0, quota, items);
        let log = crate::record::empty_log(cpus);
        let r = BuddyPool { mem, zones, size, log };
        proof {
            let zs = r.zones.items();
            assert(r.zones.spec_count() == cpus);
            assert(r.zones.spec_quota() == quota);
            assert forall|z: int, j: int| 0 <= z < cpus && 0 <= j < zs[z].word_log().len() implies avoids_all(
                (#[trigger] zs[z].word_log()[j]).0 as int,
                zs,
            ) by {
                assert(zs[z] == items@[z]);
            }
            assert(r.zones.wf());
            assert(quota >= 8);
            assert(cpus * quota <= size) by (nonlinear_arith) requires quota * cpus <= size;
            assert(r.mem@.len() == size + 512 * cpus);
            assert forall|z: int| 0 <= z < cpus implies {
                &&& (#[trigger] zs[z]).inv(r.mem@)
                &&& Self::zone_placed(zs[z], z, quota as int, size as int)
                &&& z != -1 ==> zs[z].redo_log().len() == 0 && zs[z].drop_records().len() == 0 && zs[z].word_log().len() == 0
            } by {
                assert(zs[z] == items@[z]);
            }
        }
        r
    }

    /// Opens the pool held in the image `bytes` and the log image `log`,
    /// laid out as `init` lays out a pool of `size` bytes over `cpus` zones:
    /// first the stores of every complete redo record in `log` are performed
    /// on the image, zone by zone, and every record is marked empty; then
    /// zone `z` takes up its quota from `quota * z`, with its list heads
    /// after the zones at `size + 512 * z`, and its free lists are read from
    /// the image as `BuddyAlg::load` reads them. `None` when some zone's
    /// stored free lists are not well formed.
    pub fn open(bytes: Vec<u8>, log: Vec<u8>, size: usize, cpus: usize) -> (r: Option<Self>)
        requires
            cpus >= 1,
            8 <= size / cpus <= 0x8000_0000_0000_0000u64,
            size + 512 * cpus <= u64::MAX,
            size + 512 * cpus <= usize::MAX,
            REC_BYTES * cpus <= usize::MAX,
            bytes@.len() == size + 512 * cpus,
            log@.len() == REC_BYTES * cpus,
        ensures
            r matches Some(p) ==> {
                let b = replay_all(bytes@, log@, cpus as int);
                &&& p.inv()
                &&& p.image() == b
                &&& p.log_image().len() == log@.len()
                &&& p.zone_total() == cpus
                &&& p.zone_quota() == size / cpus
                &&& p.pool_size() == size
                &&& forall|z: int|
                    0 <= z < cpus ==> {
                        let a = #[trigger] p.zone_list()[z];
                        &&& a.zone_base() == (size / cpus) * z
                        &&& a.meta_off() == size + 512 * z
                        &&& blk(a.last_order()) <= size / cpus < blk(a.last_order() + 1)
                        &&& crate::buddy::lists_stored(b, a.meta_off(), a.free_lists())
                        &&& crate::buddy::stores_zone(b, a.meta_off(), a.zone_base(), a.last_order(), a.free_lists())
                        &&& a.spec_available() == crate::buddy::total(a.free_lists())
                    }
            },
            r is None ==> exists|z: int|
                0 <= z < cpus && #[trigger] zone_unreadable(
                    replay_all(bytes@, log@, cpus as int),
                    size as int,
                    cpus as int,
                    z,
                ),
    {
        let quota = size / cpus;
        proof {
            assert(quota * cpus <= size) by (nonlinear_arith)
                requires
                    quota == size / cpus,
                    cpus >= 1,
            ;
        }
        let total: usize = size + 512 * cpus;
        let ghost l0 = log@;
        let ghost bb = bytes@;
        let mut mem = PMem::from_bytes(bytes);
        let mut rlog = PMem::from_bytes(log);
        replay_records(&mut mem, &mut rlog, cpus);
        let ghost b0 = mem@;
        proof {
            assert(b0 == replay_all(bb, l0, cpus as int));
        }
        let mut items: Vec<BuddyAlg> = Vec::new();
        let mut i: usize = 0;
        while i < cpus
            invariant
                i <= cpus,
                quota == size / cpus,
                quota * cpus <= size,
                8 <= quota <= 0x8000_0000_0000_0000u64,
                total == size + 512 * cpus,
                total <= u64::MAX,
                mem@ == b0,
                b0 == replay_all(bb, l0, cpus as int),
                rlog@.len() == REC_BYTES * cpus,
                REC_BYTES * cpus <= usize::MAX,
                forall|z: int| 0 <= z < cpus ==> #[trigger] rec_idle(rlog@, z),
                bb == bytes@,
                l0 == log@,
                mem@.len() == total,
                items@.len() == i,
                forall|z: int|
                    0 <= z < i ==> {
                        let a = #[trigger] items@[z];
                        &&& a.inv(mem@)
                        &&& Self::zone_placed(a, z, quota as int, size as int)
                        &&& a.redo_log().len() == 0
                        &&& a.word_log().len() == 0
                        &&& a.drop_records().len() == 0
                        &&& blk(a.last_order()) <= quota < blk(a.last_order() + 1)
                        &&& crate::buddy::lists_stored(mem@, a.meta_off(), a.free_lists())
                        &&& crate::buddy::stores_zone(mem@, a.meta_off(), a.zone_base(), a.last_order(), a.free_lists())
                        &&& a.spec_available() == crate::buddy::total(a.free_lists())
                    },
            decreases cpus - i,
        {
            proof {
                assert(quota * i + quota <= quota * cpus) by (nonlinear_arith)
                    requires
                        i < cpus,
                        quota >= 0,
                ;
            }
            let base: usize = quota * i;
            let meta: usize = size + 512 * i;
            match BuddyAlg::load(&mem, meta as u64, base as u64, quota) {
                None => {
                    proof {
                        let z = i as int;
                        assert(meta == size + 512 * z);
                        assert(base == (size / cpus) * z);
                        assert(zone_unreadable(b0, size as int, cpus as int, z));
                        assert(0 <= z < cpus);
                        assert(exists|y: int| 0 <= y < cpus && #[trigger] zone_unreadable(replay_all(bb, l0, cpus as int), size as int, cpus as int, y));
                    }
                    return None;
                },
                Some(a) => {
                    let ghost before = items@;
                    items.push(a);
                    proof {
                        assert forall|z: int| 0 <= z < i + 1 implies {
                            let a = #[trigger] items@[z];
                            &&& a.inv(mem@)
                            &&& Self::zone_placed(a, z, quota as int, size as int)
                            &&& a.redo_log().len() == 0
                            &&& a.word_log().len() == 0
                            &&& a.drop_records().len() == 0
                            &&& blk(a.last_order()) <= quota < blk(a.last_order() + 1)
                            &&& crate::buddy::lists_stored(mem@, a.meta_off(), a.free_lists())
                            &&& crate::buddy::stores_zone(mem@, a.meta_off(), a.zone_base(), a.last_order(), a.free_lists())
                            &&& a.spec_available() == crate::buddy::total(a.free_lists())
                        } by {
                            if z < i {
                                assert(items@[z] == before[z]);
                            }
                        }
                    }
                },
            }
            i = i + 1;
        }
        let zones = Zones::new(cpus, 0, quota, items);
        let r = BuddyPool { mem, zones, size, log: rlog };
        proof {
            let zs = r.zones.items();
            assert(r.zones.spec_count() == cpus);
            assert(r.zones.spec_quota() == quota);
            assert forall|z: int, j: int| 0 <= z < cpus && 0 <= j < zs[z].word_log().len() implies avoids_all(
                (#[trigger] zs[z].word_log()[j]).0 as int,
                zs,
            ) by {
                assert(zs[z] == items@[z]);
            }
            assert(r.zones.wf());
            assert(cpus * quota <= size) by (nonlinear_arith) requires quota * cpus <= size;
            assert forall|z: int| 0 <= z < cpus implies {
                &&& (#[trigger] zs[z]).inv(r.mem@)
                &&& Self::zone_placed(zs[z], z, quota as int, size as int)
                &&& z != -1 ==> zs[z].redo_log().len() == 0 && zs[z].drop_records().len() == 0 && zs[z].word_log().len() == 0
            } by {
                assert(zs[z] == items@[z]);
            }
            assert forall|z: int| 0 <= z < cpus implies {
                let a = #[trigger] r.zone_list()[z];
                &&& a.zone_base() == (size / cpus) * z
                &&& a.meta_off() == size + 512 * z
                &&& blk(a.last_order()) <= size / cpus < blk(a.last_order() + 1)
                &&& crate::buddy::lists_stored(b0, a.meta_off(), a.free_lists())
                &&& crate::buddy::stores_zone(b0, a.meta_off(), a.zone_base(), a.last_order(), a.free_lists())
                &&& a.spec_available() == crate::buddy::total(a.free_lists())
            } by {
                assert(zs[z] == items@[z]);
            }
        }
        Some(r)
    }
}

} // verus!

verus! {

/// A word store that no free byte lies under avoids the blocks of lists whose
/// free bytes under it were free before.
pub proof fn lemma_avoids_via_free(a: int, meta: int, ls1: Seq<Seq<u64>>, ls2: Seq<Seq<u64>>)
    requires
        word_avoids(a, meta, ls1),
        forall|p: int| a <= p < a + 8 && #[trigger] is_free(ls2, p) ==> is_free(ls1, p),
    ensures
        word_avoids(a, meta, ls2),
{
    assert forall|k: int, i: int| 0 <= k < 64 && 0 <= i < ls2[k].len() implies a + 8 <= #[trigger] ls2[k][i] || ls2[k][i]
        + blk(k) <= a by {
        let b = ls2[k][i] as int;
        if !(a + 8 <= b || b + blk(k) <= a) {
            vstd::arithmetic::power2::lemma_pow2_pos(k as nat);
            let p = if a < b {
                b
            } else {
                a
            };
            assert(ls2[k][i] <= p < ls2[k][i] + blk(k) && ls2[k][i] == ls2[k][i]);
            assert(is_free(ls2, p));
            let (k1, i1) = choose|k1: int, i1: int|
                0 <= k1 < 64 && 0 <= i1 < ls1[k1].len() && ls1[k1][i1] <= p < ls1[k1][i1] + blk(k1)
                    && #[trigger] ls1[k1][i1] == ls1[k1][i1];
            assert(a + 8 <= ls1[k1][i1] || ls1[k1][i1] + blk(k1) <= a);
        }
    }
}

/// Zone `y`, placed below zone `z` or above it, owns none of zone `z`'s bytes.
proof fn lemma_zones_apart(y: int, z: int, q: int, n: int, size: int)
    requires
        0 <= y < n,
        0 <= z < n,
        y != z,
        q >= 0,
        n * q <= size,
    ensures
        q * y + q <= q * z || q * z + q <= q * y,
        q * y + q <= size,
        q * z + q <= size,
{
    if y < z {
        assert(q * y + q <= q * z) by (nonlinear_arith)
            requires
                y < z,
                q >= 0,
        ;
    } else {
        assert(q * z + q <= q * y) by (nonlinear_arith)
            requires
                z < y,
                q >= 0,
        ;
    }
    assert(q * y + q <= q * n) by (nonlinear_arith)
        requires
            y < n,
            q >= 0,
    ;
    assert(q * z + q <= q * n) by (nonlinear_arith)
        requires
            z < n,
            q >= 0,
    ;
    assert(q * n == n * q) by (nonlinear_arith);
}

/// The zones other than `z` stay consistent when the image changes only in
/// bytes that zone `z` owns or that the word stores `words` cover, when
/// those stores avoid every zone.
pub proof fn lemma_others_keep(
    zs: Seq<BuddyAlg>,
    z: int,
    q: int,
    size: int,
    m1: Seq<u8>,
    m2: Seq<u8>,
    words: Seq<(u64, u64)>,
)
    requires
        0 <= z < zs.len(),
        q >= 0,
        zs.len() * q <= size,
        m1.len() == m2.len(),
        BuddyPool::zone_placed(zs[z], z, q, size),
        forall|y: int|
            0 <= y < zs.len() && y != z ==> (#[trigger] zs[y]).inv(m1) && BuddyPool::zone_placed(zs[y], y, q, size)
                && zs[y].redo_log().len() == 0,
        forall|j: int| 0 <= j < words.len() ==> avoids_all((#[trigger] words[j]).0 as int, zs),
        forall|p: int| 0 <= p < m1.len() && !zs[z].owns(p) && !covers(words, p) ==> #[trigger] m2[p] == m1[p],
    ensures
        forall|y: int| 0 <= y < zs.len() && y != z ==> (#[trigger] zs[y]).inv(m2),
{
    assert forall|y: int| 0 <= y < zs.len() && y != z implies (#[trigger] zs[y]).inv(m2) by {
        let a = zs[y];
        a.lemma_inv(m1);
        a.lemma_inv_core(m1);
        a.lemma_free_in_zone(m1);
        lemma_zones_apart(y, z, q, zs.len() as int, size);
        assert forall|p: int|
            0 <= p < m1.len() && (a.meta_off() <= p < a.meta_off() + 512 || is_free(a.free_lists(), p)) implies #[trigger] m1[p]
            == m2[p] by {
            assert(!zs[z].owns(p));
            if covers(words, p) {
                let j = choose|j: int| 0 <= j < words.len() && #[trigger] words[j].0 <= p < words[j].0 + 8;
                assert(avoids_all(words[j].0 as int, zs));
                assert(word_avoids(words[j].0 as int, zs[y].meta_off(), zs[y].pending_lists()));
                assert(a.pending_lists() == a.free_lists());
                if is_free(a.free_lists(), p) {
                    let (k, i) = choose|k: int, i: int|
                        0 <= k < 64 && 0 <= i < a.free_lists()[k].len() && a.free_lists()[k][i] <= p < a.free_lists()[k][i]
                            + blk(k) && #[trigger] a.free_lists()[k][i] == a.free_lists()[k][i];
                    assert(words[j].0 + 8 <= a.free_lists()[k][i] || a.free_lists()[k][i] + blk(k) <= words[j].0);
                }
            }
        }
        a.lemma_inv_frame(m1, m2);
    }
}

} // verus!

verus! {

/// Free bytes of the first `n` zones.
pub open spec fn avail_sum(zs: Seq<BuddyAlg>, n: int) -> int
    decreases n,
{
    if n <= 0 {
        0
    } else {
        avail_sum(zs, n - 1) + zs[n - 1].spec_available()
    }
}

/// Bytes in use in the first `n` zones.
pub open spec fn used_sum(zs: Seq<BuddyAlg>, n: int) -> int
    decreases n,
{
    if n <= 0 {
        0
    } else {
        used_sum(zs, n - 1) + zs[n - 1].zone_size() - zs[n - 1].spec_available()
    }
}

/// Replacing a zone by one with the same head words and pending lists keeps
/// every store that avoided all zones avoiding them.
pub proof fn lemma_avoids_update(zs: Seq<BuddyAlg>, z: int, b: BuddyAlg, a: int)
    requires
        0 <= z < zs.len(),
        avoids_all(a, zs),
        b.meta_off() == zs[z].meta_off(),
        word_avoids(a, b.meta_off(), b.pending_lists()),
    ensures
        avoids_all(a, zs.update(z, b)),
{
    assert forall|y: int| 0 <= y < zs.len() implies word_avoids(a, (#[trigger] zs.update(z, b)[y]).meta_off(), zs.update(z, b)[y].pending_lists()) by {
        if y != z {
            assert(zs.update(z, b)[y] == zs[y]);
        }
    }
}

impl BuddyPool {
    /// Bytes given to the zones.
    pub fn size(&self) -> (r: usize)
        ensures
            r == self.pool_size(),
    {
        self.size
    }

    /// Length of the image: the zones' bytes followed by their head words.
    pub fn image_len(&self) -> (r: usize)
        requires
            self.inv(),
        ensures
            r == self.image().len(),
    {
        self.size + 512 * self.zones.count()
    }

    /// Number of zones.
    pub fn zones(&self) -> (r: usize)
        ensures
            r == self.zone_total(),
    {
        self.zones.count()
    }

    /// Index of the zone that manages offset `off`.
    pub fn zone(&self, off: u64) -> (r: usize)
        requires
            self.inv(),
            off < self.image().len(),
        ensures
            r == off / (self.zone_quota() as u64),
    {
        (off / (self.zones.quota() as u64)) as usize
    }

    /// Whether `off` lies in the pool's image.
    pub fn allocated(&self, off: u64, len: usize) -> (r: bool)
        requires
            self.inv(),
        ensures
            r == (off < self.image().len()),
    {
        off < ((self.size + 512 * self.zones.count()) as u64)
    }

    /// Free bytes over all zones.
    pub fn available(&self) -> (r: usize)
        requires
            self.inv(),
        ensures
            r == avail_sum(self.zone_list(), self.zone_total()),
    {
        let n = self.zones.count();
        let mut sum: usize = 0;
        let mut i: usize = 0;
        while i < n
            invariant
                self.inv(),
                n == self.zone_total(),
                i <= n,
                sum == avail_sum(self.zone_list(), i as int),
                avail_sum(self.zone_list(), i as int) <= self.zone_quota() * i,
            decreases n - i,
        {
            let a = self.zones.at(i);
            proof {
                let zs = self.zone_list();
                assert(zs[i as int].inv(self.mem@));
                zs[i as int].lemma_inv(self.mem@);
                zs[i as int].lemma_inv_core(self.mem@);
                crate::buddy::lemma_total_le_size(zs[i as int].free_lists(), zs[i as int].zone_base(), zs[i as int].zone_size(), zs[i as int].last_order());
                assert(self.zone_quota() * i + self.zone_quota() == self.zone_quota() * (i + 1)) by (nonlinear_arith);
                assert(self.zone_quota() * (i + 1) <= self.zone_quota() * n) by (nonlinear_arith)
                    requires
                        i + 1 <= n,
                        self.zone_quota() >= 0,
                ;
                assert(self.zone_quota() * n == n * self.zone_quota()) by (nonlinear_arith);
            }
            sum = sum + a.available();
            i = i + 1;
        }
        sum
    }

    /// Bytes in use over all zones.
    pub fn used(&self) -> (r: usize)
        requires
            self.inv(),
        ensures
            r == used_sum(self.zone_list(), self.zone_total()),
    {
        let n = self.zones.count();
        let mut sum: usize = 0;
        let mut i: usize = 0;
        while i < n
            invariant
                self.inv(),
                n == self.zone_total(),
                i <= n,
                sum == used_sum(self.zone_list(), i as int),
                used_sum(self.zone_list(), i as int) <= self.zone_quota() * i,
            decreases n - i,
        {
            let a = self.zones.at(i);
            proof {
                let zs = self.zone_list();
                assert(zs[i as int].inv(self.mem@));
                zs[i as int].lemma_inv(self.mem@);
                zs[i as int].lemma_inv_core(self.mem@);
                crate::buddy::lemma_total_le_size(zs[i as int].free_lists(), zs[i as int].zone_base(), zs[i as int].zone_size(), zs[i as int].last_order());
                assert(self.zone_quota() * i + self.zone_quota() == self.zone_quota() * (i + 1)) by (nonlinear_arith);
                assert(self.zone_quota() * (i + 1) <= self.zone_quota() * n) by (nonlinear_arith)
                    requires
                        i + 1 <= n,
                        self.zone_quota() >= 0,
                ;
                assert(self.zone_quota() * n == n * self.zone_quota()) by (nonlinear_arith);
            }
            sum = sum + a.used(&self.mem);
            i = i + 1;
        }
        sum
    }

    /// There is one allocator per zone, and the head words of each lie in
    /// the image below a last order under 64.
    pub closed spec fn heads_in_image(&self) -> bool {
        let zs = self.zones.items();
        &&& self.zones.wf()
        &&& forall|z: int|
            0 <= z < self.zones.spec_count() ==> (#[trigger] zs[z]).meta_off() + 512 <= self.mem@.len()
                && zs[z].last_order() < 64
    }

    /// Every free list of every zone passes the walk of `BuddyAlg::verify`.
    pub open spec fn zones_pass(&self, loops: bool) -> bool {
        forall|z: int|
            0 <= z < self.zone_total() ==> (#[trigger] self.zone_list()[z]).free_lists_pass(self.image(), loops)
    }

    /// Every walk of every zone's free lists comes to an end.
    pub open spec fn zone_walks_end(&self, loops: bool) -> bool {
        forall|z: int|
            0 <= z < self.zone_total() ==> (#[trigger] self.zone_list()[z]).free_walks_end(self.image(), loops)
    }

    /// A consistent pool passes the free-list walk in every zone, with or
    /// without the cycle check.
    pub proof fn lemma_consistent_pool_passes(&self, loops: bool)
        requires
            self.inv(),
        ensures
            self.heads_in_image(),
            self.zones_pass(loops),
            self.zone_walks_end(loops),
    {
        let zs = self.zones.items();
        assert forall|z: int| 0 <= z < self.zones.spec_count() implies (#[trigger] zs[z]).meta_off() + 512
            <= self.mem@.len() && zs[z].last_order() < 64 && zs[z].free_lists_pass(self.mem@, loops)
            && zs[z].free_walks_end(self.mem@, loops) by {
            assert(zs[z].inv(self.mem@));
            zs[z].lemma_consistent_lists_pass(self.mem@, loops);
        }
    }

    /// Walks the free lists of every zone as `BuddyAlg::verify` does and
    /// tells whether all of them pass. Without `loops` a list that runs in a
    /// circle is never left, so such lists are not admitted.
    pub fn verify(&self, loops: bool) -> (r: bool)
        requires
            self.heads_in_image(),
            !loops ==> self.zone_walks_end(false),
        ensures
            r == self.zones_pass(loops),
    {
        let n = self.zones.count();
        let mut i: usize = 0;
        while i < n
            invariant
                self.heads_in_image(),
                !loops ==> self.zone_walks_end(false),
                n == self.zone_total(),
                i <= n,
                forall|z: int| 0 <= z < i ==> (#[trigger] self.zone_list()[z]).free_lists_pass(self.image(), loops),
            decreases n - i,
        {
            let a = self.zones.at(i);
            proof {
                assert(self.zone_list()[i as int].meta_off() + 512 <= self.mem@.len());
            }
            if !a.verify(&self.mem, loops) {
                return false;
            }
            i = i + 1;
        }
        true
    }

    /// The bytes of the log image.
    pub fn log_bytes(&self) -> (r: Vec<u8>)
        requires
            self.inv(),
        ensures
            r@ == self.log_image(),
    {
        let n = self.log.len();
        let r = self.log.read_bytes(0, n as u64);
        proof {
            assert(r@ =~= self.log_image());
        }
        r
    }

    /// Between operations every redo record of the log image is marked
    /// empty.
    pub proof fn lemma_log_idle(&self, busy: int)
        requires
            self.inv_busy(busy),
        ensures
            self.log_image().len() == REC_BYTES * self.zone_total(),
            forall|z: int| 0 <= z < self.zone_total() ==> #[trigger] rec_idle(self.log_image(), z),
    {
    }

    /// The stores that `perform(z)` makes, in order: zone `z`'s queued
    /// free-list stores, then its queued word stores. `perform` writes them
    /// into zone `z`'s redo record, marks it complete, makes them, and marks
    /// it empty again.
    pub open spec fn queued(&self, z: int) -> Seq<(u64, u64)> {
        self.zone_list()[z].redo_log() + self.zone_list()[z].word_log()
    }

    /// A crash while zone `z` makes its queued stores leaves the image after
    /// a prefix of them and its redo record complete with all of them, the
    /// other records empty: opening the pool from there makes the image that
    /// `perform(z)` leaves.
    pub proof fn lemma_open_completes_perform(&self, z: int, l: Seq<u8>, k: int)
        requires
            self.inv_busy(z),
            0 <= z < self.zone_total(),
            forall|y: int| 0 <= y < self.zone_total() && y != z ==> #[trigger] rec_idle(l, y),
            rd(l, rec_at(z)) == 1,
            rd(l, rec_at(z) + 8) == self.queued(z).len(),
            rec_writes(l, rec_at(z)) == self.queued(z),
            0 <= k <= self.queued(z).len(),
        ensures
            replay_all(crate::pmem::apply_writes(self.image(), self.queued(z).take(k)), l, self.zone_total())
                == crate::pmem::apply_writes(
                crate::pmem::apply_writes(self.image(), self.zone_list()[z].redo_log()),
                self.zone_list()[z].word_log(),
            ),
    {
        let a = self.zone_list()[z];
        let m0 = self.image();
        let ws = self.queued(z);
        assert(a.inv(m0));
        a.lemma_inv(m0);
        a.lemma_inv_core(m0);
        a.lemma_redo_in_bounds(m0);
        a.lemma_words_in_bounds(m0);
        assert(crate::pmem::writes_in_bounds(ws, m0.len() as int)) by {
            assert forall|j: int| 0 <= j < ws.len() implies #[trigger] ws[j].0 + 8 <= m0.len() by {
                if j < a.redo_log().len() {
                    assert(ws[j] == a.redo_log()[j]);
                } else {
                    assert(ws[j] == a.word_log()[j - a.redo_log().len()]);
                }
            }
        }
        assert(ws.len() < 136);
        assert(rec_valid(l, rec_at(z), m0.len() as int));
        lemma_replay_after_crash(m0, l, self.zone_total(), z, ws, k);
        lemma_apply_writes_concat(m0, a.redo_log(), a.word_log());
    }

    /// With no redo record marked complete, as before `perform` completes a
    /// record or after it marks it empty again, opening takes the image as
    /// it is.
    pub proof fn lemma_open_keeps_image(s: Seq<u8>, l: Seq<u8>, n: int)
        requires
            forall|y: int| 0 <= y < n ==> rd(l, #[trigger] rec_at(y)) != 1,
        ensures
            replay_all(s, l, n) == s,
    {
        lemma_replay_idle(s, l, n);
    }

    /// Order of the largest block of zone `z`.
    pub fn zone_last_idx(&self, z: usize) -> (r: usize)
        requires
            self.inv(),
            z < self.zone_total(),
        ensures
            r == self.zone_list()[z as int].last_order(),
    {
        self.zones.at(z).last_idx()
    }

    /// The blocks of free list `idx` of zone `z`, in list order.
    pub fn zone_free_list(&self, z: usize, idx: usize) -> (r: Vec<u64>)
        requires
            self.inv(),
            z < self.zone_total(),
            idx < 64,
        ensures
            r@ == self.zone_list()[z as int].free_lists()[idx as int],
    {
        let a = self.zones.at(z);
        proof {
            assert(self.zone_list()[z as int].inv(self.mem@));
        }
        a.free_list(&self.mem, idx)
    }

    /// What zone `z` holds for its recovery.
    pub fn zone_recovery_state(&self, z: usize) -> (r: crate::buddy::ZoneLogs)
        requires
            self.inv(),
            z < self.zone_total(),
        ensures
            r.crashed == self.zone_list()[z as int].in_operation(),
            r.aux@ == crate::buddy::with_current(self.image(), self.zone_list()[z as int].redo_log()),
            r.log64@ == crate::buddy::with_current(self.image(), self.zone_list()[z as int].word_log()),
            r.drops@ == self.zone_list()[z as int].drop_records(),
    {
        let a = self.zones.at(z);
        proof {
            assert(self.zone_list()[z as int].inv(self.mem@));
        }
        a.recovery_state(&self.mem)
    }
}

} // verus!

verus! {

impl BuddyPool {
    /// Queues in zone `z` the store of `val` at `off`, performed with the
    /// zone's changes.
    pub fn log64(&mut self, off: u64, val: u64, z: usize)
        requires
            old(self).inv_busy(z as int),
            z < old(self).zone_total(),
            old(self).zone_list()[z as int].word_log().len() + 1 < 8,
            off + 8 <= old(self).image().len(),
            avoids_all(off as int, old(self).zone_list()),
        ensures
            final(self).zone_list()[z as int].spec_available() == old(self).zone_list()[z as int].spec_available(),
            final(self).zone_list()[z as int].spec_available_log() == old(self).zone_list()[z as int].spec_available_log(),
            final(self).zone_list()[z as int].meta_off() == old(self).zone_list()[z as int].meta_off(),
            final(self).zone_list()[z as int].zone_base() == old(self).zone_list()[z as int].zone_base(),
            final(self).zone_list()[z as int].zone_size() == old(self).zone_list()[z as int].zone_size(),
            final(self).zone_list()[z as int].last_order() == old(self).zone_list()[z as int].last_order(),
            final(self).inv_busy(z as int),
            final(self).image() == old(self).image(),
            final(self).zone_list()[z as int].word_log() == old(self).zone_list()[z as int].word_log().push((off, val)),
            final(self).zone_list()[z as int].redo_log() == old(self).zone_list()[z as int].redo_log(),
            final(self).zone_list()[z as int].pending_lists() == old(self).zone_list()[z as int].pending_lists(),
            final(self).zone_list()[z as int].free_lists() == old(self).zone_list()[z as int].free_lists(),
            forall|y: int| 0 <= y < old(self).zone_total() && y != z ==> #[trigger] final(self).zone_list()[y] == old(self).zone_list()[y],
            final(self).zone_total() == old(self).zone_total(),
            final(self).zone_quota() == old(self).zone_quota(),
            final(self).pool_size() == old(self).pool_size(),
    {
        let ghost zs = self.zone_list();
        proof {
            assert(zs[z as int].inv(self.mem@));
            assert(word_avoids(off as int, zs[z as int].meta_off(), zs[z as int].pending_lists()));
        }
        self.zones.items[z].log(&self.mem, off, val);
        proof {
            let zs2 = self.zone_list();
            assert(zs2 == zs.update(z as int, zs2[z as int]));
            assert forall|y: int, j: int| 0 <= y < zs2.len() && 0 <= j < zs2[y].word_log().len() implies avoids_all(
                (#[trigger] zs2[y].word_log()[j]).0 as int,
                zs2,
            ) by {
                let w = zs2[y].word_log()[j].0 as int;
                if y == z && j == zs[z as int].word_log().len() {
                    assert(w == off);
                } else {
                    assert(zs2[y].word_log()[j] == zs[y].word_log()[j]);
                    assert(avoids_all(w, zs));
                }
                lemma_avoids_update(zs, z as int, zs2[z as int], w);
            }
            assert forall|y: int| 0 <= y < zs2.len() implies {
                &&& (#[trigger] zs2[y]).inv(self.mem@)
                &&& Self::zone_placed(zs2[y], y, self.zones.spec_quota(), self.size as int)
                &&& y != z ==> zs2[y].redo_log().len() == 0 && zs2[y].drop_records().len() == 0 && zs2[y].word_log().len() == 0
            } by {
                if y != z {
                    assert(zs2[y] == zs[y]);
                }
            }
        }
    }

    /// Records in zone `z` a block to reclaim if the operation fails.
    pub fn drop_on_failure(&mut self, off: u64, len: usize, z: usize)
        requires
            old(self).inv_busy(z as int),
            z < old(self).zone_total(),
            old(self).zone_list()[z as int].drop_records().len() + 1 < 8,
        ensures
            final(self).zone_list()[z as int].spec_available() == old(self).zone_list()[z as int].spec_available(),
            final(self).zone_list()[z as int].spec_available_log() == old(self).zone_list()[z as int].spec_available_log(),
            final(self).zone_list()[z as int].meta_off() == old(self).zone_list()[z as int].meta_off(),
            final(self).zone_list()[z as int].zone_base() == old(self).zone_list()[z as int].zone_base(),
            final(self).zone_list()[z as int].zone_size() == old(self).zone_list()[z as int].zone_size(),
            final(self).zone_list()[z as int].last_order() == old(self).zone_list()[z as int].last_order(),
            final(self).inv_busy(z as int),
            final(self).image() == old(self).image(),
            final(self).zone_list()[z as int].drop_records() == old(self).zone_list()[z as int].drop_records().push((off, len)),
            final(self).zone_list()[z as int].redo_log() == old(self).zone_list()[z as int].redo_log(),
            final(self).zone_list()[z as int].word_log() == old(self).zone_list()[z as int].word_log(),
            final(self).zone_list()[z as int].pending_lists() == old(self).zone_list()[z as int].pending_lists(),
            final(self).zone_list()[z as int].free_lists() == old(self).zone_list()[z as int].free_lists(),
            forall|y: int| 0 <= y < old(self).zone_total() && y != z ==> #[trigger] final(self).zone_list()[y] == old(self).zone_list()[y],
            final(self).zone_total() == old(self).zone_total(),
            final(self).zone_quota() == old(self).zone_quota(),
            final(self).pool_size() == old(self).pool_size(),
    {
        let ghost zs = self.zone_list();
        proof {
            assert(zs[z as int].inv(self.mem@));
        }
        self.zones.items[z].drop_on_failure(&self.mem, off, len);
        proof {
            let zs2 = self.zone_list();
            assert forall|y: int, j: int| 0 <= y < zs2.len() && 0 <= j < zs2[y].word_log().len() implies avoids_all(
                (#[trigger] zs2[y].word_log()[j]).0 as int,
                zs2,
            ) by {
                let w = zs2[y].word_log()[j].0 as int;
                assert(zs2[y].word_log()[j] == zs[y].word_log()[j]);
                assert(avoids_all(w, zs));
                lemma_avoids_update(zs, z as int, zs2[z as int], w);
                assert(zs2 == zs.update(z as int, zs2[z as int]));
            }
            assert forall|y: int| 0 <= y < zs2.len() implies {
                &&& (#[trigger] zs2[y]).inv(self.mem@)
                &&& Self::zone_placed(zs2[y], y, self.zones.spec_quota(), self.size as int)
                &&& y != z ==> zs2[y].redo_log().len() == 0 && zs2[y].drop_records().len() == 0 && zs2[y].word_log().len() == 0
            } by {
                if y != z {
                    assert(zs2[y] == zs[y]);
                }
            }
        }
    }

    /// Begins a failure-atomic section in zone `z`.
    pub fn prepare(&mut self, z: usize)
        requires
            old(self).inv_busy(z as int),
            z < old(self).zone_total(),
        ensures
            final(self).zone_list()[z as int].spec_available() == old(self).zone_list()[z as int].spec_available(),
            final(self).zone_list()[z as int].spec_available_log() == old(self).zone_list()[z as int].spec_available_log(),
            final(self).zone_list()[z as int].meta_off() == old(self).zone_list()[z as int].meta_off(),
            final(self).zone_list()[z as int].zone_base() == old(self).zone_list()[z as int].zone_base(),
            final(self).zone_list()[z as int].zone_size() == old(self).zone_list()[z as int].zone_size(),
            final(self).zone_list()[z as int].last_order() == old(self).zone_list()[z as int].last_order(),
            final(self).inv_busy(z as int),
            final(self).image() == old(self).image(),
            final(self).zone_list()[z as int].word_log().len() == 0,
            final(self).zone_list()[z as int].in_operation(),
            final(self).zone_list()[z as int].lock_word() == 1,
            final(self).zone_list()[z as int].redo_log() == old(self).zone_list()[z as int].redo_log(),
            final(self).zone_list()[z as int].drop_records() == old(self).zone_list()[z as int].drop_records(),
            final(self).zone_list()[z as int].pending_lists() == old(self).zone_list()[z as int].pending_lists(),
            final(self).zone_list()[z as int].free_lists() == old(self).zone_list()[z as int].free_lists(),
            forall|y: int| 0 <= y < old(self).zone_total() && y != z ==> #[trigger] final(self).zone_list()[y] == old(self).zone_list()[y],
            final(self).zone_total() == old(self).zone_total(),
            final(self).zone_quota() == old(self).zone_quota(),
            final(self).pool_size() == old(self).pool_size(),
    {
        let ghost zs = self.zone_list();
        proof {
            assert(zs[z as int].inv(self.mem@));
        }
        self.zones.items[z].prepare(&self.mem);
        proof {
            let zs2 = self.zone_list();
            assert forall|y: int, j: int| 0 <= y < zs2.len() && 0 <= j < zs2[y].word_log().len() implies avoids_all(
                (#[trigger] zs2[y].word_log()[j]).0 as int,
                zs2,
            ) by {
                let w = zs2[y].word_log()[j].0 as int;
                assert(y != z);
                assert(zs2[y].word_log()[j] == zs[y].word_log()[j]);
                assert(avoids_all(w, zs));
                lemma_avoids_update(zs, z as int, zs2[z as int], w);
                assert(zs2 == zs.update(z as int, zs2[z as int]));
            }
            assert forall|y: int| 0 <= y < zs2.len() implies {
                &&& (#[trigger] zs2[y]).inv(self.mem@)
                &&& Self::zone_placed(zs2[y], y, self.zones.spec_quota(), self.size as int)
                &&& y != z ==> zs2[y].redo_log().len() == 0 && zs2[y].drop_records().len() == 0 && zs2[y].word_log().len() == 0
            } by {
                if y != z {
                    assert(zs2[y] == zs[y]);
                }
            }
        }
    }
}

} // verus!

verus! {

impl BuddyPool {
    /// Performs the queued changes of zone `z` and ends its failure-atomic
    /// section; every zone is then idle. The stores are first written into
    /// zone `z`'s redo record in the log image, which is marked complete
    /// before the first of them and empty again after the last.
    pub fn perform(&mut self, z: usize)
        requires
            old(self).inv_busy(z as int),
            z < old(self).zone_total(),
        ensures
            forall|p: int|
                0 <= p < old(self).image().len() && !(old(self).zone_list()[z as int].meta_off() <= p
                    < old(self).zone_list()[z as int].meta_off() + 512) && !is_free(old(self).zone_list()[z as int].free_lists(), p)
                    && !is_free(old(self).zone_list()[z as int].pending_lists(), p) && !covers(
                    old(self).zone_list()[z as int].word_log(),
                    p,
                ) ==> #[trigger] final(self).image()[p] == old(self).image()[p],
            final(self).zone_list()[z as int].meta_off() == old(self).zone_list()[z as int].meta_off(),
            final(self).zone_list()[z as int].zone_base() == old(self).zone_list()[z as int].zone_base(),
            final(self).zone_list()[z as int].zone_size() == old(self).zone_list()[z as int].zone_size(),
            final(self).zone_list()[z as int].last_order() == old(self).zone_list()[z as int].last_order(),
            final(self).inv(),
            final(self).image() == crate::pmem::apply_writes(
                crate::pmem::apply_writes(old(self).image(), old(self).zone_list()[z as int].redo_log()),
                old(self).zone_list()[z as int].word_log(),
            ),
            crate::pmem::apply_writes(old(self).image(), old(self).zone_list()[z as int].redo_log()).len() == old(self).image().len(),
            final(self).zone_list()[z as int].free_lists() == old(self).zone_list()[z as int].pending_lists(),
            final(self).zone_list()[z as int].spec_available() == old(self).zone_list()[z as int].spec_available_log(),
            final(self).zone_list()[z as int].word_log().len() == 0,
            final(self).zone_list()[z as int].drop_records().len() == 0,
            !final(self).zone_list()[z as int].in_operation(),
            final(self).zone_list()[z as int].lock_word() == 0,
            forall|p: int|
                0 <= p < old(self).image().len() && !old(self).zone_list()[z as int].owns(p) && !covers(
                    old(self).zone_list()[z as int].word_log(),
                    p,
                ) ==> #[trigger] final(self).image()[p] == old(self).image()[p],
            final(self).image().len() == old(self).image().len(),
            forall|y: int| 0 <= y < old(self).zone_total() && y != z ==> #[trigger] final(self).zone_list()[y] == old(self).zone_list()[y],
            final(self).zone_total() == old(self).zone_total(),
            final(self).zone_quota() == old(self).zone_quota(),
            final(self).pool_size() == old(self).pool_size(),
    {
        let ghost zs = self.zone_list();
        let ghost m1 = self.mem@;
        proof {
            assert(zs[z as int].inv(m1));
            zs[z as int].lemma_inv_core(m1);
            zs[z as int].lemma_redo_in_bounds(m1);
            crate::pmem::lemma_apply_writes(m1, zs[z as int].redo_log());
        }
        let ws = self.zones.items[z].queued_writes(&self.mem);
        proof {
            assert(REC_BYTES * z + REC_BYTES <= REC_BYTES * zs.len()) by (nonlinear_arith)
                requires
                    z < zs.len(),
            ;
        }
        let at: u64 = REC_BYTES * (z as u64);
        let ghost l0 = self.log@;
        write_record(&mut self.log, at, &ws);
        self.zones.items[z].perform(&mut self.mem);
        let ghost l1 = self.log@;
        clear_record(&mut self.log, at);
        proof {
            assert forall|y: int| 0 <= y < zs.len() implies #[trigger] rec_idle(self.log@, y) by {
                if y != z {
                    if y < z {
                        assert(REC_BYTES * y + REC_BYTES <= REC_BYTES * z) by (nonlinear_arith)
                            requires
                                y < z,
                        ;
                    } else {
                        assert(REC_BYTES * z + REC_BYTES <= REC_BYTES * y) by (nonlinear_arith)
                            requires
                                z < y,
                        ;
                        assert(REC_BYTES * y + REC_BYTES <= REC_BYTES * zs.len()) by (nonlinear_arith)
                            requires
                                y < zs.len(),
                        ;
                    }
                    assert(rec_idle(l0, y));
                    crate::pmem::lemma_rd_agree(l0, self.log@, rec_at(y));
                }
            }
        }
        proof {
            let zs2 = self.zone_list();
            assert(zs2 == zs.update(z as int, zs2[z as int]));
            zs2[z as int].lemma_inv_core(self.mem@);
            assert forall|y: int| 0 <= y < zs.len() && y != z implies (#[trigger] zs[y]).inv(m1)
                && Self::zone_placed(zs[y], y, self.zones.spec_quota(), self.size as int) && zs[y].redo_log().len()
                == 0 by {}
            assert forall|j: int| 0 <= j < zs[z as int].word_log().len() implies avoids_all(
                (#[trigger] zs[z as int].word_log()[j]).0 as int,
                zs,
            ) by {}
            assert(self.mem@.len() == m1.len());
            lemma_others_keep(
                zs,
                z as int,
                self.zones.spec_quota(),
                self.size as int,
                m1,
                self.mem@,
                zs[z as int].word_log(),
            );
            assert forall|y: int, j: int| 0 <= y < zs2.len() && 0 <= j < zs2[y].word_log().len() implies avoids_all(
                (#[trigger] zs2[y].word_log()[j]).0 as int,
                zs2,
            ) by {
                let w = zs2[y].word_log()[j].0 as int;
                assert(y != z);
                assert(zs2[y] == zs[y]);
                assert(avoids_all(w, zs));
                lemma_avoids_update(zs, z as int, zs2[z as int], w);
            }
            assert forall|y: int| 0 <= y < zs2.len() implies {
                &&& (#[trigger] zs2[y]).inv(self.mem@)
                &&& Self::zone_placed(zs2[y], y, self.zones.spec_quota(), self.size as int)
                &&& y != -1 ==> zs2[y].redo_log().len() == 0 && zs2[y].drop_records().len() == 0 && zs2[y].word_log().len() == 0
            } by {
                if y != z {
                    assert(zs2[y] == zs[y]);
                }
            }
        }
    }

    /// Drops the queued word stores and drop records of zone `z`, which has
    /// no queued free-list changes, and releases its lock.
    pub fn discard(&mut self, z: usize)
        requires
            old(self).inv_busy(z as int),
            z < old(self).zone_total(),
            old(self).zone_list()[z as int].redo_log().len() == 0,
        ensures
            final(self).zone_list()[z as int].meta_off() == old(self).zone_list()[z as int].meta_off(),
            final(self).zone_list()[z as int].zone_base() == old(self).zone_list()[z as int].zone_base(),
            final(self).zone_list()[z as int].zone_size() == old(self).zone_list()[z as int].zone_size(),
            final(self).zone_list()[z as int].last_order() == old(self).zone_list()[z as int].last_order(),
            final(self).inv(),
            final(self).image() == old(self).image(),
            final(self).zone_list()[z as int].free_lists() == old(self).zone_list()[z as int].free_lists(),
            final(self).zone_list()[z as int].spec_available() == old(self).zone_list()[z as int].spec_available(),
            final(self).zone_list()[z as int].word_log().len() == 0,
            final(self).zone_list()[z as int].drop_records().len() == 0,
            final(self).zone_list()[z as int].lock_word() == 0,
            forall|y: int| 0 <= y < old(self).zone_total() && y != z ==> #[trigger] final(self).zone_list()[y] == old(self).zone_list()[y],
            final(self).zone_total() == old(self).zone_total(),
            final(self).zone_quota() == old(self).zone_quota(),
            final(self).pool_size() == old(self).pool_size(),
    {
        let ghost zs = self.zone_list();
        proof {
            assert(zs[z as int].inv(self.mem@));
            zs[z as int].lemma_inv_core(self.mem@);
        }
        self.zones.items[z].discard(&self.mem);
        proof {
            let zs2 = self.zone_list();
            assert(zs2 == zs.update(z as int, zs2[z as int]));
            zs[z as int].lemma_inv(self.mem@);
            assert forall|y: int, j: int| 0 <= y < zs2.len() && 0 <= j < zs2[y].word_log().len() implies avoids_all(
                (#[trigger] zs2[y].word_log()[j]).0 as int,
                zs2,
            ) by {
                let w = zs2[y].word_log()[j].0 as int;
                assert(y != z);
                assert(zs2[y] == zs[y]);
                assert(avoids_all(w, zs));
                lemma_avoids_update(zs, z as int, zs2[z as int], w);
            }
            assert forall|y: int| 0 <= y < zs2.len() implies {
                &&& (#[trigger] zs2[y]).inv(self.mem@)
                &&& Self::zone_placed(zs2[y], y, self.zones.spec_quota(), self.size as int)
                &&& y != -1 ==> zs2[y].redo_log().len() == 0 && zs2[y].drop_records().len() == 0 && zs2[y].word_log().len() == 0
            } by {
                if y != z {
                    assert(zs2[y] == zs[y]);
                }
            }
        }
    }
}

} // verus!

verus! {

/// The zone tried `t`-th by processor `cpu` among `n` zones.
pub open spec fn turn(cpu: int, n: int, t: int) -> int {
    (cpu % n + t) % n
}

/// An allocation of `len` bytes fails in zone `a`: the block size exceeds its
/// free bytes, or no list from the block's order up has a block.
pub open spec fn alloc_fails(a: BuddyAlg, len: int) -> bool {
    let k = order_for(len);
    blk(k) > a.spec_available() || lowest_fit(a.free_lists(), k, a.last_order()) == -1
}

impl BuddyPool {
    /// Queues the allocation of a block for `len` bytes in the first zone, in
    /// turn from the zone of processor `cpu`, where it does not fail. Returns
    /// the block's offset, `len` and the zone, or the null offset when every
    /// zone fails.
    pub fn pre_alloc(&mut self, len: usize, cpu: usize) -> (r: (u64, usize, usize))
        requires
            old(self).inv(),
            0 < len <= 0x8000_0000_0000_0000u64,
        ensures
            final(self).image() == old(self).image(),
            final(self).zone_total() == old(self).zone_total(),
            final(self).zone_quota() == old(self).zone_quota(),
            final(self).pool_size() == old(self).pool_size(),
            forall|y: int| 0 <= y < old(self).zone_total() ==> {
                &&& (#[trigger] final(self).zone_list()[y]).free_lists() == old(self).zone_list()[y].free_lists()
                &&& final(self).zone_list()[y].spec_available() == old(self).zone_list()[y].spec_available()
            },
            r.0 == NONE_OFF ==> {
                &&& r.1 == 0 && r.2 == 0
                &&& final(self).inv()
                &&& forall|y: int| 0 <= y < old(self).zone_total() ==> alloc_fails(#[trigger] old(self).zone_list()[y], len as int)
            },
            r.0 != NONE_OFF ==> {
                let z = r.2 as int;
                let a = old(self).zone_list()[z];
                let k = order_for(len as int);
                let j = lowest_fit(a.free_lists(), k, a.last_order());
                &&& r.1 == len
                &&& z < old(self).zone_total()
                &&& final(self).inv_busy(z)
                &&& !alloc_fails(a, len as int)
                &&& r.0 == a.free_lists()[j][0]
                &&& final(self).zone_list()[z].pending_lists() == split_lists(a.free_lists(), r.0, k, j)
                &&& forall|p: int| #[trigger] is_free(final(self).zone_list()[z].pending_lists(), p) <==> is_free(a.free_lists(), p) && !(r.0 <= p < r.0 + blk(k))
                &&& final(self).zone_list()[z].redo_log().len() > 0
                &&& final(self).zone_list()[z].lock_word() == 1
                &&& final(self).zone_list()[z].drop_records().len() == 0
                &&& final(self).zone_list()[z].spec_available_log() == a.spec_available() - blk(k)
                &&& (final(self).zone_list()[z].word_log() == a.word_log() || final(self).zone_list()[z].word_log().len() == 0)
                &&& final(self).zone_list()[z].meta_off() == a.meta_off()
                &&& final(self).zone_list()[z].zone_base() == a.zone_base()
                &&& final(self).zone_list()[z].zone_size() == a.zone_size()
                &&& final(self).zone_list()[z].word_log().len() == 0
                &&& r.0 + blk(k) <= old(self).image().len()
                &&& len <= blk(k)
                &&& range_live(r.0 as int, blk(k), final(self).zone_list())
                &&& forall|p: int| r.0 <= p < r.0 + blk(k) ==> #[trigger] is_free(a.free_lists(), p)
                &&& forall|o: int, m: int| #[trigger] range_live(o, m, old(self).zone_list()) ==> range_live(o, m, final(self).zone_list())
                &&& exists|i: int|
                    0 <= i < old(self).zone_total() && z == #[trigger] turn(cpu as int, old(self).zone_total(), i)
                        && forall|t: int| 0 <= t < i ==> alloc_fails(
                        old(self).zone_list()[#[trigger] turn(cpu as int, old(self).zone_total(), t)],
                        len as int,
                    )
            },
    {
        let n = self.zones.count();
        let start = cpu % n;
        let ghost zs0 = self.zone_list();
        proof {
            assert(n * 8 <= n * self.zones.spec_quota()) by (nonlinear_arith)
                requires
                    self.zones.spec_quota() >= 8,
                    n >= 1,
            ;
        }
        proof {
            self.lemma_idle();
        }
        let mut i: usize = 0;
        while i < n
            invariant
                self.inv(),
                zs0.len() == n,
                forall|y: int| 0 <= y < n ==> (#[trigger] zs0[y]).pending_lists() == zs0[y].free_lists(),
                forall|y: int| 0 <= y < n ==> (#[trigger] zs0[y]).meta_off() == self.pool_size() + 512 * y,
                n == self.zone_total(),
                n == old(self).zone_total(),
                n * 8 <= self.pool_size(),
                self.pool_size() == old(self).pool_size(),
                self.zone_quota() == old(self).zone_quota(),
                start == cpu % n,
                i <= n,
                zs0 == old(self).zone_list(),
                self.image() == old(self).image(),
                0 < len <= 0x8000_0000_0000_0000u64,
                forall|y: int| 0 <= y < n ==> {
                    &&& (#[trigger] self.zone_list()[y]).free_lists() == zs0[y].free_lists()
                    &&& self.zone_list()[y].spec_available() == zs0[y].spec_available()
                    &&& self.zone_list()[y].last_order() == zs0[y].last_order()
                    &&& self.zone_list()[y].meta_off() == zs0[y].meta_off()
                    &&& self.zone_list()[y].zone_base() == zs0[y].zone_base()
                    &&& self.zone_list()[y].zone_size() == zs0[y].zone_size()
                    &&& (self.zone_list()[y].word_log() == zs0[y].word_log() || self.zone_list()[y].word_log().len() == 0)
                },
                forall|t: int| 0 <= t < i ==> alloc_fails(zs0[#[trigger] turn(cpu as int, n as int, t)], len as int),
            decreases n - i,
        {
            let z = (start + i) % n;
            assert(z == turn(cpu as int, n as int, i as int));
            let ghost zs = self.zone_list();
            let ghost m1 = self.mem@;
            proof {
                assert(zs[z as int].inv(m1));
                zs[z as int].lemma_inv(m1);
                zs[z as int].lemma_inv_core(m1);
                self.lemma_idle();
            }
            let a = self.zones.items[z].alloc_impl(&mut self.mem, len, false);
            let ghost zs2 = self.zone_list();
            proof {
                assert(zs2 == zs.update(z as int, zs2[z as int]));
                assert(self.mem@ == m1);
                assert forall|y: int, j: int| 0 <= y < zs2.len() && 0 <= j < zs2[y].word_log().len() implies avoids_all(
                    (#[trigger] zs2[y].word_log()[j]).0 as int,
                    zs2,
                ) by {
                    let w = zs2[y].word_log()[j].0 as int;
                    if y != z {
                        assert(zs2[y] == zs[y]);
                    } else {
                        assert(zs2[y].word_log()[j] == zs[y].word_log()[j]);
                    }
                    assert(avoids_all(w, zs));
                    assert(word_avoids(w, zs[z as int].meta_off(), zs[z as int].pending_lists()));
                    lemma_avoids_via_free(w, zs[z as int].meta_off(), zs[z as int].pending_lists(), zs2[z as int].pending_lists());
                    lemma_avoids_update(zs, z as int, zs2[z as int], w);
                }
            }
            if a != NONE_OFF {
                proof {
                    let q = self.zones.spec_quota();
                    let k = order_for(len as int);
                    let az = zs[z as int];
                    let j = lowest_fit(az.free_lists(), k, az.last_order());
                    assert(az.word_log().len() == 0);
                    crate::buddy::lemma_order_exists(len as int);
                    crate::buddy::lemma_lowest_fit(az.free_lists(), k, az.last_order());
                    assert(in_zone(az.free_lists()[j][0] as int, j, az.zone_base(), az.zone_size()));
                    assert(k <= j);
                    if k < j {
                        vstd::arithmetic::power2::lemma_pow2_strictly_increases(k as nat, j as nat);
                    }
                    lemma_blk(j);
                    lemma_blk(k);
                    assert(Self::zone_placed(zs0[z as int], z as int, q, self.size as int));
                    assert(q * z + q <= self.size) by (nonlinear_arith)
                        requires
                            z < n,
                            n * q <= self.size,
                            q >= 0,
                    ;
                    assert forall|p: int| a <= p < a + blk(k) implies #[trigger] is_free(zs0[z as int].free_lists(), p) by {
                        assert(az.free_lists()[j][0] == az.free_lists()[j][0]);
                    }
                    assert forall|y: int, p: int| 0 <= y < zs2.len() && a <= p < a + blk(k) implies !#[trigger] zone_dead(zs2[y], p) by {
                        if y != z {
                            assert(zs2[y] == zs[y]);
                            let c = zs[y];
                            assert(c.inv(m1));
                            c.lemma_inv(m1);
                            c.lemma_inv_core(m1);
                            c.lemma_free_in_zone(m1);
                            lemma_zones_apart(y, z as int, q, n as int, self.size as int);
                            assert(Self::zone_placed(zs0[y], y, q, self.size as int));
                        }
                    }
                    assert forall|o: int, mm: int| #[trigger] range_live(o, mm, zs0) implies range_live(o, mm, zs2) by {
                        assert forall|y: int, p: int| 0 <= y < zs2.len() && o <= p < o + mm implies !#[trigger] zone_dead(zs2[y], p) by {
                            assert(!zone_dead(zs0[y], p));
                            if y != z {
                                assert(zs2[y] == zs[y]);
                                zs[y].lemma_inv(m1);
                            }
                        }
                    }
                    assert forall|y: int| 0 <= y < zs2.len() implies {
                        &&& (#[trigger] zs2[y]).inv(self.mem@)
                        &&& Self::zone_placed(zs2[y], y, self.zones.spec_quota(), self.size as int)
                        &&& y != z ==> zs2[y].redo_log().len() == 0 && zs2[y].drop_records().len() == 0 && zs2[y].word_log().len() == 0
                    } by {
                        if y != z {
                            assert(zs2[y] == zs[y]);
                        }
                    }
                    assert(0 <= i < n && z == turn(cpu as int, n as int, i as int));
                    assert forall|y: int| 0 <= y < n implies {
                        &&& (#[trigger] zs2[y]).free_lists() == zs0[y].free_lists()
                        &&& zs2[y].spec_available() == zs0[y].spec_available()
                    } by {
                        if y != z {
                            assert(zs2[y] == zs[y]);
                        }
                    }
                }
                return (a, len, z);
            }
            proof {
                assert forall|y: int| 0 <= y < zs2.len() implies {
                    &&& (#[trigger] zs2[y]).inv(self.mem@)
                    &&& Self::zone_placed(zs2[y], y, self.zones.spec_quota(), self.size as int)
                    &&& y != -1 ==> zs2[y].redo_log().len() == 0 && zs2[y].drop_records().len() == 0 && zs2[y].word_log().len() == 0
                } by {
                    if y != z {
                        assert(zs2[y] == zs[y]);
                    }
                }
            }
            i = i + 1;
        }
        proof {
            assert forall|y: int| 0 <= y < n implies alloc_fails(#[trigger] zs0[y], len as int) by {
                let t = if y >= start { y - start } else { y - start + n };
                assert(turn(cpu as int, n as int, t) == y) by {
                    assert(start + t == y || start + t == y + n);
                    vstd::arithmetic::div_mod::lemma_mod_add_multiples_vanish(y, n as int);
                    vstd::arithmetic::div_mod::lemma_small_mod(y as nat, n as nat);
                }
                assert(0 <= t < n);
            }
        }
        (NONE_OFF, 0, 0)
    }
}

} // verus!

verus! {

impl BuddyPool {
    /// Queues the return of the block at `off`, allocated for `len` bytes, to
    /// the zone that holds it, and returns that zone.
    pub fn pre_dealloc(&mut self, off: u64, len: usize) -> (z: usize)
        requires
            old(self).inv(),
            off / (old(self).zone_quota() as u64) < old(self).zone_total(),
            ({
                let a = old(self).zone_list()[(off / (old(self).zone_quota() as u64)) as int];
                let k = order_for(len as int);
                &&& 0 < len <= a.zone_size()
                &&& in_zone(off as int, k, a.zone_base(), a.zone_size())
                &&& forall|p: int| off <= p < off + blk(k) ==> !#[trigger] is_free(a.free_lists(), p)
            }),
        ensures
            z == off / (old(self).zone_quota() as u64),
            ({
                let a = old(self).zone_list()[z as int];
                let b = final(self).zone_list()[z as int];
                let k = order_for(len as int);
                &&& final(self).inv_busy(z as int)
                &&& b.pending_lists() == freed_lists(a.free_lists(), off, k, a.last_order())
                &&& forall|p: int| #[trigger] is_free(b.pending_lists(), p) <==> is_free(a.free_lists(), p) || (off <= p < off + blk(k))
                &&& b.spec_available_log() == a.spec_available() + blk(k)
                &&& b.free_lists() == a.free_lists()
                &&& b.redo_log().len() > 0
                &&& b.lock_word() == 1
                &&& b.word_log() == a.word_log()
                &&& b.drop_records() == a.drop_records()
                &&& b.meta_off() == a.meta_off()
                &&& b.zone_base() == a.zone_base()
                &&& b.zone_size() == a.zone_size()
                &&& b.last_order() == a.last_order()
            }),
            final(self).image() == old(self).image(),
            forall|y: int| 0 <= y < old(self).zone_total() && y != z ==> #[trigger] final(self).zone_list()[y] == old(self).zone_list()[y],
            final(self).zone_total() == old(self).zone_total(),
            final(self).zone_quota() == old(self).zone_quota(),
            final(self).pool_size() == old(self).pool_size(),
    {
        let z = (off / (self.zones.quota() as u64)) as usize;
        let ghost zs = self.zone_list();
        let ghost m1 = self.mem@;
        let ghost k = order_for(len as int);
        proof {
            assert(zs[z as int].inv(m1));
            zs[z as int].lemma_inv(m1);
            zs[z as int].lemma_inv_core(m1);
            assert forall|j: int| 0 <= j < zs[z as int].word_log().len() implies (#[trigger] zs[z as int].word_log()[j]).0 + 8 <= off
                || off + blk(k) <= zs[z as int].word_log()[j].0 by {}
        }
        self.zones.items[z].dealloc_impl(&mut self.mem, off, len, false);
        proof {
            let zs2 = self.zone_list();
            assert(zs2 == zs.update(z as int, zs2[z as int]));
            assert forall|y: int, j: int| 0 <= y < zs2.len() && 0 <= j < zs2[y].word_log().len() implies avoids_all(
                (#[trigger] zs2[y].word_log()[j]).0 as int,
                zs2,
            ) by {
                let w = zs2[y].word_log()[j].0 as int;
                if y != z {
                    assert(zs2[y] == zs[y]);
                } else {
                    assert(zs2[y].word_log()[j] == zs[y].word_log()[j]);
                }
                assert(avoids_all(w, zs));
                assert(w + 8 <= off || off + blk(k) <= w);
                assert(word_avoids(w, zs[z as int].meta_off(), zs[z as int].pending_lists()));
                lemma_avoids_via_free(w, zs[z as int].meta_off(), zs[z as int].pending_lists(), zs2[z as int].pending_lists());
                lemma_avoids_update(zs, z as int, zs2[z as int], w);
            }
            assert forall|y: int| 0 <= y < zs2.len() implies {
                &&& (#[trigger] zs2[y]).inv(self.mem@)
                &&& Self::zone_placed(zs2[y], y, self.zones.spec_quota(), self.size as int)
                &&& y != z ==> zs2[y].redo_log().len() == 0 && zs2[y].drop_records().len() == 0 && zs2[y].word_log().len() == 0
            } by {
                if y != z {
                    assert(zs2[y] == zs[y]);
                }
            }
        }
        z
    }
}

} // verus!

verus! {

/// Byte `p` is no head byte and no free byte of any zone.
pub open spec fn live_byte(zs: Seq<BuddyAlg>, p: int) -> bool {
    forall|y: int|
        0 <= y < zs.len() ==> !(zs[y].meta_off() <= p < zs[y].meta_off() + 512) && !is_free(
            (#[trigger] zs[y]).free_lists(),
            p,
        )
}

/// Byte `p` is a head byte of zone `a` or free in its pending lists.
pub open spec fn zone_dead(a: BuddyAlg, p: int) -> bool {
    (a.meta_off() <= p < a.meta_off() + 512) || is_free(a.pending_lists(), p)
}

/// No byte of `[off, off + len)` is a head word or a free byte of any zone.
pub open spec fn range_live(off: int, len: int, zs: Seq<BuddyAlg>) -> bool {
    forall|y: int, p: int| 0 <= y < zs.len() && off <= p < off + len ==> !#[trigger] zone_dead(zs[y], p)
}

impl BuddyPool {
    /// An idle pool stays consistent when the image changes only in live
    /// bytes.
    proof fn lemma_live_change(&self, m2: Seq<u8>, off: int, len: int)
        requires
            self.inv(),
            m2.len() == self.mem@.len(),
            range_live(off, len, self.zone_list()),
            forall|p: int| 0 <= p < m2.len() && !(off <= p < off + len) ==> #[trigger] m2[p] == self.mem@[p],
        ensures
            forall|y: int| 0 <= y < self.zone_total() ==> (#[trigger] self.zone_list()[y]).inv(m2),
    {
        let zs = self.zone_list();
        assert forall|y: int| 0 <= y < self.zone_total() implies (#[trigger] zs[y]).inv(m2) by {
            assert(zs[y].inv(self.mem@));
            zs[y].lemma_inv(self.mem@);
            assert forall|p: int|
                0 <= p < self.mem@.len() && (zs[y].meta_off() <= p < zs[y].meta_off() + 512 || is_free(zs[y].free_lists(), p))
                    implies #[trigger] self.mem@[p] == m2[p] by {
                if off <= p < off + len {
                    assert(!zone_dead(zs[y], p));
                }
            }
            zs[y].lemma_inv_frame(self.mem@, m2);
        }
    }

    /// The bytes `[off, off + len)` of the image.
    pub fn read_bytes(&self, off: u64, len: u64) -> (r: Vec<u8>)
        requires
            off + len <= self.image().len(),
        ensures
            r@ == self.image().subrange(off as int, off + len),
    {
        self.mem.read_bytes(off, len)
    }

    /// The word at `off`.
    pub fn read_u64(&self, off: u64) -> (r: u64)
        requires
            off + 8 <= self.image().len(),
        ensures
            r == rd(self.image(), off as int),
    {
        self.mem.read_u64(off)
    }

    /// Stores `data` at `off`, in live bytes.
    pub fn write_bytes(&mut self, off: u64, data: &[u8])
        requires
            old(self).inv(),
            off + data@.len() <= old(self).image().len(),
            range_live(off as int, data@.len() as int, old(self).zone_list()),
        ensures
            final(self).inv(),
            final(self).image() == written(old(self).image(), off as int, data@),
            final(self).zone_list() == old(self).zone_list(),
            final(self).zone_total() == old(self).zone_total(),
            final(self).zone_quota() == old(self).zone_quota(),
            final(self).pool_size() == old(self).pool_size(),
    {
        let ghost m2 = written(self.mem@, off as int, data@);
        proof {
            self.lemma_live_change(m2, off as int, data@.len() as int);
        }
        self.mem.write_bytes(off, data);
    }

    /// Stores the word `v` at `off`, in live bytes.
    pub fn write_u64(&mut self, off: u64, v: u64)
        requires
            old(self).inv(),
            off + 8 <= old(self).image().len(),
            range_live(off as int, 8, old(self).zone_list()),
        ensures
            final(self).inv(),
            final(self).image() == wr(old(self).image(), off as int, v),
            final(self).zone_list() == old(self).zone_list(),
            final(self).zone_total() == old(self).zone_total(),
            final(self).zone_quota() == old(self).zone_quota(),
            final(self).pool_size() == old(self).pool_size(),
    {
        let ghost m2 = wr(self.mem@, off as int, v);
        proof {
            lemma_wr(self.mem@, off as int, v);
            self.lemma_live_change(m2, off as int, 8);
        }
        self.mem.write_u64(off, v);
    }

    /// Copies `len` bytes from `src` to `dst`, into live bytes.
    pub fn copy(&mut self, src: u64, dst: u64, len: u64)
        requires
            old(self).inv(),
            src + len <= old(self).image().len(),
            dst + len <= old(self).image().len(),
            src + len <= dst || dst + len <= src,
            range_live(dst as int, len as int, old(self).zone_list()),
        ensures
            final(self).inv(),
            final(self).image() == copied(old(self).image(), src as int, dst as int, len as int),
            final(self).zone_list() == old(self).zone_list(),
            final(self).zone_total() == old(self).zone_total(),
            final(self).zone_quota() == old(self).zone_quota(),
            final(self).pool_size() == old(self).pool_size(),
    {
        let ghost m2 = copied(self.mem@, src as int, dst as int, len as int);
        proof {
            self.lemma_live_change(m2, dst as int, len as int);
        }
        self.mem.copy_nonoverlapping(src, dst, len);
    }
}

} // verus!

verus! {

impl BuddyPool {
    /// Allocates a block for `len` bytes in the first zone, in turn from the
    /// zone of processor `cpu`, where the allocation does not fail, and
    /// performs it. Returns the block's offset and `len`, or the null offset
    /// and 0 when every zone fails.
    pub fn allocate(&mut self, len: usize, cpu: usize) -> (r: (u64, usize))
        requires
            old(self).inv(),
            0 < len <= 0x8000_0000_0000_0000u64,
        ensures
            forall|p: int|
                0 <= p < old(self).image().len() && live_byte(old(self).zone_list(), p) && live_byte(final(self).zone_list(), p)
                    ==> #[trigger] final(self).image()[p] == old(self).image()[p],
            final(self).inv(),
            final(self).image().len() == old(self).image().len(),
            final(self).zone_total() == old(self).zone_total(),
            final(self).zone_quota() == old(self).zone_quota(),
            final(self).pool_size() == old(self).pool_size(),
            r.0 == NONE_OFF ==> r.1 == 0 && forall|y: int|
                0 <= y < old(self).zone_total() ==> alloc_fails(#[trigger] old(self).zone_list()[y], len as int)
                    && final(self).zone_list()[y].free_lists() == old(self).zone_list()[y].free_lists(),
            r.0 != NONE_OFF ==> {
                let z = (r.0 / (old(self).zone_quota() as u64)) as int;
                let a = old(self).zone_list()[z];
                let b = final(self).zone_list()[z];
                let k = order_for(len as int);
                let j = lowest_fit(a.free_lists(), k, a.last_order());
                &&& r.1 == len
                &&& 0 <= z < old(self).zone_total()
                &&& exists|i: int|
                    0 <= i < old(self).zone_total() && z == #[trigger] turn(cpu as int, old(self).zone_total(), i)
                        && forall|t: int| 0 <= t < i ==> alloc_fails(
                        old(self).zone_list()[#[trigger] turn(cpu as int, old(self).zone_total(), t)],
                        len as int,
                    )
                &&& r.0 + blk(k) <= final(self).image().len()
                &&& len <= blk(k)
                &&& range_live(r.0 as int, blk(k), final(self).zone_list())
                &&& !alloc_fails(a, len as int)
                &&& r.0 == a.free_lists()[j][0]
                &&& forall|p: int| r.0 <= p < r.0 + blk(k) ==> #[trigger] is_free(a.free_lists(), p)
                &&& b.free_lists() == split_lists(a.free_lists(), r.0, k, j)
                &&& forall|p: int| #[trigger] is_free(b.free_lists(), p) <==> is_free(a.free_lists(), p) && !(r.0 <= p < r.0 + blk(k))
                &&& b.spec_available() == a.spec_available() - blk(k)
                &&& forall|y: int| 0 <= y < old(self).zone_total() && y != z ==> (#[trigger] final(self).zone_list()[y]).free_lists() == old(self).zone_list()[y].free_lists()
                &&& forall|p: int|
                    0 <= p < old(self).image().len() && !a.owns(p) && !covers(a.word_log(), p) ==> #[trigger] final(self).image()[p] == old(self).image()[p]
            },
    {
        let ghost zs0 = self.zone_list();
        let (off, l, z) = self.pre_alloc(len, cpu);
        proof {
            if off == NONE_OFF {
                self.zone_list()[0].lemma_inv(self.mem@);
            }
        }
        if off != NONE_OFF {
            proof {
                let a = zs0[z as int];
                let k = order_for(len as int);
                let j = lowest_fit(a.free_lists(), k, a.last_order());
                assert(a.inv(old(self).mem@));
                a.lemma_inv(old(self).mem@);
                assert(crate::buddy::lists_shape(a.free_lists(), a.zone_base(), a.zone_size(), a.last_order()));
                crate::buddy::lemma_lowest_fit(a.free_lists(), k, a.last_order());
                assert(in_zone(a.free_lists()[j][0] as int, j, a.zone_base(), a.zone_size()));
                assert(j >= 3) by {
                    if j < 3 {
                        assert(a.free_lists()[j].len() == 0);
                    }
                }
                lemma_blk(j);
                let q = self.zones.spec_quota();
                assert(Self::zone_placed(a, z as int, q, self.size as int));
                assert(q * z <= off < q * z + q);
                assert(off as int / q == z) by (nonlinear_arith)
                    requires
                        q * z <= off < q * z + q,
                        q > 0,
                ;
            }
            let ghost s1 = self.zone_list()[z as int];
            self.drop_on_failure(off, l, z);
            self.perform(z);
            proof {
                let a = zs0[z as int];
                assert forall|p: int| 0 <= p < old(self).mem@.len() && !a.owns(p) && !covers(a.word_log(), p) implies #[trigger] self.mem@[p] == old(self).mem@[p] by {
                    assert(!s1.owns(p));
                    if covers(s1.word_log(), p) {
                        let jj = choose|jj: int| 0 <= jj < s1.word_log().len() && #[trigger] s1.word_log()[jj].0 <= p < s1.word_log()[jj].0 + 8;
                        assert(s1.word_log() == a.word_log());
                        assert(covers(a.word_log(), p));
                    }
                }
                let k = order_for(len as int);
                let j = lowest_fit(a.free_lists(), k, a.last_order());
                let b = self.zone_list()[z as int];
                assert(off / (old(self).zone_quota() as u64) == z);
                assert(b.free_lists() == split_lists(a.free_lists(), off, k, j));
                assert(b.spec_available() == a.spec_available() - blk(k));
                assert(forall|y: int| 0 <= y < old(self).zone_total() && y != z ==> (#[trigger] self.zone_list()[y]).free_lists() == old(self).zone_list()[y].free_lists());
                crate::buddy::lemma_order_exists(len as int);
                let zs = self.zone_list();
                let q = self.zones.spec_quota();
                assert(k <= j);
                if k < j {
                    vstd::arithmetic::power2::lemma_pow2_strictly_increases(k as nat, j as nat);
                }
                assert forall|p: int| off <= p < off + blk(k) implies #[trigger] is_free(a.free_lists(), p) by {
                    assert(a.free_lists()[j][0] == a.free_lists()[j][0]);
                    lemma_blk(j);
                    lemma_blk(k);
                }
                assert(in_zone(a.free_lists()[j][0] as int, j, a.zone_base(), a.zone_size()));
                assert(Self::zone_placed(a, z as int, q, self.size as int));
                assert(off + blk(k) <= q * z + q);
                assert(q * z + q <= self.size) by (nonlinear_arith)
                    requires
                        z < zs.len(),
                        zs.len() * q <= self.size,
                        q >= 0,
                ;
                assert forall|y: int, p: int|
                    0 <= y < zs.len() && off <= p < off + blk(k) implies !#[trigger] zone_dead(zs[y], p) by {
                    assert(zs[y].inv(self.mem@));
                    zs[y].lemma_inv(self.mem@);
                    if y == z {
                        assert(!is_free(b.free_lists(), p));
                    } else {
                        let c = old(self).zone_list()[y];
                        assert(c.inv(old(self).mem@));
                        c.lemma_inv_core(old(self).mem@);
                        c.lemma_free_in_zone(old(self).mem@);
                        lemma_zones_apart(y, z as int, q, zs.len() as int, self.size as int);
                        assert(Self::zone_placed(c, y, q, self.size as int));
                        assert(zs[y].free_lists() == c.free_lists());
                    }
                }
            }
        } else {
            self.drop_on_failure(off, l, z);
            self.perform(z);
        }
        (off, l)
    }

    /// Returns the block at `off`, allocated for `len` bytes, to its zone and
    /// performs the change.
    pub fn dealloc(&mut self, off: u64, len: usize)
        requires
            old(self).inv(),
            off / (old(self).zone_quota() as u64) < old(self).zone_total(),
            ({
                let a = old(self).zone_list()[(off / (old(self).zone_quota() as u64)) as int];
                let k = order_for(len as int);
                &&& 0 < len <= a.zone_size()
                &&& in_zone(off as int, k, a.zone_base(), a.zone_size())
                &&& forall|p: int| off <= p < off + blk(k) ==> !#[trigger] is_free(a.free_lists(), p)
            }),
        ensures
            forall|p: int|
                0 <= p < old(self).image().len() && live_byte(old(self).zone_list(), p) && live_byte(final(self).zone_list(), p)
                    ==> #[trigger] final(self).image()[p] == old(self).image()[p],
            final(self).inv(),
            ({
                let z = (off / (old(self).zone_quota() as u64)) as int;
                let a = old(self).zone_list()[z];
                let b = final(self).zone_list()[z];
                let k = order_for(len as int);
                &&& b.free_lists() == freed_lists(a.free_lists(), off, k, a.last_order())
                &&& forall|p: int| #[trigger] is_free(b.free_lists(), p) <==> is_free(a.free_lists(), p) || (off <= p < off + blk(k))
                &&& b.spec_available() == a.spec_available() + blk(k)
                &&& b.zone_base() == a.zone_base()
                &&& b.zone_size() == a.zone_size()
                &&& b.meta_off() == a.meta_off()
                &&& b.last_order() == a.last_order()
                &&& forall|y: int| 0 <= y < old(self).zone_total() && y != z ==> (#[trigger] final(self).zone_list()[y]) == old(self).zone_list()[y]
                &&& forall|p: int|
                    0 <= p < old(self).image().len() && !a.owns(p) && !covers(a.word_log(), p) ==> #[trigger] final(self).image()[p] == old(self).image()[p]
            }),
            final(self).image().len() == old(self).image().len(),
            final(self).zone_total() == old(self).zone_total(),
            final(self).zone_quota() == old(self).zone_quota(),
            final(self).pool_size() == old(self).pool_size(),
    {
        let z = self.pre_dealloc(off, len);
        self.perform(z);
    }
}

} // verus!

verus! {

impl BuddyPool {
    /// The byte at `off`.
    pub fn read_byte(&self, off: u64) -> (r: u8)
        requires
            off < self.image().len(),
        ensures
            r == self.image()[off as int],
    {
        self.mem.read_byte(off)
    }

    /// Stores the byte `v` at `off`, a live byte.
    pub fn write_byte(&mut self, off: u64, v: u8)
        requires
            old(self).inv(),
            off < old(self).image().len(),
            range_live(off as int, 1, old(self).zone_list()),
        ensures
            final(self).inv(),
            final(self).image() == old(self).image().update(off as int, v),
            final(self).zone_list() == old(self).zone_list(),
            final(self).zone_total() == old(self).zone_total(),
            final(self).zone_quota() == old(self).zone_quota(),
            final(self).pool_size() == old(self).pool_size(),
    {
        let ghost m2 = self.mem@.update(off as int, v);
        proof {
            self.lemma_live_change(m2, off as int, 1);
        }
        self.mem.write_byte(off, v);
    }
}

} // verus!

verus! {

impl BuddyPool {
    /// There is one zone object per zone.
    pub proof fn lemma_zones_len(&self, busy: int)
        requires
            self.inv_busy(busy),
        ensures
            self.zone_list().len() == self.zone_total(),
            8 <= self.zone_quota() <= self.pool_size() <= u64::MAX,
            self.zone_total() >= 1,
    {
        assert(self.zone_quota() <= self.zone_total() * self.zone_quota()) by (nonlinear_arith)
            requires
                self.zone_total() >= 1,
                self.zone_quota() >= 0,
        ;
    }
}

} // verus!

verus! {

impl BuddyPool {
    /// In an idle pool the pending lists of each zone are its free lists, and
    /// the head words of zone `y` are at `pool_size + 512 * y`.
    pub proof fn lemma_idle(&self)
        requires
            self.inv(),
        ensures
            forall|y: int| 0 <= y < self.zone_total() ==> (#[trigger] self.zone_list()[y]).pending_lists() == self.zone_list()[y].free_lists(),
            forall|y: int| 0 <= y < self.zone_total() ==> (#[trigger] self.zone_list()[y]).meta_off() == self.pool_size() + 512 * y,
            self.zone_list().len() == self.zone_total(),
    {
        assert forall|y: int| 0 <= y < self.zone_total() implies (#[trigger] self.zone_list()[y]).pending_lists() == self.zone_list()[y].free_lists() by {
            assert(self.zone_list()[y].inv(self.mem@));
            self.zone_list()[y].lemma_inv(self.mem@);
        }
    }
}

} // verus!

verus! {

impl BuddyPool {
    /// Where no zone gains a free byte, live ranges stay live.
    pub proof fn lemma_live_kept(&self, other: &BuddyPool)
        requires
            self.inv(),
            other.inv(),
            other.zone_total() == self.zone_total(),
            other.pool_size() == self.pool_size(),
            forall|y: int, p: int|
                0 <= y < self.zone_total() && #[trigger] is_free(other.zone_list()[y].free_lists(), p) ==> is_free(
                    self.zone_list()[y].free_lists(),
                    p,
                ),
        ensures
            forall|o: int, n: int| #[trigger] range_live(o, n, self.zone_list()) ==> range_live(o, n, other.zone_list()),
    {
        self.lemma_idle();
        other.lemma_idle();
        assert forall|o: int, n: int| #[trigger] range_live(o, n, self.zone_list()) implies range_live(o, n, other.zone_list()) by {
            assert forall|y: int, p: int| 0 <= y < other.zone_list().len() && o <= p < o + n implies !#[trigger] zone_dead(
                other.zone_list()[y],
                p,
            ) by {
                assert(!zone_dead(self.zone_list()[y], p));
                if is_free(other.zone_list()[y].pending_lists(), p) {
                    assert(is_free(other.zone_list()[y].free_lists(), p));
                }
            }
        }
    }
}

} // verus!

verus! {

impl BuddyPool {
    /// Offsets into a consistent pool's image fit in a word.
    pub proof fn lemma_image_bound(&self)
        requires
            self.inv(),
        ensures
            self.image().len() <= u64::MAX,
            self.image().len() <= usize::MAX,
    {
    }
}

} // verus!

verus! {

/// A live word misses every zone's head words and pending free blocks.
pub proof fn lemma_live_avoids(a: int, zs: Seq<BuddyAlg>)
    requires
        range_live(a, 8, zs),
    ensures
        avoids_all(a, zs),
{
    assert forall|y: int| 0 <= y < zs.len() implies word_avoids(a, (#[trigger] zs[y]).meta_off(), zs[y].pending_lists()) by {
        let meta = zs[y].meta_off();
        let ls = zs[y].pending_lists();
        if !(a + 8 <= meta || meta + 512 <= a) {
            let p = if a < meta {
                meta
            } else {
                a
            };
            assert(zone_dead(zs[y], p));
        }
        assert forall|k: int, i: int| 0 <= k < 64 && 0 <= i < ls[k].len() implies a + 8 <= #[trigger] ls[k][i] || ls[k][i] + blk(k) <= a by {
            if !(a + 8 <= ls[k][i] || ls[k][i] + blk(k) <= a) {
                let p = if a < ls[k][i] {
                    ls[k][i] as int
                } else {
                    a
                };
                vstd::arithmetic::power2::lemma_pow2_pos(k as nat);
                assert(ls[k][i] == ls[k][i]);
                assert(is_free(ls, p));
                assert(zone_dead(zs[y], p));
            }
        }
    }
}

} // verus!

verus! {

impl BuddyPool {
    /// While one zone works, the others have their pending lists equal to
    /// their free lists, and every zone its head words after the zones.
    pub proof fn lemma_idle_busy_others(&self)
        requires
            exists|z: int| 0 <= z < self.zone_total() && self.inv_busy(z),
        ensures
            self.zone_list().len() == self.zone_total(),
            forall|y: int| 0 <= y < self.zone_total() ==> (#[trigger] self.zone_list()[y]).meta_off() == self.pool_size() + 512 * y,
    {
        let z = choose|z: int| 0 <= z < self.zone_total() && self.inv_busy(z);
        self.lemma_zones_len(z);
    }
}

} // verus!
