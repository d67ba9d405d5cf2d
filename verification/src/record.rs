//! Redo records kept in a log image beside the pool's image. Before a zone
//! performs its queued word stores, it writes them into its record and marks
//! the record complete; once they are performed it marks the record empty
//! again. Opening a pool performs the stores of every complete record, so an
//! operation that a crash interrupted while its stores reached the image is
//! completed from the bytes alone.

use vstd::prelude::*;
use crate::pmem::{PMem, rd, wr, apply_writes, writes_in_bounds, covers, lemma_wr, lemma_rd_wr_other, lemma_rd_agree, lemma_apply_writes, lemma_redo_idempotent};

verus! {

/// Stores that a record can hold.
pub const REC_CAP: u64 = 136;

/// Bytes of one record: a flag word, a count word and `REC_CAP` stores of
/// two words each.
pub const REC_BYTES: u64 = 2192;

/// Offset of the record of zone `z`.
pub open spec fn rec_at(z: int) -> int {
    REC_BYTES * z
}

/// Offset of the address word of store `i` of the record at `at`; its value
/// word follows.
pub open spec fn entry_at(at: int, i: int) -> int {
    at + 16 + 16 * i
}

/// The stores listed in the record at `at` of log image `l`.
pub open spec fn rec_writes(l: Seq<u8>, at: int) -> Seq<(u64, u64)> {
    Seq::new(
        if rd(l, at + 8) <= REC_CAP {
            rd(l, at + 8) as nat
        } else {
            0
        },
        |i: int| (rd(l, entry_at(at, i)), rd(l, entry_at(at, i) + 8)),
    )
}

/// The record at `at` of log image `l` is marked complete, lists at most
/// `REC_CAP` stores, and each of them fits in an image of `len` bytes.
pub open spec fn rec_valid(l: Seq<u8>, at: int, len: int) -> bool {
    &&& rd(l, at) == 1
    &&& rd(l, at + 8) <= REC_CAP
    &&& writes_in_bounds(rec_writes(l, at), len)
}

/// The record of zone `z` in log image `l` is marked empty.
pub open spec fn rec_idle(l: Seq<u8>, z: int) -> bool {
    rd(l, rec_at(z)) == 0
}

/// Image `s` after performing, zone by zone from the first, the stores of
/// the complete records among the first `n` records of log image `l`.
pub open spec fn replay_all(s: Seq<u8>, l: Seq<u8>, n: int) -> Seq<u8>
    decreases n,
{
    if n <= 0 {
        s
    } else {
        let s1 = replay_all(s, l, n - 1);
        if rec_valid(l, rec_at(n - 1), s.len() as int) {
            apply_writes(s1, rec_writes(l, rec_at(n - 1)))
        } else {
            s1
        }
    }
}

/// Two log images that agree on the bytes of the record at `at` hold the
/// same record there.
pub proof fn lemma_rec_agree(l1: Seq<u8>, l2: Seq<u8>, at: int, len: int)
    requires
        0 <= at,
        at + REC_BYTES <= l1.len(),
        at + REC_BYTES <= l2.len(),
        forall|p: int| at <= p < at + REC_BYTES ==> #[trigger] l1[p] == l2[p],
    ensures
        rd(l1, at) == rd(l2, at),
        rec_writes(l1, at) == rec_writes(l2, at),
        rec_valid(l1, at, len) == rec_valid(l2, at, len),
{
    lemma_rd_agree(l1, l2, at);
    lemma_rd_agree(l1, l2, at + 8);
    let w1 = rec_writes(l1, at);
    let w2 = rec_writes(l2, at);
    assert forall|i: int| 0 <= i < w1.len() implies #[trigger] w1[i] == w2[i] by {
        lemma_rd_agree(l1, l2, entry_at(at, i));
        lemma_rd_agree(l1, l2, entry_at(at, i) + 8);
    }
    assert(w1 =~= w2);
}

/// With no complete record among the first `n`, replaying leaves the image
/// as it is.
pub proof fn lemma_replay_idle(s: Seq<u8>, l: Seq<u8>, n: int)
    requires
        forall|y: int| 0 <= y < n ==> !rec_valid(l, #[trigger] rec_at(y), s.len() as int),
    ensures
        replay_all(s, l, n) == s,
    decreases n,
{
    if n > 0 {
        assert(!rec_valid(l, rec_at(n - 1), s.len() as int));
        lemma_replay_idle(s, l, n - 1);
    }
}

/// A crash while zone `z` performs the stores `ws` of its complete record,
/// the others empty, leaves the image after some prefix of them; opening
/// from there gives the image after all of them.
pub proof fn lemma_replay_after_crash(m0: Seq<u8>, l: Seq<u8>, n: int, z: int, ws: Seq<(u64, u64)>, k: int)
    requires
        0 <= z < n,
        writes_in_bounds(ws, m0.len() as int),
        forall|y: int| 0 <= y < n && y != z ==> #[trigger] rec_idle(l, y),
        rec_valid(l, rec_at(z), m0.len() as int),
        rec_writes(l, rec_at(z)) == ws,
        0 <= k <= ws.len(),
    ensures
        replay_all(apply_writes(m0, ws.take(k)), l, n) == apply_writes(m0, ws),
{
    let s = apply_writes(m0, ws.take(k));
    assert(writes_in_bounds(ws.take(k), m0.len() as int)) by {
        assert forall|j: int| 0 <= j < ws.take(k).len() implies #[trigger] ws.take(k)[j].0 + 8 <= m0.len() by {
            assert(ws.take(k)[j] == ws[j]);
        }
    }
    lemma_apply_writes(m0, ws.take(k));
    lemma_replay_from(s, l, n, z, ws);
    lemma_redo_idempotent(m0, ws, k);
}

/// Replaying the first `m` records, of which only that of zone `z` may be
/// complete, performs its stores `ws` when `z < m`.
proof fn lemma_replay_from(s: Seq<u8>, l: Seq<u8>, m: int, z: int, ws: Seq<(u64, u64)>)
    requires
        0 <= z,
        forall|y: int| 0 <= y < m && y != z ==> #[trigger] rec_idle(l, y),
        rec_valid(l, rec_at(z), s.len() as int),
        rec_writes(l, rec_at(z)) == ws,
    ensures
        replay_all(s, l, m) == if z < m {
            apply_writes(s, ws)
        } else {
            s
        },
    decreases m,
{
    if m > 0 {
        lemma_replay_from(s, l, m - 1, z, ws);
        if m - 1 != z {
            assert(rec_idle(l, m - 1));
            assert(!rec_valid(l, rec_at(m - 1), s.len() as int));
        }
    }
}

/// Performing `a` and then `b` performs `a + b`.
pub proof fn lemma_apply_writes_concat(s: Seq<u8>, a: Seq<(u64, u64)>, b: Seq<(u64, u64)>)
    ensures
        apply_writes(apply_writes(s, a), b) == apply_writes(s, a + b),
    decreases b.len(),
{
    if b.len() == 0 {
        assert(a + b =~= a);
    } else {
        lemma_apply_writes_concat(s, a, b.drop_last());
        assert((a + b).drop_last() =~= a + b.drop_last());
        assert((a + b).last() == b.last());
    }
}

/// Writes the stores `ws` into the record at `at` of log image `log`: the
/// stores first, then their count, then the flag that marks the record
/// complete.
pub fn write_record(log: &mut PMem, at: u64, ws: &Vec<(u64, u64)>)
    requires
        at + REC_BYTES <= old(log)@.len(),
        old(log)@.len() <= u64::MAX,
        ws@.len() <= REC_CAP,
    ensures
        final(log)@.len() == old(log)@.len(),
        rd(final(log)@, at as int) == 1,
        rd(final(log)@, at + 8) == ws@.len(),
        rec_writes(final(log)@, at as int) == ws@,
        forall|p: int|
            0 <= p < old(log)@.len() && !(at <= p < at + REC_BYTES) ==> #[trigger] final(log)@[p] == old(log)@[p],
{
    let ghost l0 = log@;
    let mut i: usize = 0;
    while i < ws.len()
        invariant
            i <= ws@.len(),
            ws@.len() <= REC_CAP,
            at + REC_BYTES <= l0.len(),
            l0.len() <= u64::MAX,
            log@.len() == l0.len(),
            forall|j: int|
                0 <= j < i ==> rd(log@, #[trigger] entry_at(at as int, j)) == ws@[j].0 && rd(log@, entry_at(at as int, j) + 8)
                    == ws@[j].1,
            forall|p: int|
                0 <= p < l0.len() && !(at + 16 <= p < at + 16 + 16 * i) ==> #[trigger] log@[p] == l0[p],
        decreases ws@.len() - i,
    {
        let (a, v) = ws[i];
        let e: u64 = at + 16 + 16 * (i as u64);
        let ghost l1 = log@;
        log.write_u64(e, a);
        proof {
            lemma_wr(l1, e as int, a);
        }
        let ghost l2 = log@;
        log.write_u64(e + 8, v);
        proof {
            lemma_wr(l2, e + 8, v);
            lemma_rd_wr_other(l2, e + 8, v, e as int);
            assert forall|j: int| 0 <= j < i + 1 implies rd(log@, #[trigger] entry_at(at as int, j)) == ws@[j].0 && rd(
                log@,
                entry_at(at as int, j) + 8,
            ) == ws@[j].1 by {
                if j < i {
                    lemma_rd_wr_other(l1, e as int, a, entry_at(at as int, j));
                    lemma_rd_wr_other(l1, e as int, a, entry_at(at as int, j) + 8);
                    lemma_rd_wr_other(l2, e + 8, v, entry_at(at as int, j));
                    lemma_rd_wr_other(l2, e + 8, v, entry_at(at as int, j) + 8);
                }
            }
        }
        i = i + 1;
    }
    let ghost l3 = log@;
    log.write_u64(at + 8, ws.len() as u64);
    proof {
        lemma_wr(l3, at + 8, ws@.len() as u64);
    }
    let ghost l4 = log@;
    log.write_u64(at, 1);
    proof {
        lemma_wr(l4, at as int, 1);
        lemma_rd_wr_other(l4, at as int, 1, at + 8);
        let w = rec_writes(log@, at as int);
        assert forall|j: int| 0 <= j < ws@.len() implies #[trigger] w[j] == ws@[j] by {
            let ea = entry_at(at as int, j);
            assert(rd(l3, ea) == ws@[j].0);
            lemma_rd_wr_other(l3, at + 8, ws@.len() as u64, ea);
            lemma_rd_wr_other(l3, at + 8, ws@.len() as u64, ea + 8);
            lemma_rd_wr_other(l4, at as int, 1, ea);
            lemma_rd_wr_other(l4, at as int, 1, ea + 8);
        }
        assert(w =~= ws@);
    }
}

/// Marks the record at `at` of log image `log` empty.
pub fn clear_record(log: &mut PMem, at: u64)
    requires
        at + REC_BYTES <= old(log)@.len(),
    ensures
        final(log)@.len() == old(log)@.len(),
        rd(final(log)@, at as int) == 0,
        forall|p: int| 0 <= p < old(log)@.len() && !(at <= p < at + 8) ==> #[trigger] final(log)@[p] == old(log)@[p],
{
    let ghost l0 = log@;
    log.write_u64(at, 0);
    proof {
        lemma_wr(l0, at as int, 0);
    }
}

/// The stores of the record at `at` of log image `log` when it is
/// complete and each of them fits in an image of `len` bytes.
pub fn read_record(log: &PMem, at: u64, len: u64) -> (r: Option<Vec<(u64, u64)>>)
    requires
        at + REC_BYTES <= log@.len(),
        log@.len() <= u64::MAX,
    ensures
        match r {
            Some(v) => rec_valid(log@, at as int, len as int) && v@ == rec_writes(log@, at as int),
            None => !rec_valid(log@, at as int, len as int),
        },
{
    if log.read_u64(at) != 1 {
        return None;
    }
    let count = log.read_u64(at + 8);
    if count > REC_CAP {
        return None;
    }
    let ghost w = rec_writes(log@, at as int);
    let mut out: Vec<(u64, u64)> = Vec::new();
    let mut i: u64 = 0;
    while i < count
        invariant
            count <= REC_CAP,
            count == rd(log@, at + 8),
            at + REC_BYTES <= log@.len(),
            log@.len() <= u64::MAX,
            w == rec_writes(log@, at as int),
            i <= count,
            out@ == w.take(i as int),
            writes_in_bounds(out@, len as int),
        decreases count - i,
    {
        let a = log.read_u64(at + 16 + 16 * i);
        let v = log.read_u64(at + 24 + 16 * i);
        if len < 8 || a > len - 8 {
            proof {
                assert(w[i as int] == (a, v));
                assert(!(w[i as int].0 + 8 <= len));
            }
            return None;
        }
        out.push((a, v));
        proof {
            assert(w[i as int] == (a, v));
            assert(out@ =~= w.take(i + 1));
        }
        i = i + 1;
    }
    proof {
        assert(w.take(count as int) =~= w);
    }
    Some(out)
}

/// A log image of `n` records, each marked empty.
pub fn empty_log(n: usize) -> (r: PMem)
    requires
        REC_BYTES * n <= usize::MAX,
    ensures
        r@.len() == REC_BYTES * n,
        forall|z: int| 0 <= z < n ==> #[trigger] rec_idle(r@, z),
{
    let mut log = PMem::new(REC_BYTES as usize * n);
    let mut z: usize = 0;
    while z < n
        invariant
            z <= n,
            REC_BYTES * n <= usize::MAX,
            log@.len() == REC_BYTES * n,
            forall|y: int| 0 <= y < z ==> #[trigger] rec_idle(log@, y),
        decreases n - z,
    {
        proof {
            assert(REC_BYTES * z + REC_BYTES <= REC_BYTES * n) by (nonlinear_arith)
                requires
                    z < n,
            ;
        }
        let ghost l1 = log@;
        clear_record(&mut log, REC_BYTES * (z as u64));
        proof {
            assert forall|y: int| 0 <= y < z + 1 implies #[trigger] rec_idle(log@, y) by {
                if y < z {
                    assert(REC_BYTES * y + REC_BYTES <= REC_BYTES * z) by (nonlinear_arith)
                        requires
                            y < z,
                    ;
                    assert(rec_idle(l1, y));
                    lemma_rd_agree(l1, log@, rec_at(y));
                }
            }
        }
        z = z + 1;
    }
    log
}

/// Performs the stores `ws` on image `mem`, in order.
pub fn perform_writes(mem: &mut PMem, ws: &Vec<(u64, u64)>)
    requires
        writes_in_bounds(ws@, old(mem)@.len() as int),
    ensures
        final(mem)@ == apply_writes(old(mem)@, ws@),
        final(mem)@.len() == old(mem)@.len(),
{
    let ghost m0 = mem@;
    let mut i: usize = 0;
    while i < ws.len()
        invariant
            i <= ws@.len(),
            writes_in_bounds(ws@, m0.len() as int),
            mem@ == apply_writes(m0, ws@.take(i as int)),
            mem@.len() == m0.len(),
        decreases ws@.len() - i,
    {
        let (off, data) = ws[i];
        assert(ws@[i as int].0 + 8 <= m0.len());
        mem.write_u64(off, data);
        proof {
            assert(ws@.take(i + 1).drop_last() =~= ws@.take(i as int));
            assert(ws@.take(i + 1).last() == ws@[i as int]);
            lemma_wr(apply_writes(m0, ws@.take(i as int)), off as int, data);
        }
        i = i + 1;
    }
    proof {
        assert(ws@.take(ws@.len() as int) =~= ws@);
    }
}

/// Performs the stores of every complete record among the first `n` of log
/// image `log` on image `mem`, zone by zone, and marks every record empty.
pub fn replay_records(mem: &mut PMem, log: &mut PMem, n: usize)
    requires
        old(log)@.len() == REC_BYTES * n,
        old(log)@.len() <= u64::MAX,
        old(mem)@.len() <= u64::MAX,
    ensures
        final(mem)@ == replay_all(old(mem)@, old(log)@, n as int),
        final(mem)@.len() == old(mem)@.len(),
        final(log)@.len() == old(log)@.len(),
        forall|z: int| 0 <= z < n ==> #[trigger] rec_idle(final(log)@, z),
{
    let ghost m0 = mem@;
    let ghost l0 = log@;
    let len = mem.len() as u64;
    let mut z: usize = 0;
    while z < n
        invariant
            z <= n,
            l0.len() == REC_BYTES * n,
            l0.len() <= u64::MAX,
            log@.len() == l0.len(),
            len == m0.len(),
            mem@ == replay_all(m0, l0, z as int),
            mem@.len() == m0.len(),
            forall|y: int| 0 <= y < z ==> #[trigger] rec_idle(log@, y),
            forall|p: int| rec_at(z as int) <= p < l0.len() ==> #[trigger] log@[p] == l0[p],
        decreases n - z,
    {
        proof {
            assert(REC_BYTES * z + REC_BYTES <= REC_BYTES * n) by (nonlinear_arith)
                requires
                    z < n,
            ;
        }
        let at: u64 = REC_BYTES * (z as u64);
        proof {
            lemma_rec_agree(log@, l0, at as int, len as int);
        }
        match read_record(log, at, len) {
            Some(ws) => {
                perform_writes(mem, &ws);
            },
            None => {},
        }
        let ghost l1 = log@;
        clear_record(log, at);
        proof {
            assert forall|y: int| 0 <= y < z + 1 implies #[trigger] rec_idle(log@, y) by {
                if y < z {
                    assert(REC_BYTES * y + REC_BYTES <= REC_BYTES * z) by (nonlinear_arith)
                        requires
                            y < z,
                    ;
                    assert(rec_idle(l1, y));
                    lemma_rd_agree(l1, log@, rec_at(y));
                }
            }
            assert forall|p: int| rec_at(z + 1) <= p < l0.len() implies #[trigger] log@[p] == l0[p] by {
                assert(l1[p] == l0[p]);
            }
        }
        z = z + 1;
    }
}

} // verus!
