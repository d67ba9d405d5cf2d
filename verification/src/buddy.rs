//! The buddy allocation algorithm with a failure-atomic redo log, and the
//! per-cpu memory zones that hold one allocator each.

use vstd::prelude::*;
use vstd::arithmetic::power2::*;
use vstd::bits::*;
use vstd::std_specs::bits::*;
use vstd::set_lib::*;
use crate::pmem::{NONE_OFF, PMem, rd, wr, apply_writes, writes_in_bounds, covers, lemma_wr, lemma_rd_wr_other, lemma_rd_agree, lemma_apply_writes, lemma_redo_idempotent};
use crate::utils::Ring;
use crate::freelist::{lt_count, fresh, buddy_of, freed_lists, lemma_lt_count, lemma_lt_count_props, lemma_not_free_fresh, lemma_remove_ok, lemma_insert_ok, lemma_merge_ok, lemma_step_unlink, lemma_step_insert};

verus! {

/// Tells whether `p` is the null offset.
pub fn is_none(p: u64) -> (r: bool)
    ensures
        r <==> p == NONE_OFF,
{
    p == NONE_OFF
}

/// Turns an offset into `None` when it is the null offset.
pub fn off_to_option(p: u64) -> (r: Option<u64>)
    ensures
        r == if p == NONE_OFF {
            None::<u64>
        } else {
            Some(p)
        },
{
    if is_none(p) {
        None
    } else {
        Some(p)
    }
}

/// Turns an optional offset into an offset, `None` becoming the null offset.
pub fn option_to_pptr(p: Option<u64>) -> (r: u64)
    ensures
        r == match p {
            Some(x) => x,
            None => NONE_OFF,
        },
{
    if let Some(p) = p {
        p
    } else {
        NONE_OFF
    }
}

/// Number of bits in a value of type `T`.
pub fn num_bits<T>() -> (r: u32)
    requires
        core::mem::size_of::<T>() * 8 <= u32::MAX,
    ensures
        r == core::mem::size_of::<T>() * 8,
{
    vstd::layout::layout_for_type_is_valid::<T>();
    let s = core::mem::size_of::<T>();
    (s * 8) as u32
}

/// Size in bytes of a block of order `k`.
pub open spec fn blk(k: int) -> int {
    pow2(k as nat) as int
}

/// The order of the smallest block that holds `x` bytes: the least `k` with
/// `max(x, 8) <= 2^k`.
pub open spec fn order_of(x: int, k: int) -> bool {
    &&& 3 <= k <= 64
    &&& blk(k - 1) < if x < 8 { 8 } else { x }
    &&& (if x < 8 { 8 } else { x }) <= blk(k)
}

/// Order of the buddy block that holds `x` bytes; `usize::MAX` for `x == 0`.
pub fn get_idx(x: usize) -> (r: usize)
    ensures
        x == 0 ==> r == usize::MAX,
        x != 0 ==> order_of(x as int, r as int),
{
    if x == 0 {
        usize::MAX
    } else {
        let m: usize = if x < 8 {
            8
        } else {
            x
        };
        let y: u64 = (m - 1) as u64;
        let lz: u32 = y.leading_zeros();
        broadcast use vstd::layout::layout_of_primitives;
        let bits: u32 = num_bits::<u64>();
        proof {
            lemma_bit_length(y);
            let r = 64 - lz;
            assert(blk(r - 1) < m && m <= blk(r));
            if r <= 2 {
                lemma2_to64();
                if r < 2 {
                    lemma_pow2_strictly_increases(r as nat, 2);
                }
            }
        }
        (bits - lz) as usize
    }
}

/// The bit length of a nonzero word brackets it between two powers of two.
proof fn lemma_bit_length(y: u64)
    requires
        y != 0,
    ensures
        u64_leading_zeros(y) < 64,
        blk(63 - u64_leading_zeros(y)) <= y,
        y < blk(64 - u64_leading_zeros(y)),
{
    axiom_u64_leading_zeros(y);
    let lz = u64_leading_zeros(y);
    let t = (63 - lz) as u64;
    lemma_u64_shr_is_div(y, t);
    assert(((y >> t) & 1u64) != 0u64);
    assert(((y >> t) & 1u64) != 0u64 ==> (y >> t) >= 1u64) by (bit_vector);
    lemma_pow2_pos(t as nat);
    assert(y as nat / pow2(t as nat) >= 1);
    assert(y >= pow2(t as nat)) by {
        if (y as nat) < pow2(t as nat) {
            assert(y as nat / pow2(t as nat) == 0) by (nonlinear_arith)
                requires
                    (y as nat) < pow2(t as nat),
            ;
        }
    }
    if lz == 0 {
        lemma2_to64();
        lemma2_to64_rest();
        assert(y < pow2(64));
    } else {
        let u = (64 - lz) as u64;
        assert(y >> u == 0);
        lemma_u64_shr_is_div(y, u);
        lemma_pow2_pos(u as nat);
        assert(y < pow2(u as nat)) by {
            if (y as nat) >= pow2(u as nat) {
                assert(y as nat / pow2(u as nat) >= 1) by (nonlinear_arith)
                    requires
                        (y as nat) >= pow2(u as nat),
                        pow2(u as nat) > 0,
                ;
            }
        }
    }
}


/// Offset of the word that holds the head of free list `k`, for lists whose
/// heads are stored from offset `meta` on.
pub open spec fn head_slot(meta: int, k: int) -> int {
    meta + 8 * k
}

/// The first offset of a list, or the null offset.
pub open spec fn first_of(l: Seq<u64>) -> u64 {
    if l.len() > 0 {
        l[0]
    } else {
        NONE_OFF
    }
}

/// The offset that follows position `i` of a list, or the null offset.
pub open spec fn next_of(l: Seq<u64>, i: int) -> u64 {
    if i + 1 < l.len() {
        l[i + 1]
    } else {
        NONE_OFF
    }
}

/// Free list `k` is stored in image `s` as the linked list `l`: its head word
/// holds the first block and the header word of every block holds the next.
pub open spec fn list_stored(s: Seq<u8>, meta: int, k: int, l: Seq<u64>) -> bool {
    &&& rd(s, head_slot(meta, k)) == first_of(l)
    &&& forall|i: int| 0 <= i < l.len() ==> #[trigger] rd(s, l[i] as int) == next_of(l, i)
}

/// All 64 free lists are stored in image `s`.
pub open spec fn lists_stored(s: Seq<u8>, meta: int, ls: Seq<Seq<u64>>) -> bool {
    forall|k: int| 0 <= k < 64 ==> #[trigger] list_stored(s, meta, k, ls[k])
}

/// Two 8-byte words do not overlap.
pub open spec fn apart8(a: int, b: int) -> bool {
    a + 8 <= b || b + 8 <= a
}

/// Two blocks of orders `ka` and `kb` do not overlap.
pub open spec fn apart(a: int, ka: int, b: int, kb: int) -> bool {
    a + blk(ka) <= b || b + blk(kb) <= a
}

/// The offsets of a list increase strictly.
pub open spec fn sorted(l: Seq<u64>) -> bool {
    forall|i: int, j: int| 0 <= i < j < l.len() ==> l[i] < l[j]
}

/// A block of order `k` at `b` lies in the zone `[base, base + size)`.
pub open spec fn in_zone(b: int, k: int, base: int, size: int) -> bool {
    base <= b && b + blk(k) <= base + size
}

/// Every list is sorted, holds blocks of its order inside the zone, and only
/// orders from 3 to `last` have blocks.
pub open spec fn lists_shape(ls: Seq<Seq<u64>>, base: int, size: int, last: int) -> bool {
    &&& ls.len() == 64
    &&& forall|k: int| 0 <= k < 64 ==> #[trigger] sorted(ls[k])
    &&& forall|k: int| 0 <= k < 64 && (k < 3 || k > last) ==> #[trigger] ls[k].len() == 0
    &&& forall|k: int, i: int|
        0 <= k < 64 && 0 <= i < ls[k].len() ==> #[trigger] in_zone(ls[k][i] as int, k, base, size)
}

/// No two free blocks overlap.
pub open spec fn lists_disjoint(ls: Seq<Seq<u64>>) -> bool {
    forall|k1: int, i1: int, k2: int, i2: int|
        0 <= k1 < 64 && 0 <= k2 < 64 && 0 <= i1 < ls[k1].len() && 0 <= i2 < ls[k2].len() && (k1
            != k2 || i1 != i2) ==> apart(#[trigger] ls[k1][i1] as int, k1, #[trigger] ls[k2][i2] as int, k2)
}

/// Bytes held by the lists of orders below `n`.
pub open spec fn total_upto(ls: Seq<Seq<u64>>, n: int) -> int
    decreases n,
{
    if n <= 0 {
        0
    } else {
        total_upto(ls, n - 1) + ls[n - 1].len() * blk(n - 1)
    }
}

/// Bytes held by all free lists.
pub open spec fn total(ls: Seq<Seq<u64>>) -> int {
    total_upto(ls, 64)
}

/// Replacing one list changes the total by the difference of its bytes.
pub proof fn lemma_total_update(ls: Seq<Seq<u64>>, k: int, l: Seq<u64>, n: int)
    requires
        0 <= k < ls.len(),
        0 <= n <= ls.len(),
    ensures
        total_upto(ls.update(k, l), n) == total_upto(ls, n) + if k < n {
            (l.len() - ls[k].len()) * blk(k)
        } else {
            0
        },
    decreases n,
{
    if n > 0 {
        lemma_total_update(ls, k, l, n - 1);
        if k == n - 1 {
            assert(l.len() * blk(k) - ls[k].len() * blk(k) == (l.len() - ls[k].len()) * blk(k))
                by (nonlinear_arith);
        }
    }
}

/// Orders from 3 on have blocks of at least 8 bytes, and orders grow by doubling.
pub proof fn lemma_blk(k: int)
    requires
        3 <= k <= 64,
    ensures
        blk(k) >= 8,
        blk(k) == 2 * blk(k - 1),
        k < 64 ==> blk(k) <= 0x8000_0000_0000_0000,
        k == 64 ==> blk(k) == 0x1_0000_0000_0000_0000,
{
    lemma2_to64();
    lemma2_to64_rest();
    lemma_pow2_unfold(k as nat);
    if k > 3 {
        lemma_pow2_strictly_increases(3, k as nat);
    }
    if k < 63 {
        lemma_pow2_strictly_increases(k as nat, 63);
    }
}

/// A store that touches neither the head word nor any header of a stored list
/// leaves the list stored.
pub proof fn lemma_list_frame(s: Seq<u8>, meta: int, k: int, l: Seq<u64>, a: int, v: u64)
    requires
        list_stored(s, meta, k, l),
        0 <= a,
        a + 8 <= s.len(),
        0 <= head_slot(meta, k),
        head_slot(meta, k) + 8 <= s.len(),
        apart8(a, head_slot(meta, k)),
        forall|i: int| 0 <= i < l.len() ==> (#[trigger] l[i]) + 8 <= s.len() && apart8(a, l[i] as int),
    ensures
        list_stored(wr(s, a, v), meta, k, l),
{
    lemma_rd_wr_other(s, a, v, head_slot(meta, k));
    assert forall|i: int| 0 <= i < l.len() implies #[trigger] rd(wr(s, a, v), l[i] as int) == next_of(
        l,
        i,
    ) by {
        assert(apart8(a, l[i] as int));
        lemma_rd_wr_other(s, a, v, l[i] as int);
    }
}

/// Storing the successor of the first block into the head word removes the
/// first block from a stored list.
pub proof fn lemma_list_pop(s: Seq<u8>, meta: int, k: int, l: Seq<u64>)
    requires
        list_stored(s, meta, k, l),
        l.len() > 0,
        0 <= head_slot(meta, k),
        head_slot(meta, k) + 8 <= s.len(),
        forall|i: int|
            0 <= i < l.len() ==> (#[trigger] l[i]) + 8 <= s.len() && apart8(head_slot(meta, k), l[i] as int),
    ensures
        list_stored(wr(s, head_slot(meta, k), next_of(l, 0)), meta, k, l.drop_first()),
{
    let h = head_slot(meta, k);
    let s2 = wr(s, h, next_of(l, 0));
    lemma_wr(s, h, next_of(l, 0));
    let l2 = l.drop_first();
    assert forall|i: int| 0 <= i < l2.len() implies #[trigger] rd(s2, l2[i] as int) == next_of(
        l2,
        i,
    ) by {
        assert(l2[i] == l[i + 1]);
        assert(apart8(h, l[i + 1] as int));
        lemma_rd_wr_other(s, h, next_of(l, 0), l[i + 1] as int);
    }
}

/// Storing the successor of block `i` into the header of block `i - 1`
/// removes block `i` from a stored list.
pub proof fn lemma_list_unlink(s: Seq<u8>, meta: int, k: int, l: Seq<u64>, i: int)
    requires
        list_stored(s, meta, k, l),
        0 < i < l.len(),
        0 <= head_slot(meta, k),
        head_slot(meta, k) + 8 <= s.len(),
        forall|j: int|
            0 <= j < l.len() ==> (#[trigger] l[j]) + 8 <= s.len() && apart8(head_slot(meta, k), l[j] as int),
        forall|j1: int, j2: int|
            0 <= j1 < l.len() && 0 <= j2 < l.len() && j1 != j2 ==> apart8(#[trigger] l[j1] as int, #[trigger] l[j2] as int),
    ensures
        list_stored(wr(s, l[i - 1] as int, next_of(l, i)), meta, k, l.remove(i)),
{
    let p = l[i - 1] as int;
    let s2 = wr(s, p, next_of(l, i));
    lemma_wr(s, p, next_of(l, i));
    let l2 = l.remove(i);
    assert(apart8(p, head_slot(meta, k)));
    lemma_rd_wr_other(s, p, next_of(l, i), head_slot(meta, k));
    assert forall|j: int| 0 <= j < l2.len() implies #[trigger] rd(s2, l2[j] as int) == next_of(l2, j) by {
        if j < i - 1 {
            assert(l2[j] == l[j]);
            assert(apart8(l[j] as int, l[i - 1] as int));
            lemma_rd_wr_other(s, p, next_of(l, i), l[j] as int);
        } else if j == i - 1 {
            assert(l2[j] == l[j]);
        } else {
            assert(l2[j] == l[j + 1]);
            assert(apart8(l[j + 1] as int, l[i - 1] as int));
            lemma_rd_wr_other(s, p, next_of(l, i), l[j + 1] as int);
        }
    }
}

/// Storing the old successor into the header of a new block `x`, then `x`
/// into the head word (`j == 0`) or the header of block `j - 1`, inserts `x`
/// at position `j` of a stored list.
pub proof fn lemma_list_insert(s: Seq<u8>, meta: int, k: int, l: Seq<u64>, j: int, x: u64)
    requires
        list_stored(s, meta, k, l),
        0 <= j <= l.len(),
        0 <= head_slot(meta, k),
        head_slot(meta, k) + 8 <= s.len(),
        x + 8 <= s.len(),
        apart8(x as int, head_slot(meta, k)),
        forall|i: int|
            0 <= i < l.len() ==> (#[trigger] l[i]) + 8 <= s.len() && apart8(head_slot(meta, k), l[i] as int)
                && apart8(x as int, l[i] as int),
        forall|j1: int, j2: int|
            0 <= j1 < l.len() && 0 <= j2 < l.len() && j1 != j2 ==> apart8(#[trigger] l[j1] as int, #[trigger] l[j2] as int),
    ensures
        ({
            let s1 = wr(s, x as int, if j < l.len() { l[j] } else { NONE_OFF });
            let s2 = if j == 0 {
                wr(s1, head_slot(meta, k), x)
            } else {
                wr(s1, l[j - 1] as int, x)
            };
            list_stored(s2, meta, k, l.insert(j, x))
        }),
{
    let succ = if j < l.len() {
        l[j]
    } else {
        NONE_OFF
    };
    let s1 = wr(s, x as int, succ);
    lemma_wr(s, x as int, succ);
    lemma_rd_wr_other(s, x as int, succ, head_slot(meta, k));
    let l2 = l.insert(j, x);
    let w = if j == 0 {
        head_slot(meta, k)
    } else {
        l[j - 1] as int
    };
    let s2 = wr(s1, w, x);
    lemma_wr(s1, w, x);
    if j > 0 {
        assert(apart8(x as int, l[j - 1] as int));
        lemma_rd_wr_other(s1, w, x, x as int);
        assert(apart8(head_slot(meta, k), l[j - 1] as int));
        lemma_rd_wr_other(s1, w, x, head_slot(meta, k));
    } else {
        lemma_rd_wr_other(s1, w, x, x as int);
    }
    assert(rd(s2, head_slot(meta, k)) == first_of(l2));
    assert forall|i: int| 0 <= i < l2.len() implies #[trigger] rd(s2, l2[i] as int) == next_of(l2, i) by {
        if i == j {
            assert(l2[i] == x);
        } else if i < j {
            assert(l2[i] == l[i]);
            assert(apart8(x as int, l[i] as int));
            lemma_rd_wr_other(s, x as int, succ, l[i] as int);
            if i != j - 1 {
                assert(apart8(l[i] as int, l[j - 1] as int));
                lemma_rd_wr_other(s1, w, x, l[i] as int);
            }
        } else {
            assert(l2[i] == l[i - 1]);
            assert(apart8(x as int, l[i - 1] as int));
            lemma_rd_wr_other(s, x as int, succ, l[i - 1] as int);
            if j == 0 {
                assert(apart8(head_slot(meta, k), l[i - 1] as int));
            } else {
                assert(apart8(l[i - 1] as int, l[j - 1] as int));
            }
            lemma_rd_wr_other(s1, w, x, l[i - 1] as int);
        }
    }
}

/// The layout of a zone in an image of `len` bytes: the 64 head words at
/// `meta`, the managed bytes `[base, base + size)` with `size == 2^last`, the
/// two apart.
pub open spec fn geometry(len: int, meta: int, base: int, size: int, last: int) -> bool {
    &&& 3 <= last < 64
    &&& size == blk(last)
    &&& len <= u64::MAX
    &&& 0 <= meta
    &&& meta + 512 <= len
    &&& 0 <= base
    &&& base + size <= len
    &&& (meta + 512 <= base || base + size <= meta)
}

/// Header words of free blocks fit in the image, stay apart from the head
/// words, and the headers of one list are apart from each other.
pub open spec fn nodes_ok(ls: Seq<Seq<u64>>, meta: int, len: int) -> bool {
    &&& forall|k: int, i: int| 0 <= k < 64 && 0 <= i < ls[k].len() ==> (#[trigger] ls[k][i]) + 8 <= len
    &&& forall|k: int, i: int, k2: int|
        0 <= k < 64 && 0 <= i < ls[k].len() && 0 <= k2 < 64 ==> apart8(
            head_slot(meta, k2),
            #[trigger] ls[k][i] as int,
        ) && #[trigger] head_slot(meta, k2) >= 0
    &&& forall|k: int, i1: int, i2: int|
        0 <= k < 64 && 0 <= i1 < ls[k].len() && 0 <= i2 < ls[k].len() && i1 != i2 ==> apart8(
            #[trigger] ls[k][i1] as int,
            #[trigger] ls[k][i2] as int,
        )
}

/// Well-shaped, disjoint free lists of a well-laid-out zone have sound headers.
pub proof fn lemma_nodes_ok(ls: Seq<Seq<u64>>, len: int, meta: int, base: int, size: int, last: int)
    requires
        geometry(len, meta, base, size, last),
        lists_shape(ls, base, size, last),
        lists_disjoint(ls),
    ensures
        nodes_ok(ls, meta, len),
{
    assert forall|k: int, i: int| 0 <= k < 64 && 0 <= i < ls[k].len() implies (#[trigger] ls[k][i]) + 8
        <= len && ls[k][i] >= base && ls[k][i] + 8 <= base + size by {
        assert(in_zone(ls[k][i] as int, k, base, size));
        lemma_blk(k);
    }
    assert forall|k: int, i: int, k2: int|
        0 <= k < 64 && 0 <= i < ls[k].len() && 0 <= k2 < 64 implies apart8(
            head_slot(meta, k2),
            #[trigger] ls[k][i] as int,
        ) && #[trigger] head_slot(meta, k2) >= 0 by {
        assert(in_zone(ls[k][i] as int, k, base, size));
        lemma_blk(k);
    }
    assert forall|k: int, i1: int, i2: int|
        0 <= k < 64 && 0 <= i1 < ls[k].len() && 0 <= i2 < ls[k].len() && i1 != i2 implies apart8(
            #[trigger] ls[k][i1] as int,
            #[trigger] ls[k][i2] as int,
        ) by {
        assert(apart(ls[k][i1] as int, k, ls[k][i2] as int, k));
        lemma_blk(k);
    }
}

/// A store apart from the head words and headers of every list but `kk`
/// leaves those lists stored.
pub proof fn lemma_lists_frame(s: Seq<u8>, meta: int, ls: Seq<Seq<u64>>, a: int, v: u64, kk: int)
    requires
        lists_stored(s, meta, ls),
        nodes_ok(ls, meta, s.len() as int),
        0 <= meta,
        meta + 512 <= s.len(),
        0 <= a,
        a + 8 <= s.len(),
        forall|k: int| 0 <= k < 64 && k != kk ==> #[trigger] apart8(a, head_slot(meta, k)),
        forall|k: int, i: int|
            0 <= k < 64 && k != kk && 0 <= i < ls[k].len() ==> apart8(a, #[trigger] ls[k][i] as int),
    ensures
        forall|k: int| 0 <= k < 64 && k != kk ==> #[trigger] list_stored(wr(s, a, v), meta, k, ls[k]),
{
    assert forall|k: int| 0 <= k < 64 && k != kk implies #[trigger] list_stored(wr(s, a, v), meta, k, ls[k]) by {
        assert(list_stored(s, meta, k, ls[k]));
        assert(apart8(a, head_slot(meta, k)));
        assert forall|i: int| 0 <= i < ls[k].len() implies (#[trigger] ls[k][i]) + 8 <= s.len()
            && apart8(a, ls[k][i] as int) by {}
        lemma_list_frame(s, meta, k, ls[k], a, v);
    }
}

/// Byte `p` lies in some free block.
pub open spec fn is_free(ls: Seq<Seq<u64>>, p: int) -> bool {
    exists|k: int, i: int|
        0 <= k < 64 && 0 <= i < ls[k].len() && ls[k][i] <= p < ls[k][i] + blk(k) && #[trigger] ls[k][i]
            == ls[k][i]
}

/// The lowest order from `idx` to `last` with a free block, or -1.
pub open spec fn lowest_fit(ls: Seq<Seq<u64>>, idx: int, last: int) -> int
    decreases last + 1 - idx,
{
    if idx > last || idx < 0 {
        -1
    } else if ls[idx].len() > 0 {
        idx
    } else {
        lowest_fit(ls, idx + 1, last)
    }
}

/// The lists after taking the first block `res` of order `j` and returning its
/// upper halves of orders `lo` to `j - 1` to their lists, keeping the lowest
/// `2^lo` bytes.
pub open spec fn split_lists(ls: Seq<Seq<u64>>, res: u64, lo: int, j: int) -> Seq<Seq<u64>> {
    Seq::new(
        ls.len(),
        |m: int|
            if m == j {
                ls[j].drop_first()
            } else if lo <= m < j {
                seq![(res + blk(m)) as u64]
            } else {
                ls[m]
            },
    )
}

/// What `lowest_fit` finds.
pub proof fn lemma_lowest_fit(ls: Seq<Seq<u64>>, idx: int, last: int)
    requires
        0 <= idx,
        last < ls.len(),
    ensures
        lowest_fit(ls, idx, last) == -1 ==> forall|m: int| idx <= m <= last ==> #[trigger] ls[m].len() == 0,
        lowest_fit(ls, idx, last) != -1 ==> {
            let j = lowest_fit(ls, idx, last);
            &&& idx <= j <= last
            &&& ls[j].len() > 0
            &&& forall|m: int| idx <= m < j ==> #[trigger] ls[m].len() == 0
        },
    decreases last + 1 - idx,
{
    if idx <= last && ls[idx].len() == 0 {
        lemma_lowest_fit(ls, idx + 1, last);
    }
}

/// A byte in the upper part of a block of order `j` lies in one of its upper
/// halves of orders `lo` to `j - 1`.
proof fn lemma_split_cover(res: int, lo: int, j: int, p: int)
    requires
        3 <= lo <= j <= 64,
        res + blk(lo) <= p < res + blk(j),
    ensures
        exists|m: int| lo <= m < j && res + blk(m) <= p < res + #[trigger] blk(m + 1),
    decreases j - lo,
{
    lemma_blk(j);
    if p >= res + blk(j - 1) {
        assert(lo <= j - 1 < j && res + blk(j - 1) <= p < res + blk((j - 1) + 1));
    } else {
        lemma_split_cover(res, lo, j - 1, p);
        let m = choose|m: int| lo <= m < j - 1 && res + blk(m) <= p < res + #[trigger] blk(m + 1);
        assert(lo <= m < j && res + blk(m) <= p < res + blk(m + 1));
    }
}

/// Splitting keeps the lists well shaped and disjoint, keeps the kept bytes
/// apart from every free block, frees every byte of the block but the kept
/// ones, and lowers the total by the kept bytes.
pub proof fn lemma_split_ok(ls: Seq<Seq<u64>>, res: u64, lo: int, j: int, base: int, size: int, last: int)
    requires
        lists_shape(ls, base, size, last),
        lists_disjoint(ls),
        3 <= lo <= j <= last,
        last < 64,
        base + size <= u64::MAX,
        ls[j].len() > 0,
        res == ls[j][0],
        forall|m: int| lo <= m < j ==> #[trigger] ls[m].len() == 0,
    ensures
        ({
            let ls2 = split_lists(ls, res, lo, j);
            &&& lists_shape(ls2, base, size, last)
            &&& lists_disjoint(ls2)
            &&& forall|k: int, i: int|
                0 <= k < 64 && 0 <= i < ls2[k].len() ==> apart(res as int, lo, #[trigger] ls2[k][i] as int, k)
            &&& forall|p: int| #[trigger] is_free(ls2, p) <==> is_free(ls, p) && !(res <= p < res + blk(lo))
        }),
{
    let ls2 = split_lists(ls, res, lo, j);
    assert(in_zone(res as int, j, base, size));
    lemma_blk(j);
    // every upper half lies inside the taken block
    assert forall|m: int| lo <= m < j implies res + #[trigger] blk(m + 1) <= res + blk(j) && blk(m) >= 8
        && blk(m + 1) == 2 * blk(m) by {
        lemma_blk(m + 1);
        lemma_blk(m);
        if m + 1 < j {
            lemma_pow2_strictly_increases((m + 1) as nat, j as nat);
        }
    }
    // blocks that stay were apart from the taken block
    assert forall|k: int, i: int|
        0 <= k < 64 && 0 <= i < ls[k].len() && !(k == j && i == 0) implies apart(
        res as int,
        j,
        #[trigger] ls[k][i] as int,
        k,
    ) by {
        assert(ls[j][0] == res);
    }
    assert(ls2.len() == 64);
    assert forall|k: int| 0 <= k < 64 implies #[trigger] sorted(ls2[k]) by {
        assert(sorted(ls[k]));
        if k == j {
            assert forall|a: int, b: int| 0 <= a < b < ls2[k].len() implies ls2[k][a] < ls2[k][b] by {
                assert(ls2[k][a] == ls[k][a + 1]);
                assert(ls2[k][b] == ls[k][b + 1]);
            }
        }
    }
    assert forall|k: int| 0 <= k < 64 && (k < 3 || k > last) implies #[trigger] ls2[k].len() == 0 by {
        assert(ls[k].len() == 0);
    }
    assert forall|k: int, i: int|
        0 <= k < 64 && 0 <= i < ls2[k].len() implies #[trigger] in_zone(ls2[k][i] as int, k, base, size) by {
        if k == j {
            assert(ls2[k][i] == ls[k][i + 1]);
            assert(in_zone(ls[k][i + 1] as int, k, base, size));
        } else if lo <= k < j {
            assert(res + blk(k + 1) <= res + blk(j));
            lemma_blk(k + 1);
            assert(ls2[k][i] == (res + blk(k)) as u64);
            assert((res + blk(k)) as u64 == res + blk(k));
        } else {
            assert(in_zone(ls[k][i] as int, k, base, size));
        }
    }
    assert forall|m: int| lo <= m < j implies #[trigger] ls2[m][0] == res + blk(m) && ls2[m].len() == 1 by {
        assert(res + blk(m + 1) <= res + blk(j));
    }
    // the old position of each block of the new lists
    assert forall|k: int, i: int| 0 <= k < 64 && 0 <= i < ls2[k].len() && !(lo <= k < j) implies #[trigger] ls2[k][i]
        == ls[k][if k == j { i + 1 } else { i }] by {}
    assert forall|k1: int, i1: int, k2: int, i2: int|
        0 <= k1 < 64 && 0 <= k2 < 64 && 0 <= i1 < ls2[k1].len() && 0 <= i2 < ls2[k2].len() && (k1
            != k2 || i1 != i2) implies apart(#[trigger] ls2[k1][i1] as int, k1, #[trigger] ls2[k2][i2] as int, k2) by {
        let new1 = lo <= k1 < j;
        let new2 = lo <= k2 < j;
        if new1 && new2 {
            assert(k1 != k2);
            if k1 < k2 {
                lemma_blk(k1 + 1);
                if k1 + 1 < k2 {
                    lemma_pow2_strictly_increases((k1 + 1) as nat, k2 as nat);
                }
            } else {
                lemma_blk(k2 + 1);
                if k2 + 1 < k1 {
                    lemma_pow2_strictly_increases((k2 + 1) as nat, k1 as nat);
                }
            }
        } else if new1 {
            let o2 = if k2 == j { i2 + 1 } else { i2 };
            assert(apart(res as int, j, ls[k2][o2] as int, k2));
            assert(res + blk(k1 + 1) <= res + blk(j));
        } else if new2 {
            let o1 = if k1 == j { i1 + 1 } else { i1 };
            assert(apart(res as int, j, ls[k1][o1] as int, k1));
            assert(res + blk(k2 + 1) <= res + blk(j));
        } else {
            let o1 = if k1 == j { i1 + 1 } else { i1 };
            let o2 = if k2 == j { i2 + 1 } else { i2 };
            assert(apart(ls[k1][o1] as int, k1, ls[k2][o2] as int, k2));
        }
    }
    assert forall|k: int, i: int| 0 <= k < 64 && 0 <= i < ls2[k].len() implies apart(
        res as int,
        lo,
        #[trigger] ls2[k][i] as int,
        k,
    ) by {
        if lo <= k < j {
            lemma_blk(k);
            if lo < k {
                lemma_pow2_strictly_increases(lo as nat, k as nat);
            }
        } else {
            let o = if k == j { i + 1 } else { i };
            assert(apart(res as int, j, ls[k][o] as int, k));
            if lo < j {
                lemma_pow2_strictly_increases(lo as nat, j as nat);
            }
        }
    }
    assert forall|p: int| #[trigger] is_free(ls2, p) <==> is_free(ls, p) && !(res <= p < res + blk(lo)) by {
        if is_free(ls2, p) {
            let (k, i) = choose|k: int, i: int|
                0 <= k < 64 && 0 <= i < ls2[k].len() && ls2[k][i] <= p < ls2[k][i] + blk(k) && #[trigger] ls2[k][i]
                    == ls2[k][i];
            if lo <= k < j {
                assert(i == 0);
                assert(ls2[k][0] == res + blk(k));
                assert(res + blk(k + 1) <= res + blk(j) && blk(k + 1) == 2 * blk(k));
                assert(ls[j][0] <= p < ls[j][0] + blk(j));
                assert(ls[j][0] == ls[j][0]);
            } else {
                let o = if k == j { i + 1 } else { i };
                assert(ls[k][o] <= p < ls[k][o] + blk(k) && ls[k][o] == ls[k][o]);
            }
        }
        if is_free(ls, p) && !(res <= p < res + blk(lo)) {
            let (k, i) = choose|k: int, i: int|
                0 <= k < 64 && 0 <= i < ls[k].len() && ls[k][i] <= p < ls[k][i] + blk(k) && #[trigger] ls[k][i]
                    == ls[k][i];
            if k == j && i == 0 {
                lemma_split_cover(res as int, lo, j, p);
                let m = choose|m: int| lo <= m < j && res + blk(m) <= p < res + #[trigger] blk(m + 1);
                assert(ls2[m][0] == (res + blk(m)) as u64);
                assert(blk(m + 1) == 2 * blk(m));
                assert(ls2[m][0] <= p < ls2[m][0] + blk(m) && ls2[m][0] == ls2[m][0]);
            } else if k == j {
                assert(ls2[k][i - 1] == ls[k][i]);
                assert(ls2[k][i - 1] <= p < ls2[k][i - 1] + blk(k) && ls2[k][i - 1] == ls2[k][i - 1]);
            } else {
                assert(!(lo <= k < j));
                assert(ls2[k][i] == ls[k][i]);
                assert(ls2[k][i] <= p < ls2[k][i] + blk(k) && ls2[k][i] == ls2[k][i]);
            }
        }
    }
}

/// Splitting lowers the total by the kept bytes.
pub proof fn lemma_split_total(ls: Seq<Seq<u64>>, res: u64, lo: int, j: int)
    requires
        ls.len() == 64,
        3 <= lo <= j < 64,
        ls[j].len() > 0,
        forall|m: int| lo <= m < j ==> #[trigger] ls[m].len() == 0,
    ensures
        total(split_lists(ls, res, lo, j)) == total(ls) - blk(lo),
    decreases j - lo,
{
    if lo == j {
        assert(split_lists(ls, res, lo, j) =~= ls.update(j, ls[j].drop_first()));
        lemma_total_update(ls, j, ls[j].drop_first(), 64);
        assert((ls[j].drop_first().len() - ls[j].len()) * blk(j) == -blk(j)) by (nonlinear_arith)
            requires
                ls[j].drop_first().len() == ls[j].len() - 1,
        ;
        assert(total(ls.update(j, ls[j].drop_first())) == total(ls) - blk(j));
    } else {
        lemma_split_total(ls, res, lo + 1, j);
        let prev = split_lists(ls, res, lo + 1, j);
        assert(split_lists(ls, res, lo, j) =~= prev.update(lo, seq![(res + blk(lo)) as u64]));
        lemma_total_update(prev, lo, seq![(res + blk(lo)) as u64], 64);
        assert(prev[lo].len() == 0);
        lemma_blk(lo + 1);
        assert(total(prev) == total(ls) - blk(lo + 1));
        let single = seq![(res + blk(lo)) as u64];
        assert(single.len() == 1);
        assert((single.len() - prev[lo].len()) * blk(lo) == blk(lo)) by (nonlinear_arith)
            requires
                single.len() == 1,
                prev[lo].len() == 0,
        ;
        assert(total(prev.update(lo, seq![(res + blk(lo)) as u64])) == total(prev) + blk(lo));
    }
}

/// Popping the first block of list `k` through its head word keeps all lists
/// stored.
pub proof fn lemma_step_pop(s: Seq<u8>, meta: int, ls: Seq<Seq<u64>>, k: int)
    requires
        lists_stored(s, meta, ls),
        nodes_ok(ls, meta, s.len() as int),
        0 <= meta,
        meta + 512 <= s.len(),
        ls.len() == 64,
        0 <= k < 64,
        ls[k].len() > 0,
    ensures
        lists_stored(
            wr(s, head_slot(meta, k), next_of(ls[k], 0)),
            meta,
            ls.update(k, ls[k].drop_first()),
        ),
{
    let a = head_slot(meta, k);
    let v = next_of(ls[k], 0);
    lemma_lists_frame(s, meta, ls, a, v, k);
    assert(list_stored(s, meta, k, ls[k]));
    assert forall|i: int| 0 <= i < ls[k].len() implies (#[trigger] ls[k][i]) + 8 <= s.len() && apart8(
        head_slot(meta, k),
        ls[k][i] as int,
    ) by {
        assert(apart8(head_slot(meta, k), ls[k][i] as int) && head_slot(meta, k) >= 0);
    }
    lemma_list_pop(s, meta, k, ls[k]);
    let ls2 = ls.update(k, ls[k].drop_first());
    assert forall|kk: int| 0 <= kk < 64 implies #[trigger] list_stored(wr(s, a, v), meta, kk, ls2[kk]) by {
        if kk != k {
            assert(ls2[kk] == ls[kk]);
        }
    }
}

/// Making the empty list `m` hold the single block `x` (its header first,
/// then the head word) keeps all lists stored.
pub proof fn lemma_step_insert_empty(s: Seq<u8>, meta: int, ls: Seq<Seq<u64>>, m: int, x: u64)
    requires
        lists_stored(s, meta, ls),
        nodes_ok(ls, meta, s.len() as int),
        0 <= meta,
        meta + 512 <= s.len(),
        ls.len() == 64,
        0 <= m < 64,
        ls[m].len() == 0,
        x + 8 <= s.len(),
        x + 8 <= meta || meta + 512 <= x,
        forall|k: int, i: int| 0 <= k < 64 && 0 <= i < ls[k].len() ==> apart8(x as int, #[trigger] ls[k][i] as int),
    ensures
        lists_stored(wr(wr(s, x as int, NONE_OFF), head_slot(meta, m), x), meta, ls.update(m, seq![x])),
{
    let s1 = wr(s, x as int, NONE_OFF);
    lemma_lists_frame(s, meta, ls, x as int, NONE_OFF, -1);
    assert(lists_stored(s1, meta, ls));
    lemma_wr(s, x as int, NONE_OFF);
    assert(nodes_ok(ls, meta, s1.len() as int));
    lemma_lists_frame(s1, meta, ls, head_slot(meta, m), x, m);
    assert(list_stored(s, meta, m, ls[m]));
    lemma_list_insert(s, meta, m, ls[m], 0, x);
    assert(ls[m].insert(0, x) =~= seq![x]);
    let ls2 = ls.update(m, seq![x]);
    assert forall|kk: int| 0 <= kk < 64 implies #[trigger] list_stored(
        wr(s1, head_slot(meta, m), x),
        meta,
        kk,
        ls2[kk],
    ) by {
        if kk != m {
            assert(ls2[kk] == ls[kk]);
        }
    }
}

/// A store of one word at `a` touches neither the head words at `meta` nor
/// any free block of `ls`.
pub open spec fn word_avoids(a: int, meta: int, ls: Seq<Seq<u64>>) -> bool {
    &&& (a + 8 <= meta || meta + 512 <= a)
    &&& forall|k: int, i: int|
        0 <= k < 64 && 0 <= i < ls[k].len() ==> a + 8 <= #[trigger] ls[k][i] || ls[k][i] + blk(k) <= a
}

/// Stores that avoid the lists' blocks and head words keep the lists stored.
pub proof fn lemma_apply_avoiding(s: Seq<u8>, meta: int, ls: Seq<Seq<u64>>, ws: Seq<(u64, u64)>)
    requires
        lists_stored(s, meta, ls),
        nodes_ok(ls, meta, s.len() as int),
        ls.len() == 64,
        0 <= meta,
        meta + 512 <= s.len(),
        writes_in_bounds(ws, s.len() as int),
        forall|k: int| 0 <= k < 3 ==> #[trigger] ls[k].len() == 0,
        forall|j: int| 0 <= j < ws.len() ==> word_avoids(#[trigger] ws[j].0 as int, meta, ls),
    ensures
        lists_stored(apply_writes(s, ws), meta, ls),
        apply_writes(s, ws).len() == s.len(),
    decreases ws.len(),
{
    lemma_apply_writes(s, ws);
    if ws.len() > 0 {
        let init = ws.drop_last();
        assert forall|j: int| 0 <= j < init.len() implies #[trigger] init[j].0 + 8 <= s.len() by {
            assert(init[j] == ws[j]);
        }
        assert forall|j: int| 0 <= j < init.len() implies word_avoids(#[trigger] init[j].0 as int, meta, ls) by {
            assert(init[j] == ws[j]);
        }
        lemma_apply_avoiding(s, meta, ls, init);
        let w = ws.last();
        assert(w == ws[ws.len() - 1]);
        assert(word_avoids(w.0 as int, meta, ls));
        let s1 = apply_writes(s, init);
        assert forall|k: int, i: int| 0 <= k < 64 && 0 <= i < ls[k].len() implies apart8(
            w.0 as int,
            #[trigger] ls[k][i] as int,
        ) by {
            assert(w.0 + 8 <= ls[k][i] || ls[k][i] + blk(k) <= w.0);
            if ls[k].len() > 0 {
                assert(ls[k][i] + 8 <= s.len());
            }
            assert(k >= 3) by {
                if k < 3 {
                    assert(ls[k].len() == 0);
                }
            }
            lemma_blk(k);
        }
        lemma_lists_frame(s1, meta, ls, w.0 as int, w.1, -1);
    }
}

/// The word at `a` lies in the head words at `meta` or in the zone
/// `[base, base + size)`.
pub open spec fn in_area(a: int, meta: int, base: int, size: int) -> bool {
    (meta <= a && a + 8 <= meta + 512) || (base <= a && a + 8 <= base + size)
}

/// `a` is the header word of a block of the lists.
pub open spec fn is_header(a: int, ls: Seq<Seq<u64>>) -> bool {
    exists|k: int, i: int| 0 <= k < 64 && 0 <= i < ls[k].len() && #[trigger] ls[k][i] == a
}

/// A queued store at `a` lands on a head word, or on the header of a block
/// that is free before (`ls`) or after (`ps`) the queued changes.
pub open spec fn target_ok(a: int, meta: int, ls: Seq<Seq<u64>>, ps: Seq<Seq<u64>>) -> bool {
    ||| meta <= a && a + 8 <= meta + 512
    ||| is_header(a, ls)
    ||| is_header(a, ps)
}

/// Queued stores that were sound for the lists `p_old` stay sound for `p_new`
/// when every block of `p_old` is a block of `p_new` or of `ls`.
pub proof fn lemma_targets_step(aux: Seq<(u64, u64)>, meta: int, ls: Seq<Seq<u64>>, p_old: Seq<Seq<u64>>, p_new: Seq<Seq<u64>>)
    requires
        forall|j: int| 0 <= j < aux.len() ==> target_ok(#[trigger] aux[j].0 as int, meta, ls, p_old),
        forall|k: int, i: int|
            0 <= k < 64 && 0 <= i < p_old[k].len() ==> is_header(#[trigger] p_old[k][i] as int, p_new) || is_header(
                p_old[k][i] as int,
                ls,
            ),
    ensures
        forall|j: int| 0 <= j < aux.len() ==> target_ok(#[trigger] aux[j].0 as int, meta, ls, p_new),
{
    assert forall|j: int| 0 <= j < aux.len() implies target_ok(#[trigger] aux[j].0 as int, meta, ls, p_new) by {
        let a = aux[j].0 as int;
        if is_header(a, p_old) && !is_header(a, ls) && !(meta <= a && a + 8 <= meta + 512) {
            let (k, i) = choose|k: int, i: int| 0 <= k < 64 && 0 <= i < p_old[k].len() && #[trigger] p_old[k][i] == a;
            assert(is_header(p_old[k][i] as int, p_new) || is_header(p_old[k][i] as int, ls));
        }
    }
}

/// Allocator of one zone: 64 free lists of blocks of 2^k bytes, kept sorted by
/// offset and linked through the first word of each free block, with their
/// head words stored in the pool image at `meta`.
///
/// Changes to the lists are first queued in the redo log `aux` (with the
/// word stores of `log64`) and only take effect in `drain_aux`, so that a
/// crash in the middle of an operation is recovered by draining again.
pub struct BuddyAlg {
    meta: u64,
    last_idx: usize,
    available: usize,
    size: usize,
    aux: Ring<(u64, u64), 128>,
    log64: Ring<(u64, u64), 8>,
    drop_log: Ring<(u64, usize), 8>,
    aux_valid: bool,
    available_log: usize,
    mutex: u64,
    base: Ghost<int>,
    lists: Ghost<Seq<Seq<u64>>>,
    pending: Ghost<Seq<Seq<u64>>>,
}

impl BuddyAlg {
    /// The free lists as stored in the image.
    pub closed spec fn free_lists(&self) -> Seq<Seq<u64>> {
        self.lists@
    }

    /// The free lists once the redo log is drained.
    pub closed spec fn pending_lists(&self) -> Seq<Seq<u64>> {
        self.pending@
    }

    /// Offset of the free-list head words.
    pub closed spec fn meta_off(&self) -> int {
        self.meta as int
    }

    /// First byte of the managed range.
    pub closed spec fn zone_base(&self) -> int {
        self.base@
    }

    /// Size of the managed range.
    pub closed spec fn zone_size(&self) -> int {
        self.size as int
    }

    /// Order of the largest block.
    pub closed spec fn last_order(&self) -> int {
        self.last_idx as int
    }

    /// Free bytes as stored.
    pub closed spec fn spec_available(&self) -> int {
        self.available as int
    }

    /// Free bytes once the redo log is drained.
    pub closed spec fn spec_available_log(&self) -> int {
        self.available_log as int
    }

    /// The queued free-list stores.
    pub closed spec fn redo_log(&self) -> Seq<(u64, u64)> {
        self.aux@
    }

    /// The queued word stores of the caller.
    pub closed spec fn word_log(&self) -> Seq<(u64, u64)> {
        self.log64@
    }

    /// Blocks to reclaim if the operation fails.
    pub closed spec fn drop_records(&self) -> Seq<(u64, usize)> {
        self.drop_log@
    }

    /// An operation was started and not yet completed.
    pub closed spec fn in_operation(&self) -> bool {
        self.aux_valid
    }

    /// The lock word.
    pub closed spec fn lock_word(&self) -> u64 {
        self.mutex
    }

    /// Everything but the relation of `available_log` with the pending lists.
    pub closed spec fn core_inv(&self, mem: Seq<u8>) -> bool {
        &&& self.aux.inv()
        &&& self.log64.inv()
        &&& self.drop_log.inv()
        &&& geometry(mem.len() as int, self.meta as int, self.base@, self.size as int, self.last_idx as int)
        &&& lists_shape(self.lists@, self.base@, self.size as int, self.last_idx as int)
        &&& lists_disjoint(self.lists@)
        &&& lists_stored(mem, self.meta as int, self.lists@)
        &&& self.available == total(self.lists@)
        &&& writes_in_bounds(self.aux@, mem.len() as int)
        &&& forall|j: int|
            0 <= j < self.aux@.len() ==> in_area(#[trigger] self.aux@[j].0 as int, self.meta as int, self.base@, self.size as int)
        &&& forall|j: int|
            0 <= j < self.aux@.len() ==> target_ok(#[trigger] self.aux@[j].0 as int, self.meta as int, self.lists@, self.pending@)
        &&& lists_shape(self.pending@, self.base@, self.size as int, self.last_idx as int)
        &&& lists_disjoint(self.pending@)
        &&& lists_stored(apply_writes(mem, self.aux@), self.meta as int, self.pending@)
        &&& (self.aux@.len() == 0 ==> self.pending@ == self.lists@)
        &&& writes_in_bounds(self.log64@, mem.len() as int)
        &&& forall|j: int|
            0 <= j < self.log64@.len() ==> word_avoids(#[trigger] self.log64@[j].0 as int, self.meta as int, self.pending@)
    }

    /// The allocator is consistent with the image `mem`.
    pub closed spec fn inv(&self, mem: Seq<u8>) -> bool {
        &&& self.core_inv(mem)
        &&& self.available_log == total(self.pending@)
    }

    /// Byte `p` lies in the zone's head words or in the zone itself.
    pub open spec fn owns(&self, p: int) -> bool {
        ||| self.meta_off() <= p < self.meta_off() + 512
        ||| self.zone_base() <= p < self.zone_base() + self.zone_size()
    }

    /// The queued free-list stores fall inside the image.
    pub proof fn lemma_redo_in_bounds(&self, mem: Seq<u8>)
        requires
            self.core_inv(mem),
        ensures
            writes_in_bounds(self.redo_log(), mem.len() as int),
    {
    }

    /// The queued word stores fall inside the image.
    pub proof fn lemma_words_in_bounds(&self, mem: Seq<u8>)
        requires
            self.core_inv(mem),
        ensures
            writes_in_bounds(self.word_log(), mem.len() as int),
    {
    }

    /// The queued free-list stores only touch bytes that the zone owns.
    pub proof fn lemma_redo_owned(&self, mem: Seq<u8>)
        requires
            self.core_inv(mem),
        ensures
            forall|p: int| !self.owns(p) ==> !#[trigger] covers(self.redo_log(), p),
    {
        assert forall|p: int| !self.owns(p) implies !#[trigger] covers(self.redo_log(), p) by {
            if covers(self.redo_log(), p) {
                let j = choose|j: int| 0 <= j < self.redo_log().len() && #[trigger] self.redo_log()[j].0 <= p < self.redo_log()[j].0 + 8;
                assert(in_area(self.aux@[j].0 as int, self.meta as int, self.base@, self.size as int));
            }
        }
    }

    /// A byte that the queued free-list stores touch is a head byte, or free
    /// before or after them.
    pub proof fn lemma_redo_free(&self, mem: Seq<u8>)
        requires
            self.core_inv(mem),
        ensures
            forall|p: int| #[trigger] covers(self.redo_log(), p) ==> (self.meta_off() <= p < self.meta_off() + 512)
                || is_free(self.free_lists(), p) || is_free(self.pending_lists(), p),
    {
        assert forall|p: int| #[trigger] covers(self.redo_log(), p) implies (self.meta_off() <= p < self.meta_off() + 512)
            || is_free(self.free_lists(), p) || is_free(self.pending_lists(), p) by {
            let j = choose|j: int| 0 <= j < self.redo_log().len() && #[trigger] self.redo_log()[j].0 <= p < self.redo_log()[j].0 + 8;
            let a = self.aux@[j].0 as int;
            assert(target_ok(a, self.meta as int, self.lists@, self.pending@));
            if is_header(a, self.lists@) {
                let (k, i) = choose|k: int, i: int| 0 <= k < 64 && 0 <= i < self.lists@[k].len() && #[trigger] self.lists@[k][i] == a;
                assert(k >= 3) by {
                    if k < 3 {
                        assert(self.lists@[k].len() == 0);
                    }
                }
                lemma_blk(k);
                assert(self.lists@[k][i] <= p < self.lists@[k][i] + blk(k) && self.lists@[k][i] == self.lists@[k][i]);
            } else if is_header(a, self.pending@) {
                let (k, i) = choose|k: int, i: int| 0 <= k < 64 && 0 <= i < self.pending@[k].len() && #[trigger] self.pending@[k][i] == a;
                assert(k >= 3) by {
                    if k < 3 {
                        assert(self.pending@[k].len() == 0);
                    }
                }
                lemma_blk(k);
                assert(self.pending@[k][i] <= p < self.pending@[k][i] + blk(k) && self.pending@[k][i] == self.pending@[k][i]);
            }
        }
    }

    /// Facts of a consistent allocator.
    pub proof fn lemma_inv(&self, mem: Seq<u8>)
        requires
            self.inv(mem),
        ensures
            geometry(mem.len() as int, self.meta_off(), self.zone_base(), self.zone_size(), self.last_order()),
            lists_shape(self.free_lists(), self.zone_base(), self.zone_size(), self.last_order()),
            lists_disjoint(self.free_lists()),
            lists_stored(mem, self.meta_off(), self.free_lists()),
            self.spec_available() == total(self.free_lists()),
            lists_shape(self.pending_lists(), self.zone_base(), self.zone_size(), self.last_order()),
            lists_disjoint(self.pending_lists()),
            self.spec_available_log() == total(self.pending_lists()),
            self.redo_log().len() == 0 ==> self.pending_lists() == self.free_lists(),
            self.redo_log().len() < 128,
            self.word_log().len() < 8,
            self.drop_records().len() < 8,
    {
        self.aux.lemma_len();
        self.log64.lemma_len();
        self.drop_log.lemma_len();
    }
}

/// A store that avoids a block avoids every block obtained by splitting it.
pub proof fn lemma_avoids_split(a: int, meta: int, ls: Seq<Seq<u64>>, res: u64, lo: int, j: int)
    requires
        word_avoids(a, meta, ls),
        ls.len() == 64,
        3 <= lo <= j < 64,
        ls[j].len() > 0,
        res == ls[j][0],
        res + blk(j) <= u64::MAX,
    ensures
        word_avoids(a, meta, split_lists(ls, res, lo, j)),
{
    let ls2 = split_lists(ls, res, lo, j);
    assert(a + 8 <= ls[j][0] || ls[j][0] + blk(j) <= a);
    assert forall|k: int, i: int| 0 <= k < 64 && 0 <= i < ls2[k].len() implies a + 8 <= #[trigger] ls2[k][i]
        || ls2[k][i] + blk(k) <= a by {
        if k == j {
            assert(ls2[k][i] == ls[k][i + 1]);
        } else if lo <= k < j {
            lemma_blk(k + 1);
            if k + 1 < j {
                lemma_pow2_strictly_increases((k + 1) as nat, j as nat);
            }
            assert(ls2[k][i] == (res + blk(k)) as u64);
        } else {
            assert(ls2[k][i] == ls[k][i]);
        }
    }
}

impl BuddyAlg {
    /// Queues the changes that take the first free block of the lowest order
    /// from `idx` up, splitting it down to order `idx`; with `split`, the upper
    /// half of that block (order `idx - 1`) is also returned to its list, the
    /// caller keeping the lower half.
    #[verifier::rlimit(40)]
    fn find_free_memory(&mut self, mem: &PMem, idx: usize, split: bool) -> (r: Option<u64>)
        requires
            old(self).core_inv(mem@),
            3 <= idx <= 64,
            split ==> 4 <= idx && old(self).free_lists()[idx - 1].len() == 0,
            forall|m: int|
                (if split { idx - 1 } else { idx as int }) <= m < 64 ==> #[trigger] old(self).pending_lists()[m]
                    == old(self).free_lists()[m],
            old(self).redo_log().len() + 1 + 2 * (63 - (if split { idx - 1 } else { idx as int })) < 128,
        ensures
            r is None <==> lowest_fit(old(self).free_lists(), idx as int, old(self).last_order()) == -1,
            r is None ==> *final(self) == *old(self),
            r matches Some(res) ==> {
                let j = lowest_fit(old(self).free_lists(), idx as int, old(self).last_order());
                let lo = if split { idx - 1 } else { idx as int };
                &&& res == old(self).free_lists()[j][0]
                &&& final(self).pending_lists() == split_lists(old(self).pending_lists(), res, lo, j)
                &&& final(self).redo_log().len() == old(self).redo_log().len() + 1 + 2 * (j - lo)
                &&& final(self).core_inv(mem@)
            },
            final(self).free_lists() == old(self).free_lists(),
            final(self).meta == old(self).meta,
            final(self).base == old(self).base,
            final(self).size == old(self).size,
            final(self).last_idx == old(self).last_idx,
            final(self).available == old(self).available,
            final(self).available_log == old(self).available_log,
            final(self).log64 == old(self).log64,
            final(self).drop_log == old(self).drop_log,
            final(self).aux_valid == old(self).aux_valid,
            final(self).mutex == old(self).mutex,
        decreases 64 - idx,
    {
        if idx > self.last_idx {
            return None;
        }
        let ghost ls = self.lists@;
        let ghost ps = self.pending@;
        let ghost meta = self.meta as int;
        let ghost last = self.last_idx as int;
        let ghost base = self.base@;
        let ghost size = self.size as int;
        proof {
            lemma_nodes_ok(ls, mem@.len() as int, meta, base, size, last);
            lemma_apply_writes(mem@, self.aux@);
            assert(list_stored(mem@, meta, idx as int, ls[idx as int]));
            lemma_lowest_fit(ls, idx as int, last);
            assert(old(self).pending_lists()[idx as int] == old(self).free_lists()[idx as int]);
            assert(ps[idx as int] == ls[idx as int]);
            if split {
                assert(old(self).pending_lists()[idx - 1] == old(self).free_lists()[idx - 1]);
            }
        }
        let res: u64;
        let hs: u64 = self.meta + 8 * (idx as u64);
        let head = mem.read_u64(hs);
        if let Some(b) = off_to_option(head) {
            assert(ls[idx as int].len() > 0);
            let nx = mem.read_u64(b);
            assert(nx == next_of(ls[idx as int], 0));
            let ghost pm = apply_writes(mem@, self.aux@);
            self.aux.push((hs, nx));
            proof {
                assert(self.aux@.drop_last() =~= old(self).aux@);
                lemma_nodes_ok(ps, mem@.len() as int, meta, base, size, last);
                lemma_step_pop(pm, meta, ps, idx as int);
                let ps1 = ps.update(idx as int, ps[idx as int].drop_first());
                assert(split_lists(ps, b, idx as int, idx as int) =~= ps1);
                lemma_split_ok(ps, b, idx as int, idx as int, base, size, last);
                self.pending = Ghost(ps1);
                assert forall|j: int| 0 <= j < self.aux@.len() implies #[trigger] self.aux@[j].0 + 8
                    <= mem@.len() by {
                    if j < old(self).aux@.len() {
                        assert(self.aux@[j] == old(self).aux@[j]);
                    }
                }
                assert forall|j: int| 0 <= j < self.aux@.len() implies in_area(#[trigger] self.aux@[j].0 as int, meta, base, size) by {
                    if j < old(self).aux@.len() {
                        assert(self.aux@[j] == old(self).aux@[j]);
                    }
                }
                assert forall|k: int, i: int| 0 <= k < 64 && 0 <= i < ps[k].len() implies is_header(#[trigger] ps[k][i] as int, ps1)
                    || is_header(ps[k][i] as int, ls) by {
                    if k == idx && i == 0 {
                        assert(ls[k][0] == ps[k][0]);
                    } else if k == idx {
                        assert(ps1[k][i - 1] == ps[k][i]);
                    } else {
                        assert(ps1[k][i] == ps[k][i]);
                    }
                }
                lemma_targets_step(old(self).aux@, meta, ls, ps, ps1);
                assert forall|j: int| 0 <= j < self.aux@.len() implies target_ok(#[trigger] self.aux@[j].0 as int, meta, ls, ps1) by {
                    if j < old(self).aux@.len() {
                        assert(self.aux@[j] == old(self).aux@[j]);
                    }
                }
                assert forall|j: int| 0 <= j < self.log64@.len() implies word_avoids(
                    #[trigger] self.log64@[j].0 as int,
                    meta,
                    self.pending@,
                ) by {
                    assert(in_zone(ps[idx as int][0] as int, idx as int, base, size));
                    lemma_avoids_split(self.log64@[j].0 as int, meta, ps, b, idx as int, idx as int);
                }
            }
            res = b;
        } else {
            assert(ls[idx as int].len() == 0);
            match self.find_free_memory(mem, idx + 1, true) {
                Some(r) => {
                    res = r;
                },
                None => {
                    return None;
                },
            }
        }
        let ghost j = lowest_fit(ls, idx as int, last);
        assert(self.pending@ == split_lists(ps, res, idx as int, j));
        if split {
            let ghost ps1 = self.pending@;
            let ghost pm1 = apply_writes(mem@, self.aux@);
            proof {
                lemma_blk(idx as int);
                lemma_blk((idx - 1) as int);
                lemma_u64_shl_is_mul(1, (idx - 1) as u64);
                lemma_split_ok(ps, res, idx as int, j, base, size, last);
                assert(in_zone(res as int, j, base, size));
                if idx < j {
                    lemma_pow2_strictly_increases(idx as nat, j as nat);
                }
            }
            let next: u64 = res + (1u64 << ((idx - 1) as u64));
            let hs2: u64 = self.meta + 8 * ((idx - 1) as u64);
            let mut curr = mem.read_u64(hs2);
            let mut prev: Option<u64> = None;
            proof {
                assert(list_stored(mem@, meta, idx - 1, ls[idx - 1]));
            }
            loop
                invariant
                    curr == NONE_OFF,
                    prev is None,
                ensures
                    prev is None,
                decreases 1int,
            {
                match off_to_option(curr) {
                    None => {
                        break;
                    },
                    Some(b) => {
                        if b > next {
                            break;
                        }
                        prev = Some(b);
                        curr = mem.read_u64(b);
                    },
                }
            }
            if let Some(p) = prev {
                let pn = mem.read_u64(p);
                self.aux.push((next, pn));
                self.aux.push((p, next));
            } else {
                let hn = mem.read_u64(hs2);
                assert(hn == NONE_OFF);
                let ghost aux1 = self.aux@;
                self.aux.push((next, hn));
                let ghost aux_mid = self.aux@;
                self.aux.push((hs2, next));
                proof {
                    assert(self.aux@.drop_last() =~= aux_mid);
                    assert(aux_mid.drop_last() =~= aux1);
                    assert(apply_writes(mem@, aux_mid) == wr(pm1, next as int, NONE_OFF));
                    assert(apply_writes(mem@, self.aux@) == wr(
                        wr(pm1, next as int, NONE_OFF),
                        hs2 as int,
                        next,
                    ));
                    lemma_nodes_ok(ps1, mem@.len() as int, meta, base, size, last);
                    assert forall|k: int, i: int| 0 <= k < 64 && 0 <= i < ps1[k].len() implies apart8(
                        next as int,
                        #[trigger] ps1[k][i] as int,
                    ) by {
                        assert(apart(res as int, idx as int, ps1[k][i] as int, k));
                        assert(in_zone(ps1[k][i] as int, k, base, size));
                        assert(k >= 3) by {
                            if k < 3 {
                                assert(ps1[k].len() == 0);
                            }
                        }
                        lemma_blk(k);
                    }
                    lemma_apply_writes(mem@, aux1);
                    assert(res + blk(idx as int) <= base + size);
                    assert(next + 8 <= pm1.len());
                    lemma_step_insert_empty(pm1, meta, ps1, idx - 1, next);
                    let ps2 = ps1.update(idx - 1, seq![next]);
                    assert(ps2 =~= split_lists(ps, res, idx - 1, j));
                    lemma_split_ok(ps, res, idx - 1, j, base, size, last);
                    self.pending = Ghost(ps2);
                    assert forall|q: int| 0 <= q < self.aux@.len() implies #[trigger] self.aux@[q].0 + 8
                        <= mem@.len() by {
                        if q < aux1.len() {
                            assert(self.aux@[q] == aux1[q]);
                        }
                    }
                    assert forall|q: int| 0 <= q < self.aux@.len() implies in_area(#[trigger] self.aux@[q].0 as int, meta, base, size) by {
                        if q < aux1.len() {
                            assert(self.aux@[q] == aux1[q]);
                        }
                    }
                    assert forall|k: int, i: int| 0 <= k < 64 && 0 <= i < ps1[k].len() implies is_header(#[trigger] ps1[k][i] as int, ps2)
                        || is_header(ps1[k][i] as int, ls) by {
                        assert(k != idx - 1);
                        assert(ps2[k][i] == ps1[k][i]);
                    }
                    lemma_targets_step(aux1, meta, ls, ps1, ps2);
                    assert(ps2[idx - 1][0] == next);
                    assert forall|q: int| 0 <= q < self.aux@.len() implies target_ok(#[trigger] self.aux@[q].0 as int, meta, ls, ps2) by {
                        if q < aux1.len() {
                            assert(self.aux@[q] == aux1[q]);
                        }
                    }
                    assert forall|q: int| 0 <= q < self.log64@.len() implies word_avoids(
                        #[trigger] self.log64@[q].0 as int,
                        meta,
                        self.pending@,
                    ) by {
                        lemma_avoids_split(self.log64@[q].0 as int, meta, ps, res, idx - 1, j);
                    }
                }
            }
        }
        Some(res)
    }
}

impl BuddyAlg {
    fn lock(&mut self)
        ensures
            final(self).mutex == 1,
            final(self).meta == old(self).meta,
            final(self).base == old(self).base,
            final(self).size == old(self).size,
            final(self).last_idx == old(self).last_idx,
            final(self).available == old(self).available,
            final(self).available_log == old(self).available_log,
            final(self).aux == old(self).aux,
            final(self).log64 == old(self).log64,
            final(self).drop_log == old(self).drop_log,
            final(self).aux_valid == old(self).aux_valid,
            final(self).lists == old(self).lists,
            final(self).pending == old(self).pending,
    {
        self.mutex = 1;
    }

    fn unlock(&mut self)
        ensures
            final(self).mutex == 0,
            final(self).meta == old(self).meta,
            final(self).base == old(self).base,
            final(self).size == old(self).size,
            final(self).last_idx == old(self).last_idx,
            final(self).available == old(self).available,
            final(self).available_log == old(self).available_log,
            final(self).aux == old(self).aux,
            final(self).log64 == old(self).log64,
            final(self).drop_log == old(self).drop_log,
            final(self).aux_valid == old(self).aux_valid,
            final(self).lists == old(self).lists,
            final(self).pending == old(self).pending,
    {
        self.mutex = 0;
    }

    /// Queues a word store of the caller, performed with the allocator's
    /// changes in `drain_aux`.
    pub fn log(&mut self, mem: &PMem, off: u64, data: u64)
        requires
            old(self).inv(mem@),
            old(self).word_log().len() + 1 < 8,
            off + 8 <= mem@.len(),
            word_avoids(off as int, old(self).meta_off(), old(self).pending_lists()),
        ensures
            final(self).inv(mem@),
            final(self).word_log() == old(self).word_log().push((off, data)),
            final(self).redo_log() == old(self).redo_log(),
            final(self).drop_records() == old(self).drop_records(),
            final(self).free_lists() == old(self).free_lists(),
            final(self).pending_lists() == old(self).pending_lists(),
            final(self).spec_available() == old(self).spec_available(),
            final(self).spec_available_log() == old(self).spec_available_log(),
            final(self).in_operation() == old(self).in_operation(),
            final(self).lock_word() == old(self).lock_word(),
            final(self).meta_off() == old(self).meta_off(),
            final(self).zone_base() == old(self).zone_base(),
            final(self).zone_size() == old(self).zone_size(),
            final(self).last_order() == old(self).last_order(),
    {
        self.log64.push((off, data));
        assert forall|j: int| 0 <= j < self.log64@.len() implies #[trigger] self.log64@[j].0 + 8 <= mem@.len() by {
            if j < old(self).log64@.len() {
                assert(self.log64@[j] == old(self).log64@[j]);
            }
        }
        assert forall|j: int| 0 <= j < self.log64@.len() implies word_avoids(
            #[trigger] self.log64@[j].0 as int,
            self.meta as int,
            self.pending@,
        ) by {
            if j < old(self).log64@.len() {
                assert(self.log64@[j] == old(self).log64@[j]);
            }
        }
    }

    /// Records a block to reclaim if the current operation fails.
    pub fn drop_on_failure(&mut self, mem: &PMem, off: u64, len: usize)
        requires
            old(self).inv(mem@),
            old(self).drop_records().len() + 1 < 8,
        ensures
            final(self).inv(mem@),
            final(self).drop_records() == old(self).drop_records().push((off, len)),
            final(self).word_log() == old(self).word_log(),
            final(self).redo_log() == old(self).redo_log(),
            final(self).free_lists() == old(self).free_lists(),
            final(self).pending_lists() == old(self).pending_lists(),
            final(self).spec_available() == old(self).spec_available(),
            final(self).spec_available_log() == old(self).spec_available_log(),
            final(self).in_operation() == old(self).in_operation(),
            final(self).lock_word() == old(self).lock_word(),
            final(self).meta_off() == old(self).meta_off(),
            final(self).zone_base() == old(self).zone_base(),
            final(self).zone_size() == old(self).zone_size(),
            final(self).last_order() == old(self).last_order(),
    {
        self.drop_log.push((off, len));
    }

    /// The image `mem` is `m0`, with which the allocator is consistent, after
    /// a prefix of its queued free-list stores, or, once those are all
    /// performed, after a prefix of its queued word stores: the state that a
    /// crash in the middle of `drain_aux` leaves.
    pub open spec fn drained_from(&self, m0: Seq<u8>, mem: Seq<u8>) -> bool {
        &&& self.inv(m0)
        &&& mem.len() == m0.len()
        &&& {
            ||| exists|n: int| 0 <= n <= self.redo_log().len() && mem == apply_writes(m0, #[trigger] self.redo_log().take(n))
            ||| self.redo_log().len() == 0 && exists|n: int|
                0 <= n <= self.word_log().len() && mem == apply_writes(m0, #[trigger] self.word_log().take(n))
        }
    }

    /// `drain_aux` can bring the image back to a consistent state.
    pub open spec fn recoverable(&self, mem: Seq<u8>) -> bool {
        exists|m0: Seq<u8>| #[trigger] self.drained_from(m0, mem)
    }

    /// A consistent allocator is recoverable, from its own image.
    pub proof fn lemma_inv_recoverable(&self, mem: Seq<u8>)
        requires
            self.inv(mem),
        ensures
            self.recoverable(mem),
    {
        assert(self.redo_log().take(0) =~= Seq::<(u64, u64)>::empty());
        assert(apply_writes(mem, self.redo_log().take(0)) == mem);
        assert(self.drained_from(mem, mem));
    }

    /// Redoing all queued stores on a crash image gives what performing them
    /// once on the consistent image gives.
    pub proof fn lemma_drained_same(&self, m0: Seq<u8>, mem: Seq<u8>)
        requires
            self.drained_from(m0, mem),
        ensures
            apply_writes(apply_writes(mem, self.redo_log()), self.word_log()) == apply_writes(
                apply_writes(m0, self.redo_log()),
                self.word_log(),
            ),
    {
        let aux = self.redo_log();
        let words = self.word_log();
        if exists|n: int| 0 <= n <= aux.len() && mem == apply_writes(m0, #[trigger] aux.take(n)) {
            let n = choose|n: int| 0 <= n <= aux.len() && mem == apply_writes(m0, #[trigger] aux.take(n));
            lemma_redo_idempotent(m0, aux, n);
        } else {
            let n = choose|n: int| 0 <= n <= words.len() && mem == apply_writes(m0, #[trigger] words.take(n));
            assert(aux =~= Seq::<(u64, u64)>::empty());
            assert(apply_writes(mem, aux) == mem);
            assert(apply_writes(m0, aux) == m0);
            lemma_redo_idempotent(m0, words, n);
        }
    }

    /// Performs the queued free-list stores, then the queued word stores, and
    /// makes the pending lists and free byte count current. From the state of
    /// a crash in the middle of an earlier drain, redoing the stores gives the
    /// image that one whole drain gives.
    pub fn drain_aux(&mut self, mem: &mut PMem)
        requires
            old(self).recoverable(old(mem)@),
        ensures
            final(mem)@.len() == old(mem)@.len(),
            final(self).inv(final(mem)@),
            final(mem)@ == apply_writes(apply_writes(old(mem)@, old(self).redo_log()), old(self).word_log()),
            forall|m0: Seq<u8>| #[trigger] old(self).drained_from(m0, old(mem)@) ==> final(mem)@ == apply_writes(
                apply_writes(m0, old(self).redo_log()),
                old(self).word_log(),
            ),
            forall|p: int|
                0 <= p < old(mem)@.len() && !covers(old(self).redo_log(), p) && !covers(old(self).word_log(), p)
                    ==> #[trigger] final(mem)@[p] == old(mem)@[p],
            final(self).free_lists() == old(self).pending_lists(),
            final(self).pending_lists() == old(self).pending_lists(),
            final(self).redo_log() == Seq::<(u64, u64)>::empty(),
            final(self).word_log() == Seq::<(u64, u64)>::empty(),
            final(self).drop_records() == old(self).drop_records(),
            final(self).spec_available() == old(self).spec_available_log(),
            final(self).spec_available_log() == old(self).spec_available_log(),
            final(self).in_operation(),
            final(self).lock_word() == old(self).lock_word(),
            final(self).meta_off() == old(self).meta_off(),
            final(self).zone_base() == old(self).zone_base(),
            final(self).zone_size() == old(self).zone_size(),
            final(self).last_order() == old(self).last_order(),
    {
        let ghost mc = mem@;
        let ghost m0 = choose|m0: Seq<u8>| self.drained_from(m0, mc);
        let ghost aux0 = self.aux@;
        let ghost words0 = self.log64@;
        self.aux_valid = true;
        let items = self.aux.foreach();
        let mut i: usize = 0;
        while i < items.len()
            invariant
                i <= items@.len(),
                writes_in_bounds(items@, mc.len() as int),
                mem@ == apply_writes(mc, items@.take(i as int)),
                mem@.len() == mc.len(),
            decreases items@.len() - i,
        {
            let (off, data) = items[i];
            assert(items@[i as int].0 + 8 <= mc.len());
            mem.write_u64(off, data);
            proof {
                assert(items@.take(i + 1).drop_last() =~= items@.take(i as int));
                assert(items@.take(i + 1).last() == items@[i as int]);
                lemma_wr(apply_writes(mc, items@.take(i as int)), off as int, data);
            }
            i = i + 1;
        }
        assert(items@.take(items@.len() as int) =~= items@);
        self.aux.clear();
        let ghost m1 = mem@;
        let words = self.log64.foreach();
        let mut i: usize = 0;
        while i < words.len()
            invariant
                i <= words@.len(),
                writes_in_bounds(words@, m1.len() as int),
                mem@ == apply_writes(m1, words@.take(i as int)),
                mem@.len() == m1.len(),
            decreases words@.len() - i,
        {
            let (off, data) = words[i];
            assert(words@[i as int].0 + 8 <= m1.len());
            mem.write_u64(off, data);
            proof {
                assert(words@.take(i + 1).drop_last() =~= words@.take(i as int));
                assert(words@.take(i + 1).last() == words@[i as int]);
                lemma_wr(apply_writes(m1, words@.take(i as int)), off as int, data);
            }
            i = i + 1;
        }
        assert(words@.take(words@.len() as int) =~= words@);
        self.log64.clear();
        self.available = self.available_log;
        self.lists = Ghost(self.pending@);
        proof {
            let d1 = apply_writes(m0, aux0);
            assert forall|mm: Seq<u8>| #[trigger] old(self).drained_from(mm, mc) implies mem@ == apply_writes(
                apply_writes(mm, aux0),
                words0,
            ) by {
                old(self).lemma_drained_same(mm, mc);
            }
            assert(old(self).drained_from(m0, mc));
            assert(mem@ == apply_writes(d1, words0));
            lemma_apply_writes(m0, aux0);
            lemma_nodes_ok(self.pending@, m0.len() as int, self.meta as int, self.base@, self.size as int, self.last_idx as int);
            assert forall|k: int| 0 <= k < 3 implies #[trigger] self.pending@[k].len() == 0 by {}
            lemma_apply_avoiding(d1, self.meta as int, self.pending@, words0);
            assert(writes_in_bounds(aux0, mc.len() as int));
            lemma_apply_writes(mc, aux0);
            lemma_apply_writes(m1, words0);
        }
        assert(apply_writes(mem@, self.aux@) == mem@);
    }

    /// Begins a failure-atomic section: takes the lock and clears the word log.
    pub fn prepare(&mut self, mem: &PMem)
        requires
            old(self).inv(mem@),
        ensures
            final(self).inv(mem@),
            final(self).word_log() == Seq::<(u64, u64)>::empty(),
            final(self).in_operation(),
            final(self).lock_word() == 1,
            final(self).redo_log() == old(self).redo_log(),
            final(self).drop_records() == old(self).drop_records(),
            final(self).free_lists() == old(self).free_lists(),
            final(self).pending_lists() == old(self).pending_lists(),
            final(self).spec_available() == old(self).spec_available(),
            final(self).spec_available_log() == old(self).spec_available_log(),
            final(self).meta_off() == old(self).meta_off(),
            final(self).zone_base() == old(self).zone_base(),
            final(self).zone_size() == old(self).zone_size(),
            final(self).last_order() == old(self).last_order(),
    {
        self.lock();
        self.log64.clear();
        self.aux_valid = true;
    }

    /// Performs the queued changes, forgets the drop records, ends the
    /// failure-atomic section and releases the lock.
    pub fn perform(&mut self, mem: &mut PMem)
        requires
            old(self).inv(old(mem)@),
        ensures
            forall|p: int|
                0 <= p < old(mem)@.len() && !(old(self).meta_off() <= p < old(self).meta_off() + 512) && !is_free(
                    old(self).free_lists(),
                    p,
                ) && !is_free(final(self).pending_lists(), p) && !covers(old(self).word_log(), p)
                    ==> #[trigger] final(mem)@[p] == old(mem)@[p],
            final(mem)@.len() == old(mem)@.len(),
            forall|p: int|
                0 <= p < old(mem)@.len() && !old(self).owns(p) && !covers(old(self).word_log(), p)
                    ==> #[trigger] final(mem)@[p] == old(mem)@[p],
            final(self).inv(final(mem)@),
            final(mem)@ == apply_writes(apply_writes(old(mem)@, old(self).redo_log()), old(self).word_log()),
            final(self).free_lists() == old(self).pending_lists(),
            final(self).pending_lists() == old(self).pending_lists(),
            final(self).redo_log() == Seq::<(u64, u64)>::empty(),
            final(self).word_log() == Seq::<(u64, u64)>::empty(),
            final(self).drop_records() == Seq::<(u64, usize)>::empty(),
            final(self).spec_available() == old(self).spec_available_log(),
            final(self).spec_available_log() == old(self).spec_available_log(),
            !final(self).in_operation(),
            final(self).lock_word() == 0,
            final(self).meta_off() == old(self).meta_off(),
            final(self).zone_base() == old(self).zone_base(),
            final(self).zone_size() == old(self).zone_size(),
            final(self).last_order() == old(self).last_order(),
    {
        proof {
            self.lemma_inv_recoverable(mem@);
            self.lemma_redo_owned(mem@);
            self.lemma_redo_free(mem@);
        }
        self.drain_aux(mem);
        self.drop_log.clear();
        self.aux_valid = false;
        self.unlock();
    }

    /// The queued free-list stores followed by the queued word stores, in
    /// the order in which `perform` makes them.
    pub fn queued_writes(&self, mem: &PMem) -> (r: Vec<(u64, u64)>)
        requires
            self.inv(mem@),
        ensures
            r@ == self.redo_log() + self.word_log(),
            r@.len() < 136,
    {
        proof {
            self.lemma_inv(mem@);
        }
        let mut r = self.aux.foreach();
        let words = self.log64.foreach();
        let ghost r0 = r@;
        let mut i: usize = 0;
        while i < words.len()
            invariant
                i <= words@.len(),
                r@ == r0 + words@.take(i as int),
            decreases words@.len() - i,
        {
            r.push(words[i]);
            i = i + 1;
            proof {
                assert(r@ =~= r0 + words@.take(i as int));
            }
        }
        proof {
            assert(words@.take(i as int) =~= words@);
        }
        r
    }

    /// Drops the queued changes and drop records and releases the lock.
    pub fn discard(&mut self, mem: &PMem)
        requires
            old(self).core_inv(mem@),
        ensures
            final(self).core_inv(mem@),
            old(self).inv(mem@) && old(self).redo_log().len() == 0 ==> final(self).inv(mem@),
            final(self).redo_log() == Seq::<(u64, u64)>::empty(),
            final(self).word_log() == Seq::<(u64, u64)>::empty(),
            final(self).drop_records() == Seq::<(u64, usize)>::empty(),
            final(self).free_lists() == old(self).free_lists(),
            final(self).pending_lists() == old(self).free_lists(),
            final(self).spec_available() == old(self).spec_available(),
            final(self).spec_available_log() == old(self).spec_available_log(),
            final(self).in_operation() == old(self).in_operation(),
            final(self).lock_word() == 0,
            final(self).meta_off() == old(self).meta_off(),
            final(self).zone_base() == old(self).zone_base(),
            final(self).zone_size() == old(self).zone_size(),
            final(self).last_order() == old(self).last_order(),
    {
        self.aux.clear();
        self.log64.clear();
        self.drop_log.clear();
        self.unlock();
        proof {
            self.pending = Ghost(self.lists@);
            assert(apply_writes(mem@, self.aux@) == mem@);
        }
    }

    /// Size of the zone in bytes.
    pub fn size(&self) -> (r: usize)
        ensures
            r == self.zone_size(),
    {
        self.size
    }

    /// Free bytes in the zone.
    pub fn available(&self) -> (r: usize)
        ensures
            r == self.spec_available(),
    {
        self.available
    }

    /// Bytes of the zone in use.
    pub fn used(&self, mem: &PMem) -> (r: usize)
        requires
            self.core_inv(mem@),
        ensures
            r == self.zone_size() - self.spec_available(),
    {
        proof {
            lemma_total_le_size(self.lists@, self.base@, self.size as int, self.last_idx as int);
        }
        self.size - self.available
    }
}

/// The order of the smallest block that holds `x` bytes.
pub open spec fn order_for(x: int) -> int {
    choose|k: int| order_of(x, k)
}

/// A size has one order.
pub proof fn lemma_order_for(x: int, k: int)
    requires
        order_of(x, k),
    ensures
        order_for(x) == k,
{
    let k2 = order_for(x);
    assert(order_of(x, k2));
    if k2 < k {
        if k2 < k - 1 {
            lemma_pow2_strictly_increases(k2 as nat, (k - 1) as nat);
        }
    } else if k < k2 {
        if k < k2 - 1 {
            lemma_pow2_strictly_increases(k as nat, (k2 - 1) as nat);
        }
    }
}

impl BuddyAlg {
    /// Takes a free block that holds `len` bytes: the first block of the
    /// lowest order from `order_for(len)` up that has one, split down to that
    /// order. Returns its offset, or the null offset when the zone has fewer
    /// free bytes than the block size or no such block. The changes are queued
    /// and, with `perform`, also performed.
    pub fn alloc_impl(&mut self, mem: &mut PMem, len: usize, perform: bool) -> (r: u64)
        requires
            old(self).core_inv(old(mem)@),
            old(self).redo_log().len() == 0,
            0 < len <= 0x8000_0000_0000_0000u64,
        ensures
            forall|p: int|
                0 <= p < old(mem)@.len() && !(old(self).meta_off() <= p < old(self).meta_off() + 512) && !is_free(
                    old(self).free_lists(),
                    p,
                ) && !is_free(final(self).pending_lists(), p) && !covers(old(self).word_log(), p)
                    ==> #[trigger] final(mem)@[p] == old(mem)@[p],
            final(mem)@.len() == old(mem)@.len(),
            forall|p: int|
                0 <= p < old(mem)@.len() && !old(self).owns(p) && !covers(old(self).word_log(), p)
                    ==> #[trigger] final(mem)@[p] == old(mem)@[p],
            ({
                let k = order_for(len as int);
                let ls = old(self).free_lists();
                let j = lowest_fit(ls, k, old(self).last_order());
                &&& 3 <= k <= 63
                &&& final(self).core_inv(final(mem)@)
                &&& r != NONE_OFF || old(self).inv(old(mem)@) ==> final(self).inv(final(mem)@)
                &&& (r == NONE_OFF <==> blk(k) > old(self).spec_available() || j == -1)
                &&& r == NONE_OFF ==> {
                    &&& final(mem)@ == old(mem)@
                    &&& final(self).free_lists() == ls
                    &&& final(self).pending_lists() == ls
                    &&& final(self).redo_log().len() == 0
                    &&& final(self).word_log().len() == 0
                    &&& final(self).drop_records().len() == 0
                    &&& final(self).spec_available() == old(self).spec_available()
                    &&& final(self).lock_word() == 0
                }
                &&& r != NONE_OFF ==> {
                    &&& r == ls[j][0]
                    &&& in_zone(r as int, k, old(self).zone_base(), old(self).zone_size())
                    &&& final(self).pending_lists() == split_lists(ls, r, k, j)
                    &&& forall|p: int| #[trigger] is_free(final(self).pending_lists(), p) <==> is_free(ls, p) && !(r <= p < r + blk(k))
                    &&& final(self).spec_available_log() == old(self).spec_available() - blk(k)
                    &&& perform ==> {
                        &&& final(self).free_lists() == final(self).pending_lists()
                        &&& final(self).spec_available() == final(self).spec_available_log()
                        &&& final(self).redo_log().len() == 0
                        &&& final(self).word_log().len() == 0
                        &&& final(self).drop_records().len() == 0
                        &&& !final(self).in_operation()
                        &&& final(self).lock_word() == 0
                    }
                    &&& !perform ==> {
                        &&& final(mem)@ == old(mem)@
                        &&& final(self).free_lists() == ls
                        &&& final(self).spec_available() == old(self).spec_available()
                        &&& final(self).redo_log().len() > 0
                        &&& final(self).word_log() == old(self).word_log()
                        &&& final(self).drop_records() == old(self).drop_records()
                        &&& final(self).in_operation() == old(self).in_operation()
                        &&& final(self).lock_word() == 1
                    }
                }
            }),
            final(self).meta_off() == old(self).meta_off(),
            final(self).zone_base() == old(self).zone_base(),
            final(self).zone_size() == old(self).zone_size(),
            final(self).last_order() == old(self).last_order(),
    {
        self.lock();
        let idx = get_idx(len);
        proof {
            lemma_order_for(len as int, idx as int);
            lemma_blk(idx as int);
            if idx == 64 {
                lemma_blk(63);
                assert(false);
            }
            lemma_u64_shl_is_mul(1, idx as u64);
        }
        let len2: u64 = 1u64 << (idx as u64);
        if len2 > self.available as u64 {
            self.discard(mem);
            return NONE_OFF;
        }
        let ghost ls = self.lists@;
        match self.find_free_memory(mem, idx, false) {
            Some(off) => {
                let ghost j = lowest_fit(ls, idx as int, self.last_idx as int);
                proof {
                    lemma_lowest_fit(ls, idx as int, self.last_idx as int);
                    lemma_split_total(ls, off, idx as int, j);
                    lemma_split_ok(ls, off, idx as int, j, self.base@, self.size as int, self.last_idx as int);
                    assert(in_zone(off as int, j, self.base@, self.size as int));
                    if idx < j {
                        lemma_pow2_strictly_increases(idx as nat, j as nat);
                    }
                }
                self.available_log = self.available - (len2 as usize);
                if perform {
                    self.perform(mem);
                }
                off
            },
            None => {
                self.discard(mem);
                NONE_OFF
            },
        }
    }
}

/// Bytes of the first `n` blocks of a list of order `k`.
pub open spec fn list_bytes(l: Seq<u64>, k: int, n: int) -> Set<int>
    decreases n,
{
    if n <= 0 {
        Set::empty()
    } else {
        list_bytes(l, k, n - 1) + set_int_range(l[n - 1] as int, l[n - 1] + blk(k))
    }
}

/// Bytes of the blocks of the lists of orders below `n`.
pub open spec fn lists_bytes(ls: Seq<Seq<u64>>, n: int) -> Set<int>
    decreases n,
{
    if n <= 0 {
        Set::empty()
    } else {
        lists_bytes(ls, n - 1) + list_bytes(ls[n - 1], n - 1, ls[n - 1].len() as int)
    }
}

proof fn lemma_list_bytes(l: Seq<u64>, k: int, n: int)
    requires
        0 <= n <= l.len(),
        0 <= k < 64,
        forall|i: int, j: int| 0 <= i < l.len() && 0 <= j < l.len() && i != j ==> apart(#[trigger] l[i] as int, k, #[trigger] l[j] as int, k),
    ensures
        list_bytes(l, k, n).finite(),
        list_bytes(l, k, n).len() == n * blk(k),
        forall|p: int| #[trigger] list_bytes(l, k, n).contains(p) <==> exists|i: int| 0 <= i < n && #[trigger] l[i] <= p < l[i] + blk(k),
    decreases n,
{
    lemma_pow2_pos(k as nat);
    if n > 0 {
        lemma_list_bytes(l, k, n - 1);
        let a = list_bytes(l, k, n - 1);
        let b = set_int_range(l[n - 1] as int, l[n - 1] + blk(k));
        lemma_int_range(l[n - 1] as int, l[n - 1] + blk(k));
        assert(a.disjoint(b)) by {
            assert forall|p: int| a.contains(p) implies !b.contains(p) by {
                let i = choose|i: int| 0 <= i < n - 1 && #[trigger] l[i] <= p < l[i] + blk(k);
                assert(apart(l[i] as int, k, l[n - 1] as int, k));
            }
        }
        lemma_set_disjoint_lens(a, b);
        assert((n - 1) * blk(k) + blk(k) == n * blk(k)) by (nonlinear_arith);
        assert forall|p: int| #[trigger] list_bytes(l, k, n).contains(p) <==> exists|i: int| 0 <= i < n && #[trigger] l[i] <= p < l[i] + blk(k) by {
            if b.contains(p) {
                assert(0 <= n - 1 < n && l[n - 1] <= p < l[n - 1] + blk(k));
            }
            if exists|i: int| 0 <= i < n && #[trigger] l[i] <= p < l[i] + blk(k) {
                let i = choose|i: int| 0 <= i < n && #[trigger] l[i] <= p < l[i] + blk(k);
                if i < n - 1 {
                    assert(a.contains(p));
                } else {
                    assert(b.contains(p));
                }
            }
        }
    }
}

proof fn lemma_lists_bytes(ls: Seq<Seq<u64>>, n: int)
    requires
        ls.len() == 64,
        0 <= n <= 64,
        lists_disjoint(ls),
    ensures
        lists_bytes(ls, n).finite(),
        lists_bytes(ls, n).len() == total_upto(ls, n),
        forall|p: int| #[trigger] lists_bytes(ls, n).contains(p) <==> exists|k: int, i: int|
            0 <= k < n && 0 <= i < ls[k].len() && #[trigger] ls[k][i] <= p < ls[k][i] + blk(k),
    decreases n,
{
    if n > 0 {
        lemma_lists_bytes(ls, n - 1);
        let l = ls[n - 1];
        assert forall|i: int, j: int| 0 <= i < l.len() && 0 <= j < l.len() && i != j implies apart(
            #[trigger] l[i] as int,
            n - 1,
            #[trigger] l[j] as int,
            n - 1,
        ) by {
            assert(apart(ls[n - 1][i] as int, n - 1, ls[n - 1][j] as int, n - 1));
        }
        lemma_list_bytes(l, n - 1, l.len() as int);
        let a = lists_bytes(ls, n - 1);
        let b = list_bytes(l, n - 1, l.len() as int);
        assert(a.disjoint(b)) by {
            assert forall|p: int| a.contains(p) implies !b.contains(p) by {
                let (k, i) = choose|k: int, i: int| 0 <= k < n - 1 && 0 <= i < ls[k].len() && #[trigger] ls[k][i] <= p < ls[k][i] + blk(k);
                if b.contains(p) {
                    let j = choose|j: int| 0 <= j < l.len() && #[trigger] l[j] <= p < l[j] + blk(n - 1);
                    assert(apart(ls[k][i] as int, k, ls[n - 1][j] as int, n - 1));
                }
            }
        }
        lemma_set_disjoint_lens(a, b);
        assert forall|p: int| #[trigger] lists_bytes(ls, n).contains(p) <==> exists|k: int, i: int|
            0 <= k < n && 0 <= i < ls[k].len() && #[trigger] ls[k][i] <= p < ls[k][i] + blk(k) by {
            if b.contains(p) {
                let j = choose|j: int| 0 <= j < l.len() && #[trigger] l[j] <= p < l[j] + blk(n - 1);
                assert(0 <= n - 1 < n && 0 <= j < ls[n - 1].len() && #[trigger] ls[n - 1][j] <= p < ls[n - 1][j] + blk(n - 1));
            }
            if exists|k: int, i: int| 0 <= k < n && 0 <= i < ls[k].len() && #[trigger] ls[k][i] <= p < ls[k][i] + blk(k) {
                let (k, i) = choose|k: int, i: int| 0 <= k < n && 0 <= i < ls[k].len() && #[trigger] ls[k][i] <= p < ls[k][i] + blk(k);
                if k < n - 1 {
                    assert(a.contains(p));
                } else {
                    assert(b.contains(p));
                }
            }
        }
    }
}

/// Disjoint free blocks inside a zone add up to at most the zone's size.
pub proof fn lemma_total_le_size(ls: Seq<Seq<u64>>, base: int, size: int, last: int)
    requires
        lists_shape(ls, base, size, last),
        lists_disjoint(ls),
        0 <= size,
    ensures
        0 <= total(ls) <= size,
{
    lemma_lists_bytes(ls, 64);
    let f = lists_bytes(ls, 64);
    lemma_int_range(base, base + size);
    assert(f.subset_of(set_int_range(base, base + size))) by {
        assert forall|p: int| f.contains(p) implies set_int_range(base, base + size).contains(p) by {
            let (k, i) = choose|k: int, i: int| 0 <= k < 64 && 0 <= i < ls[k].len() && #[trigger] ls[k][i] <= p < ls[k][i] + blk(k);
            assert(in_zone(ls[k][i] as int, k, base, size));
        }
    }
    lemma_len_subset(f, set_int_range(base, base + size));
}
} // verus!

verus! {

impl BuddyAlg {
    /// Walks free list `idx` in offset order looking for the buddy of the
    /// block at `off`, stopping at the first block past `off`. Returns the
    /// block before the stopping point, the buddy if it was met, and (as a
    /// ghost) the position where the walk stopped.
    fn walk(&self, mem: &PMem, off: u64, idx: usize) -> (r: (Option<u64>, Option<u64>, Ghost<int>))
        requires
            self.inv(mem@),
            3 <= idx < self.last_idx,
            in_zone(off as int, idx as int, self.base@, self.size as int),
            fresh(self.pending@, off as int, idx as int),
            self.pending@[idx as int] == self.lists@[idx as int],
        ensures
            ({
                let (prev, found, gi) = r;
                let l = self.pending@[idx as int];
                let i = gi@;
                let bud = buddy_of(off, idx as int);
                &&& 0 <= i <= l.len()
                &&& prev == if i == 0 {
                    None::<u64>
                } else {
                    Some(l[i - 1])
                }
                &&& forall|t: int| 0 <= t < i ==> #[trigger] l[t] < off
                &&& found matches Some(b) ==> i < l.len() && l[i] == b && b == bud
                &&& found is None ==> (i < l.len() ==> l[i] > off)
                &&& found is None ==> (0 <= bud <= u64::MAX ==> !l.contains(bud as u64))
            }),
    {
        let ghost ls = self.lists@;
        let ghost meta = self.meta as int;
        let ghost k = idx as int;
        let ghost l = ls[k];
        let ghost bud = buddy_of(off, k);
        proof {
            lemma_nodes_ok(ls, mem@.len() as int, meta, self.base@, self.size as int, self.last_idx as int);
            assert(list_stored(mem@, meta, k, l));
            assert(sorted(l));
            lemma_blk(k);
            lemma_u64_shl_is_mul(1, idx as u64);
            assert forall|t: int| 0 <= t < l.len() implies (#[trigger] l[t]) + blk(k) <= u64::MAX && l[t] + 8 <= mem@.len()
                && apart(off as int, k, l[t] as int, k) by {
                assert(in_zone(ls[k][t] as int, k, self.base@, self.size as int));
                assert(apart(off as int, k, self.pending@[k][t] as int, k));
            }
        }
        let len: u64 = 1u64 << (idx as u64);
        let end: u64 = off + len;
        let on_left = off & len == 0;
        let hs: u64 = self.meta + 8 * (idx as u64);
        let mut curr: u64 = mem.read_u64(hs);
        let mut prev: Option<u64> = None;
        let ghost mut i: int = 0;
        loop
            invariant
                0 <= i <= l.len(),
                l == self.pending@[k],
                sorted(l),
                list_stored(mem@, meta, k, l),
                len == blk(k),
                blk(k) >= 8,
                end == off + len,
                on_left == (off & (1u64 << (k as u64)) == 0),
                k == idx,
                bud == buddy_of(off, k),
                forall|t: int| 0 <= t < l.len() ==> (#[trigger] l[t]) + blk(k) <= u64::MAX && l[t] + 8 <= mem@.len()
                    && apart(off as int, k, l[t] as int, k),
                curr == if i < l.len() {
                    l[i]
                } else {
                    NONE_OFF
                },
                prev == if i == 0 {
                    None::<u64>
                } else {
                    Some(l[i - 1])
                },
                forall|t: int| 0 <= t < i ==> #[trigger] l[t] < off && l[t] != bud,
            decreases l.len() - i,
        {
            match off_to_option(curr) {
                None => {
                    proof {
                        if i < l.len() {
                            assert(l[i] + blk(k) <= u64::MAX);
                        }
                        assert(i == l.len());
                        assert(0 <= bud <= u64::MAX ==> !l.contains(bud as u64)) by {
                            if 0 <= bud <= u64::MAX && l.contains(bud as u64) {
                                let t = choose|t: int| 0 <= t < l.len() && l[t] == bud as u64;
                                assert(l[t] != bud);
                            }
                        }
                    }
                    return (prev, None, Ghost(i));
                },
                Some(b) => {
                    proof {
                        if i >= l.len() {
                            assert(curr == NONE_OFF);
                        }
                    }
                    let nx = mem.read_u64(b);
                    if (b == end && on_left) || (b + len == off && !on_left) {
                        return (prev, Some(b), Ghost(i));
                    }
                    if b > off {
                        proof {
                            assert(l[i] != bud);
                            assert(apart(off as int, k, l[i] as int, k));
                            assert(l[i] > bud);
                            assert(0 <= bud <= u64::MAX ==> !l.contains(bud as u64)) by {
                                if 0 <= bud <= u64::MAX && l.contains(bud as u64) {
                                    let t = choose|t: int| 0 <= t < l.len() && l[t] == bud as u64;
                                    if t > i {
                                        assert(l[i] < l[t]);
                                    } else if t < i {
                                        assert(l[t] != bud);
                                    }
                                }
                            }
                        }
                        return (prev, None, Ghost(i));
                    }
                    proof {
                        assert(apart(off as int, k, l[i] as int, k));
                        assert(l[i] != bud);
                    }
                    prev = Some(b);
                    curr = nx;
                    proof {
                        i = i + 1;
                    }
                },
            }
        }
    }
}

} // verus!

verus! {

impl BuddyAlg {
    /// Queues the unlinking of block `b` (position `i` of list `idx`, after
    /// `prev`), the buddy of the block at `off`, and returns the offset of the
    /// merged block.
    fn unlink_buddy(&mut self, mem: &PMem, off: u64, idx: usize, prev: Option<u64>, b: u64, gi: Ghost<int>) -> (m: u64)
        requires
            old(self).inv(mem@),
            3 <= idx < old(self).last_idx,
            in_zone(off as int, idx as int, old(self).base@, old(self).size as int),
            fresh(old(self).pending@, off as int, idx as int),
            old(self).pending@[idx as int] == old(self).lists@[idx as int],
            forall|j: int|
                0 <= j < old(self).log64@.len() ==> (#[trigger] old(self).log64@[j]).0 + 8 <= off || off + blk(
                    idx as int,
                ) <= old(self).log64@[j].0,
            old(self).aux@.len() + 1 < 128,
            ({
                let l = old(self).pending@[idx as int];
                let i = gi@;
                &&& 0 <= i < l.len()
                &&& prev == if i == 0 {
                    None::<u64>
                } else {
                    Some(l[i - 1])
                }
                &&& l[i] == b
                &&& b == buddy_of(off, idx as int)
            }),
        ensures
            ({
                let k = idx as int;
                let ps = old(self).pending@;
                let ps1 = ps.update(k, ps[k].remove(gi@));
                &&& final(self).inv(mem@)
                &&& final(self).pending@ == ps1
                &&& m == if b < off { b } else { off }
                &&& in_zone(m as int, k + 1, final(self).base@, final(self).size as int)
                &&& fresh(ps1, m as int, k + 1)
                &&& blk(k + 1) == 2 * blk(k)
                &&& forall|p: int| #[trigger] is_free(ps1, p) <==> is_free(ps, p) && !(b <= p < b + blk(k))
                &&& forall|j: int|
                    0 <= j < final(self).log64@.len() ==> (#[trigger] final(self).log64@[j]).0 + 8 <= m || m + blk(
                        k + 1,
                    ) <= final(self).log64@[j].0
                &&& final(self).available_log == old(self).available_log - blk(k)
                &&& final(self).aux@.len() == old(self).aux@.len() + 1
            }),
            final(self).lists == old(self).lists,
            final(self).meta == old(self).meta,
            final(self).base == old(self).base,
            final(self).size == old(self).size,
            final(self).last_idx == old(self).last_idx,
            final(self).available == old(self).available,
            final(self).log64 == old(self).log64,
            final(self).drop_log == old(self).drop_log,
            final(self).aux_valid == old(self).aux_valid,
            final(self).mutex == old(self).mutex,
    {
        let ghost ls = self.lists@;
        let ghost ps = self.pending@;
        let ghost meta = self.meta as int;
        let ghost last = self.last_idx as int;
        let ghost base = self.base@;
        let ghost size = self.size as int;
        let ghost k = idx as int;
        let ghost l = ps[k];
        let ghost i = gi@;
        let ghost pm = apply_writes(mem@, self.aux@);
        let ghost aux0 = self.aux@;
        proof {
            lemma_nodes_ok(ls, mem@.len() as int, meta, base, size, last);
            lemma_nodes_ok(ps, mem@.len() as int, meta, base, size, last);
            lemma_apply_writes(mem@, self.aux@);
            assert(list_stored(mem@, meta, k, ls[k]));
            lemma_blk(k);
            lemma_u64_shl_is_mul(1, idx as u64);
            assert forall|kk: int| 0 <= kk < 3 implies #[trigger] ps[kk].len() == 0 by {}
            assert(in_zone(l[i] as int, k, base, size));
        }
        let len: u64 = 1u64 << (idx as u64);
        let hs: u64 = self.meta + 8 * (idx as u64);
        let nx = mem.read_u64(b);
        match prev {
            Some(pv) => {
                self.aux.push((pv, nx));
            },
            None => {
                self.aux.push((hs, nx));
            },
        }
        let ghost ps1 = ps.update(k, l.remove(i));
        proof {
            assert(self.aux@.drop_last() =~= aux0);
            lemma_step_unlink(pm, meta, ps, k, i);
            lemma_remove_ok(ps, k, i, base, size, last);
            lemma_merge_ok(ps, k, i, off, base, size, last);
            lemma_total_le_size(ps1, base, size, last);
        }
        self.available_log = self.available_log - (len as usize);
        let m: u64 = if b < off {
            b
        } else {
            off
        };
        proof {
            self.pending = Ghost(ps1);
            assert forall|q: int| 0 <= q < self.aux@.len() implies #[trigger] self.aux@[q].0 + 8 <= mem@.len() by {
                if q < aux0.len() {
                    assert(self.aux@[q] == aux0[q]);
                }
            }
            assert forall|q: int| 0 <= q < self.aux@.len() implies in_area(#[trigger] self.aux@[q].0 as int, meta, base, size) by {
                if q < aux0.len() {
                    assert(self.aux@[q] == aux0[q]);
                } else if i > 0 {
                    assert(in_zone(l[i - 1] as int, k, base, size));
                }
            }
            assert forall|kk: int, ii: int| 0 <= kk < 64 && 0 <= ii < ps[kk].len() implies is_header(#[trigger] ps[kk][ii] as int, ps1)
                || is_header(ps[kk][ii] as int, ls) by {
                if kk == k && ii == i {
                    assert(ls[k][i] == ps[k][i]);
                } else if kk == k && ii > i {
                    assert(ps1[kk][ii - 1] == ps[kk][ii]);
                } else {
                    assert(ps1[kk][ii] == ps[kk][ii]);
                }
            }
            lemma_targets_step(aux0, meta, ls, ps, ps1);
            if i > 0 {
                assert(ps1[k][i - 1] == l[i - 1]);
            }
            assert forall|q: int| 0 <= q < self.aux@.len() implies target_ok(#[trigger] self.aux@[q].0 as int, meta, ls, ps1) by {
                if q < aux0.len() {
                    assert(self.aux@[q] == aux0[q]);
                }
            }
            assert forall|q: int| 0 <= q < self.log64@.len() implies word_avoids(
                #[trigger] self.log64@[q].0 as int,
                meta,
                self.pending@,
            ) by {
                assert(word_avoids(self.log64@[q].0 as int, meta, ps));
                assert forall|k2: int, i2: int| 0 <= k2 < 64 && 0 <= i2 < ps1[k2].len() implies self.log64@[q].0 + 8
                    <= #[trigger] ps1[k2][i2] || ps1[k2][i2] + blk(k2) <= self.log64@[q].0 by {
                    let o = if k2 == k && i2 >= i {
                        i2 + 1
                    } else {
                        i2
                    };
                    assert(ps1[k2][i2] == ps[k2][o]);
                }
            }
            assert forall|q: int| 0 <= q < self.log64@.len() implies (#[trigger] self.log64@[q]).0 + 8 <= m || m + blk(
                k + 1,
            ) <= self.log64@[q].0 by {
                assert(word_avoids(self.log64@[q].0 as int, meta, ps));
                assert(self.log64@[q].0 + 8 <= ps[k][i] || ps[k][i] + blk(k) <= self.log64@[q].0);
            }
        }
        m
    }

    /// Queues the linking of the block of order `idx` at `off` into its list
    /// at position `i`, after `prev`.
    fn link_block(&mut self, mem: &PMem, off: u64, idx: usize, prev: Option<u64>, gi: Ghost<int>)
        requires
            old(self).inv(mem@),
            3 <= idx <= old(self).last_idx,
            in_zone(off as int, idx as int, old(self).base@, old(self).size as int),
            fresh(old(self).pending@, off as int, idx as int),
            old(self).pending@[idx as int] == old(self).lists@[idx as int],
            forall|j: int|
                0 <= j < old(self).log64@.len() ==> (#[trigger] old(self).log64@[j]).0 + 8 <= off || off + blk(
                    idx as int,
                ) <= old(self).log64@[j].0,
            old(self).aux@.len() + 2 < 128,
            ({
                let l = old(self).pending@[idx as int];
                let i = gi@;
                &&& 0 <= i <= l.len()
                &&& prev == if i == 0 {
                    None::<u64>
                } else {
                    Some(l[i - 1])
                }
                &&& forall|t: int| 0 <= t < i ==> #[trigger] l[t] < off
                &&& i < l.len() ==> l[i] > off
            }),
        ensures
            ({
                let k = idx as int;
                let ps = old(self).pending@;
                &&& final(self).inv(mem@)
                &&& final(self).pending@ == ps.update(k, ps[k].insert(lt_count(ps[k], off as int), off))
                &&& forall|p: int| #[trigger]
                    is_free(final(self).pending@, p) <==> is_free(ps, p) || (off <= p < off + blk(k))
                &&& final(self).available_log == old(self).available_log + blk(k)
                &&& final(self).aux@.len() == old(self).aux@.len() + 2
            }),
            final(self).lists == old(self).lists,
            final(self).meta == old(self).meta,
            final(self).base == old(self).base,
            final(self).size == old(self).size,
            final(self).last_idx == old(self).last_idx,
            final(self).available == old(self).available,
            final(self).log64 == old(self).log64,
            final(self).drop_log == old(self).drop_log,
            final(self).aux_valid == old(self).aux_valid,
            final(self).mutex == old(self).mutex,
    {
        let ghost ls = self.lists@;
        let ghost ps = self.pending@;
        let ghost meta = self.meta as int;
        let ghost last = self.last_idx as int;
        let ghost base = self.base@;
        let ghost size = self.size as int;
        let ghost k = idx as int;
        let ghost l = ps[k];
        let ghost i = gi@;
        let ghost pm = apply_writes(mem@, self.aux@);
        let ghost aux0 = self.aux@;
        proof {
            lemma_nodes_ok(ls, mem@.len() as int, meta, base, size, last);
            lemma_nodes_ok(ps, mem@.len() as int, meta, base, size, last);
            lemma_apply_writes(mem@, self.aux@);
            assert(list_stored(mem@, meta, k, ls[k]));
            assert(sorted(l));
            lemma_blk(k);
            lemma_u64_shl_is_mul(1, idx as u64);
            assert forall|kk: int| 0 <= kk < 3 implies #[trigger] ps[kk].len() == 0 by {}
        }
        let len: u64 = 1u64 << (idx as u64);
        let hs: u64 = self.meta + 8 * (idx as u64);
        let ghost succ = if i < l.len() {
            l[i]
        } else {
            NONE_OFF
        };
        let ghost wa = if i == 0 {
            head_slot(meta, k)
        } else {
            l[i - 1] as int
        };
        match prev {
            Some(pv) => {
                proof {
                    assert(in_zone(l[i - 1] as int, k, base, size));
                }
                let pn = mem.read_u64(pv);
                assert(pn == succ);
                self.aux.push((off, pn));
                self.aux.push((pv, off));
            },
            None => {
                let hn = mem.read_u64(hs);
                assert(hn == succ);
                self.aux.push((off, hn));
                self.aux.push((hs, off));
            },
        }
        let ghost ps2 = ps.update(k, l.insert(i, off));
        proof {
            lemma_lt_count(l, off as int, i);
            lemma_insert_ok(ps, k, off, base, size, last);
            lemma_total_le_size(ps2, base, size, last);
            assert forall|k2: int, i2: int| 0 <= k2 < 64 && 0 <= i2 < ps[k2].len() implies apart8(
                off as int,
                #[trigger] ps[k2][i2] as int,
            ) by {
                assert(apart(off as int, k, ps[k2][i2] as int, k2));
                assert(k2 >= 3) by {
                    if k2 < 3 {
                        assert(ps[k2].len() == 0);
                    }
                }
                lemma_blk(k2);
            }
            lemma_step_insert(pm, meta, ps, k, i, off);
            let aux1 = aux0.push((off, succ));
            assert(self.aux@.drop_last() =~= aux1);
            assert(aux1.drop_last() =~= aux0);
            assert(self.aux@.last() == (wa as u64, off));
            assert(apply_writes(mem@, aux1) == wr(pm, off as int, succ));
        }
        self.available_log = self.available_log + (len as usize);
        proof {
            self.pending = Ghost(ps2);
            assert forall|q: int| 0 <= q < self.aux@.len() implies #[trigger] self.aux@[q].0 + 8 <= mem@.len() by {
                if q < aux0.len() {
                    assert(self.aux@[q] == aux0[q]);
                }
            }
            assert forall|q: int| 0 <= q < self.aux@.len() implies in_area(#[trigger] self.aux@[q].0 as int, meta, base, size) by {
                if q < aux0.len() {
                    assert(self.aux@[q] == aux0[q]);
                } else if i > 0 {
                    assert(in_zone(l[i - 1] as int, k, base, size));
                }
            }
            assert forall|kk: int, ii: int| 0 <= kk < 64 && 0 <= ii < ps[kk].len() implies is_header(#[trigger] ps[kk][ii] as int, ps2)
                || is_header(ps[kk][ii] as int, ls) by {
                if kk == k && ii >= i {
                    assert(ps2[kk][ii + 1] == ps[kk][ii]);
                } else {
                    assert(ps2[kk][ii] == ps[kk][ii]);
                }
            }
            lemma_targets_step(aux0, meta, ls, ps, ps2);
            assert(ps2[k][i] == off);
            if i > 0 {
                assert(ps2[k][i - 1] == l[i - 1]);
            }
            assert forall|q: int| 0 <= q < self.aux@.len() implies target_ok(#[trigger] self.aux@[q].0 as int, meta, ls, ps2) by {
                if q < aux0.len() {
                    assert(self.aux@[q] == aux0[q]);
                }
            }
            assert forall|q: int| 0 <= q < self.log64@.len() implies word_avoids(
                #[trigger] self.log64@[q].0 as int,
                meta,
                self.pending@,
            ) by {
                assert(word_avoids(self.log64@[q].0 as int, meta, ps));
                assert forall|k2: int, i2: int| 0 <= k2 < 64 && 0 <= i2 < ps2[k2].len() implies self.log64@[q].0 + 8
                    <= #[trigger] ps2[k2][i2] || ps2[k2][i2] + blk(k2) <= self.log64@[q].0 by {
                    if !(k2 == k && i2 == i) {
                        let o = if k2 == k && i2 > i {
                            i2 - 1
                        } else {
                            i2
                        };
                        assert(ps2[k2][i2] == ps[k2][o]);
                    }
                }
            }
        }
    }

    /// Queues the changes that return the block of order `idx` at `off` to
    /// the free lists: while its buddy is free and the order is below the
    /// largest, the buddy is unlinked and the two merge into a block of the
    /// next order; the final block is linked into its list in offset order.
    fn free_impl(&mut self, mem: &PMem, off: u64, idx: usize)
        requires
            old(self).inv(mem@),
            3 <= idx <= old(self).last_idx,
            in_zone(off as int, idx as int, old(self).base@, old(self).size as int),
            fresh(old(self).pending@, off as int, idx as int),
            forall|m: int| idx <= m < 64 ==> #[trigger] old(self).pending@[m] == old(self).lists@[m],
            forall|j: int|
                0 <= j < old(self).log64@.len() ==> (#[trigger] old(self).log64@[j]).0 + 8 <= off || off + blk(
                    idx as int,
                ) <= old(self).log64@[j].0,
            old(self).aux@.len() + (old(self).last_idx - idx) + 2 < 128,
        ensures
            final(self).inv(mem@),
            final(self).pending@ == freed_lists(old(self).pending@, off, idx as int, old(self).last_idx as int),
            forall|p: int| #[trigger]
                is_free(final(self).pending@, p) <==> is_free(old(self).pending@, p) || (off <= p < off + blk(
                    idx as int,
                )),
            final(self).available_log == old(self).available_log + blk(idx as int),
            old(self).aux@.len() < final(self).aux@.len() <= old(self).aux@.len() + (old(self).last_idx - idx) + 2,
            final(self).lists == old(self).lists,
            final(self).meta == old(self).meta,
            final(self).base == old(self).base,
            final(self).size == old(self).size,
            final(self).last_idx == old(self).last_idx,
            final(self).available == old(self).available,
            final(self).log64 == old(self).log64,
            final(self).drop_log == old(self).drop_log,
            final(self).aux_valid == old(self).aux_valid,
            final(self).mutex == old(self).mutex,
        decreases old(self).last_idx - idx,
    {
        let ghost ps = self.pending@;
        let ghost last = self.last_idx as int;
        let ghost k = idx as int;
        let ghost l = ps[k];
        let mut prev: Option<u64> = None;
        let mut i: Ghost<int> = Ghost(0);
        if idx < self.last_idx {
            let (p, found, gi) = self.walk(mem, off, idx);
            prev = p;
            i = gi;
            if let Some(b) = found {
                let m = self.unlink_buddy(mem, off, idx, prev, b, gi);
                proof {
                    let ps1 = ps.update(k, l.remove(gi@));
                    assert(l.contains(b));
                    assert(sorted(l)) by {
                        assert(lists_shape(ps, self.base@, self.size as int, last));
                    }
                    assert forall|t: int| 0 <= t < gi@ implies #[trigger] l[t] < b as int by {}
                    lemma_lt_count(l, b as int, gi@);
                    assert(freed_lists(ps, off, k, last) == freed_lists(ps1, m, k + 1, last));
                }
                self.free_impl(mem, m, idx + 1);
                proof {
                    lemma_blk(k);
                    assert forall|p: int| #[trigger]
                        is_free(self.pending@, p) <==> is_free(ps, p) || (off <= p < off + blk(k)) by {
                        if b <= p < b + blk(k) {
                            assert(ps[k][gi@] <= p < ps[k][gi@] + blk(k) && ps[k][gi@] == ps[k][gi@]);
                        }
                    }
                }
                return;
            }
        } else {
            proof {
                lemma_blk(k);
                if l.len() > 0 {
                    assert(lists_shape(ps, self.base@, self.size as int, last));
                    assert(in_zone(l[0] as int, k, self.base@, self.size as int));
                    assert(apart(off as int, k, ps[k][0] as int, k));
                }
            }
        }
        self.link_block(mem, off, idx, prev, i);
    }
}

} // verus!

verus! {

impl BuddyAlg {
    /// Returns the block at `off` that was allocated for `len` bytes: the
    /// changes that merge it with its free buddies and link it into its list
    /// are queued and, with `perform`, also performed.
    pub fn dealloc_impl(&mut self, mem: &mut PMem, off: u64, len: usize, perform: bool)
        requires
            old(self).core_inv(old(mem)@),
            old(self).redo_log().len() == 0,
            0 < len <= old(self).zone_size(),
            in_zone(off as int, order_for(len as int), old(self).zone_base(), old(self).zone_size()),
            forall|p: int| off <= p < off + blk(order_for(len as int)) ==> !#[trigger] is_free(old(self).free_lists(), p),
            forall|j: int|
                0 <= j < old(self).word_log().len() ==> (#[trigger] old(self).word_log()[j]).0 + 8 <= off || off
                    + blk(order_for(len as int)) <= old(self).word_log()[j].0,
        ensures
            forall|p: int|
                0 <= p < old(mem)@.len() && !(old(self).meta_off() <= p < old(self).meta_off() + 512) && !is_free(
                    old(self).free_lists(),
                    p,
                ) && !is_free(final(self).pending_lists(), p) && !covers(old(self).word_log(), p)
                    ==> #[trigger] final(mem)@[p] == old(mem)@[p],
            final(mem)@.len() == old(mem)@.len(),
            forall|p: int|
                0 <= p < old(mem)@.len() && !old(self).owns(p) && !covers(old(self).word_log(), p)
                    ==> #[trigger] final(mem)@[p] == old(mem)@[p],
            ({
                let k = order_for(len as int);
                let ls = old(self).free_lists();
                &&& 3 <= k <= old(self).last_order()
                &&& final(self).inv(final(mem)@)
                &&& final(self).pending_lists() == freed_lists(ls, off, k, old(self).last_order())
                &&& forall|p: int| #[trigger] is_free(final(self).pending_lists(), p) <==> is_free(ls, p) || (off <= p < off + blk(k))
                &&& final(self).spec_available_log() == old(self).spec_available() + blk(k)
                &&& perform ==> {
                    &&& final(self).free_lists() == final(self).pending_lists()
                    &&& final(self).spec_available() == final(self).spec_available_log()
                    &&& final(self).redo_log().len() == 0
                    &&& final(self).word_log().len() == 0
                    &&& final(self).drop_records().len() == 0
                    &&& !final(self).in_operation()
                    &&& final(self).lock_word() == 0
                }
                &&& !perform ==> {
                    &&& final(mem)@ == old(mem)@
                    &&& final(self).free_lists() == ls
                    &&& final(self).spec_available() == old(self).spec_available()
                    &&& final(self).redo_log().len() > 0
                    &&& final(self).word_log() == old(self).word_log()
                    &&& final(self).drop_records() == old(self).drop_records()
                    &&& final(self).in_operation() == old(self).in_operation()
                    &&& final(self).lock_word() == 1
                }
            }),
            final(self).meta_off() == old(self).meta_off(),
            final(self).zone_base() == old(self).zone_base(),
            final(self).zone_size() == old(self).zone_size(),
            final(self).last_order() == old(self).last_order(),
    {
        self.lock();
        let idx = get_idx(len);
        proof {
            lemma_order_for(len as int, idx as int);
            let last = self.last_idx as int;
            lemma_blk(last);
            if idx > last {
                if idx - 1 > last {
                    lemma_pow2_strictly_increases(last as nat, (idx - 1) as nat);
                }
                assert(false);
            }
            lemma_blk(idx as int);
            assert(self.pending@ == self.lists@);
            assert(order_for(len as int) == idx);
            assert forall|p: int| off <= p < off + blk(idx as int) implies !#[trigger] is_free(self.pending@, p) by {
                assert(!is_free(old(self).free_lists(), p));
            }
            lemma_not_free_fresh(self.pending@, off as int, idx as int);
            assert forall|j: int| 0 <= j < self.log64@.len() implies (#[trigger] self.log64@[j]).0 + 8 <= off || off
                + blk(idx as int) <= self.log64@[j].0 by {
                assert(self.log64@[j] == old(self).word_log()[j]);
            }
        }
        self.available_log = self.available;
        assert(self.inv(mem@));
        self.free_impl(mem, off, idx);
        if perform {
            self.perform(mem);
        }
    }
}

} // verus!

verus! {

/// The lists of a fresh zone: one block of order `last` at `base`.
pub open spec fn initial_lists(base: u64, last: int) -> Seq<Seq<u64>> {
    Seq::new(64, |k: int| if k == last { seq![base] } else { Seq::<u64>::empty() })
}

impl BuddyAlg {
    /// Sets up a zone of the largest power of two bytes that fits in `size`,
    /// starting at `base`, with its 64 list heads at `meta`: every list is
    /// empty but that of the zone's order, which holds the whole zone.
    pub fn init(mem: &mut PMem, meta: u64, base: u64, size: usize) -> (r: Self)
        requires
            8 <= size <= 0x8000_0000_0000_0000u64,
            meta + 512 <= base || base + size <= meta,
            meta + 512 <= old(mem)@.len(),
            base + size <= old(mem)@.len(),
            old(mem)@.len() <= u64::MAX,
        ensures
            r.inv(final(mem)@),
            3 <= r.last_order() < 64,
            blk(r.last_order()) <= size < blk(r.last_order() + 1),
            r.zone_size() == blk(r.last_order()),
            r.zone_base() == base,
            r.meta_off() == meta,
            r.free_lists() == initial_lists(base, r.last_order()),
            r.pending_lists() == r.free_lists(),
            r.spec_available() == r.zone_size(),
            r.redo_log().len() == 0,
            r.word_log().len() == 0,
            r.drop_records().len() == 0,
            !r.in_operation(),
            r.lock_word() == 0,
            final(mem)@.len() == old(mem)@.len(),
            forall|p: int|
                0 <= p < old(mem)@.len() && !(meta <= p < meta + 512) && !(base <= p < base + 8)
                    ==> #[trigger] final(mem)@[p] == old(mem)@[p],
    {
        let mut idx = get_idx(size);
        proof {
            lemma_blk(idx as int);
            if idx == 64 {
                lemma_blk(63);
                assert(false);
            }
            lemma_u64_shl_is_mul(1, idx as u64);
        }
        if (1u64 << (idx as u64)) > size as u64 {
            proof {
                lemma2_to64();
            }
            idx = idx - 1;
        }
        proof {
            lemma_blk(idx as int);
            lemma_blk(idx as int + 1);
            lemma_u64_shl_is_mul(1, idx as u64);
        }
        let sz: u64 = 1u64 << (idx as u64);
        let ghost m0 = mem@;
        let mut k: u64 = 0;
        while k < 64
            invariant
                k <= 64,
                mem@.len() == m0.len(),
                meta + 512 <= mem@.len(),
                mem@.len() <= u64::MAX,
                forall|j: int| 0 <= j < k ==> #[trigger] rd(mem@, head_slot(meta as int, j)) == NONE_OFF,
                forall|p: int| 0 <= p < m0.len() && !(meta <= p < meta + 512) ==> #[trigger] mem@[p] == m0[p],
            decreases 64 - k,
        {
            let ghost before = mem@;
            mem.write_u64(meta + 8 * k, NONE_OFF);
            proof {
                lemma_wr(before, meta + 8 * k, NONE_OFF);
                assert forall|j: int| 0 <= j < k + 1 implies #[trigger] rd(mem@, head_slot(meta as int, j)) == NONE_OFF by {
                    if j < k {
                        lemma_rd_wr_other(before, meta + 8 * k, NONE_OFF, head_slot(meta as int, j));
                    }
                }
            }
            k = k + 1;
        }
        let ghost m1 = mem@;
        mem.write_u64(meta + 8 * (idx as u64), base);
        let ghost m2 = mem@;
        proof {
            lemma_wr(m1, meta + 8 * idx, base);
        }
        mem.write_u64(base, NONE_OFF);
        let ghost ls = initial_lists(base, idx as int);
        proof {
            lemma_wr(m2, base as int, NONE_OFF);
            assert forall|p: int| 0 <= p < m0.len() && !(meta <= p < meta + 512) && !(base <= p < base + 8) implies #[trigger] mem@[p] == m0[p] by {
                assert(m1[p] == m0[p]);
            }
            assert forall|j: int| 0 <= j < 64 implies #[trigger] list_stored(mem@, meta as int, j, ls[j]) by {
                lemma_rd_wr_other(m2, base as int, NONE_OFF, head_slot(meta as int, j));
                if j != idx {
                    lemma_rd_wr_other(m1, meta + 8 * idx, base, head_slot(meta as int, j));
                    assert(ls[j] =~= Seq::<u64>::empty());
                } else {
                    assert(ls[j] =~= seq![base]);
                }
            }
            assert(lists_shape(ls, base as int, sz as int, idx as int)) by {
                assert forall|kk: int| 0 <= kk < 64 implies #[trigger] sorted(ls[kk]) by {}
                assert forall|kk: int, i: int| 0 <= kk < 64 && 0 <= i < ls[kk].len() implies #[trigger] in_zone(
                    ls[kk][i] as int,
                    kk,
                    base as int,
                    sz as int,
                ) by {
                    assert(kk == idx);
                }
            }
            assert(lists_disjoint(ls)) by {
                assert forall|k1: int, i1: int, k2: int, i2: int|
                    0 <= k1 < 64 && 0 <= k2 < 64 && 0 <= i1 < ls[k1].len() && 0 <= i2 < ls[k2].len() && (k1 != k2
                        || i1 != i2) implies apart(#[trigger] ls[k1][i1] as int, k1, #[trigger] ls[k2][i2] as int, k2) by {
                    assert(k1 == idx && k2 == idx);
                }
            }
            assert(total_upto(ls, idx as int) == 0) by {
                assert forall|n: int| 0 <= n <= idx implies #[trigger] total_upto(ls, n) == 0 by {
                    lemma_total_zero(ls, n, idx as int);
                }
            }
            lemma_total_tail(ls, idx as int);
        }
        let r = BuddyAlg {
            meta,
            last_idx: idx,
            available: sz as usize,
            size: sz as usize,
            aux: Ring::new(),
            log64: Ring::new(),
            drop_log: Ring::new(),
            aux_valid: false,
            available_log: sz as usize,
            mutex: 0,
            base: Ghost(base as int),
            lists: Ghost(ls),
            pending: Ghost(ls),
        };
        assert(apply_writes(mem@, r.aux@) == mem@);
        r
    }
}

/// Lists with no blocks below order `n` hold no bytes below it.
proof fn lemma_total_zero(ls: Seq<Seq<u64>>, n: int, last: int)
    requires
        0 <= n <= last,
        forall|k: int| 0 <= k < last ==> #[trigger] ls[k].len() == 0,
    ensures
        total_upto(ls, n) == 0,
    decreases n,
{
    if n > 0 {
        lemma_total_zero(ls, n - 1, last);
    }
}

/// The total of the lists of a fresh zone.
proof fn lemma_total_tail(ls: Seq<Seq<u64>>, last: int)
    requires
        3 <= last < 64,
        ls == initial_lists(ls[last][0], last),
        total_upto(ls, last) == 0,
    ensures
        total(ls) == blk(last),
{
    assert forall|n: int| last < n <= 64 implies #[trigger] total_upto(ls, n) == blk(last) by {
        lemma_total_from(ls, last, n);
    }
}

proof fn lemma_total_from(ls: Seq<Seq<u64>>, last: int, n: int)
    requires
        3 <= last < n <= 64,
        ls == initial_lists(ls[last][0], last),
        total_upto(ls, last) == 0,
    ensures
        total_upto(ls, n) == blk(last),
    decreases n,
{
    if n > last + 1 {
        lemma_total_from(ls, last, n - 1);
        assert(ls[n - 1].len() == 0);
        assert(ls[n - 1].len() * blk(n - 1) == 0);
        assert(total_upto(ls, n) == total_upto(ls, n - 1) + ls[n - 1].len() * blk(n - 1));
    } else {
        assert(ls[last].len() == 1);
        assert(ls[last].len() * blk(last) == blk(last));
        assert(total_upto(ls, n) == total_upto(ls, last) + ls[last].len() * blk(last));
    }
}

} // verus!

verus! {

/// Returning the block that an allocation of order `k` took gives back
/// exactly the bytes that were free before that allocation.
pub proof fn lemma_dealloc_restores_alloc(
    ls: Seq<Seq<u64>>,
    base: int,
    size: int,
    last: int,
    k: int,
    taken: Seq<Seq<u64>>,
    returned: Seq<Seq<u64>>,
)
    requires
        lists_shape(ls, base, size, last),
        lists_disjoint(ls),
        last < 64,
        base + size <= u64::MAX,
        3 <= k <= last,
        lowest_fit(ls, k, last) != -1,
        taken == split_lists(ls, ls[lowest_fit(ls, k, last)][0], k, lowest_fit(ls, k, last)),
        forall|p: int| #[trigger]
            is_free(returned, p) <==> is_free(taken, p) || (ls[lowest_fit(ls, k, last)][0] <= p < ls[lowest_fit(
                ls,
                k,
                last,
            )][0] + blk(k)),
    ensures
        forall|p: int| #[trigger] is_free(returned, p) <==> is_free(ls, p),
{
    let j = lowest_fit(ls, k, last);
    lemma_lowest_fit(ls, k, last);
    let r = ls[j][0];
    lemma_split_ok(ls, r, k, j, base, size, last);
    if k < j {
        lemma_pow2_strictly_increases(k as nat, j as nat);
    }
    assert forall|p: int| #[trigger] is_free(returned, p) <==> is_free(ls, p) by {
        if r <= p < r + blk(k) {
            assert(ls[j][0] <= p < ls[j][0] + blk(j) && ls[j][0] == ls[j][0]);
        }
    }
}

} // verus!

verus! {

/// The walk over list `l` of order `k` that stops at the first block past
/// `off` meets a block that overlaps the bytes `[off, end]`.
pub open spec fn walk_overlaps(l: Seq<u64>, k: int, off: int, end: int) -> bool {
    exists|t: int| 0 <= t < l.len() && t <= lt_count(l, off + 1) && off < #[trigger] l[t] + blk(k) && l[t] <= end
}

/// Some list of order `lo` to `last` meets, in its walk, a block that
/// overlaps the bytes `[off, end]`.
pub open spec fn seen_overlap(ls: Seq<Seq<u64>>, off: int, end: int, lo: int, last: int) -> bool {
    exists|k: int| lo <= k <= last && #[trigger] walk_overlaps(ls[k], k, off, end)
}

impl BuddyAlg {
    /// Walks list `idx` up to the first block past `off`, telling whether a
    /// block it meets overlaps `[off, end]`.
    fn overlaps_in(&self, mem: &PMem, off: u64, end: u64, idx: usize) -> (r: bool)
        requires
            self.core_inv(mem@),
            3 <= idx <= self.last_idx,
            self.pending@ == self.lists@,
            off <= end,
        ensures
            r == walk_overlaps(self.lists@[idx as int], idx as int, off as int, end as int),
    {
        let ghost ls = self.lists@;
        let ghost meta = self.meta as int;
        let ghost k = idx as int;
        let ghost l = ls[k];
        proof {
            lemma_nodes_ok(ls, mem@.len() as int, meta, self.base@, self.size as int, self.last_idx as int);
            assert(list_stored(mem@, meta, k, l));
            assert(sorted(l));
            lemma_blk(k);
            lemma_u64_shl_is_mul(1, idx as u64);
            assert forall|t: int| 0 <= t < l.len() implies (#[trigger] l[t]) + blk(k) <= u64::MAX && l[t] + 8
                <= mem@.len() by {
                assert(in_zone(ls[k][t] as int, k, self.base@, self.size as int));
            }
        }
        let blen: u64 = 1u64 << (idx as u64);
        let mut curr: u64 = mem.read_u64(self.meta + 8 * (idx as u64));
        let ghost mut t: int = 0;
        loop
            invariant
                0 <= t <= l.len(),
                l == self.lists@[k],
                k == idx,
                off <= end,
                sorted(l),
                list_stored(mem@, meta, k, l),
                blen == blk(k),
                blk(k) >= 8,
                forall|s: int| 0 <= s < l.len() ==> (#[trigger] l[s]) + blk(k) <= u64::MAX && l[s] + 8 <= mem@.len(),
                curr == if t < l.len() {
                    l[t]
                } else {
                    NONE_OFF
                },
                forall|s: int| 0 <= s < t ==> #[trigger] l[s] <= off && !(off < l[s] + blk(k) && l[s] <= end),
            decreases l.len() - t,
        {
            match off_to_option(curr) {
                None => {
                    proof {
                        if t < l.len() {
                            assert(l[t] + blk(k) <= u64::MAX);
                        }
                        lemma_lt_count_props(l, off + 1);
                        assert(!walk_overlaps(l, k, off as int, end as int)) by {
                            if walk_overlaps(l, k, off as int, end as int) {
                                let t2 = choose|t2: int| 0 <= t2 < l.len() && t2 <= lt_count(l, off + 1) && off < #[trigger] l[t2]
                                    + blk(k) && l[t2] <= end;
                                assert(l[t2] <= off);
                            }
                        }
                    }
                    return false;
                },
                Some(b) => {
                    proof {
                        if t >= l.len() {
                            assert(curr == NONE_OFF);
                        }
                    }
                    let r = b + blen;
                    if (off >= b && off < r) || (end >= b && end < r) || (off <= b && end >= r) {
                        proof {
                            lemma_lt_count_props(l, off + 1);
                            if lt_count(l, off + 1) < t {
                                assert(l[lt_count(l, off + 1)] <= off);
                            }
                            assert(off < l[t] + blk(k) && l[t] <= end);
                            assert(0 <= t < l.len() && t <= lt_count(l, off + 1) && off < l[t] + blk(k) && l[t] <= end);
                        }
                        return true;
                    }
                    if b > off {
                        proof {
                            assert forall|s: int| 0 <= s < t implies #[trigger] l[s] < off + 1 by {}
                            lemma_lt_count(l, off + 1, t);
                            assert(!walk_overlaps(l, k, off as int, end as int)) by {
                                if walk_overlaps(l, k, off as int, end as int) {
                                    let t2 = choose|t2: int| 0 <= t2 < l.len() && t2 <= lt_count(l, off + 1) && off < #[trigger] l[t2]
                                        + blk(k) && l[t2] <= end;
                                    if t2 < t {
                                        assert(l[t2] <= off);
                                    }
                                }
                            }
                        }
                        return false;
                    }
                    curr = mem.read_u64(b);
                    proof {
                        t = t + 1;
                    }
                },
            }
        }
    }

    /// Tells whether the bytes `[off, off + len)` may be in use: true while
    /// an operation has queued changes (the lock is then kept); otherwise
    /// false exactly when the walk of some list of order `order_for(len)` or
    /// higher meets a free block that overlaps them.
    pub fn is_allocated(&mut self, mem: &PMem, off: u64, len: usize) -> (r: bool)
        requires
            old(self).core_inv(mem@),
            0 < len,
            off + len <= u64::MAX + 1,
        ensures
            old(self).redo_log().len() > 0 ==> r && final(self).lock_word() == 1 && final(self).core_inv(mem@)
                && final(self).redo_log() == old(self).redo_log() && final(self).word_log() == old(self).word_log()
                && final(self).drop_records() == old(self).drop_records() && final(self).pending_lists()
                == old(self).pending_lists(),
            old(self).redo_log().len() == 0 ==> {
                &&& r == !seen_overlap(
                    old(self).free_lists(),
                    off as int,
                    off + len - 1,
                    order_for(len as int),
                    old(self).last_order(),
                )
                &&& final(self).core_inv(mem@)
                &&& old(self).inv(mem@) ==> final(self).inv(mem@)
                &&& final(self).lock_word() == 0
                &&& final(self).pending_lists() == old(self).free_lists()
                &&& final(self).redo_log().len() == 0
                &&& final(self).word_log().len() == 0
                &&& final(self).drop_records().len() == 0
                &&& final(self).spec_available() == old(self).spec_available()
            },
            final(self).free_lists() == old(self).free_lists(),
            final(self).in_operation() == old(self).in_operation(),
            final(self).meta_off() == old(self).meta_off(),
            final(self).zone_base() == old(self).zone_base(),
            final(self).zone_size() == old(self).zone_size(),
            final(self).last_order() == old(self).last_order(),
    {
        self.lock();
        if !self.aux.is_empty() {
            return true;
        }
        let end: u64 = off + ((len as u64) - 1);
        let first = get_idx(len);
        proof {
            lemma_order_for(len as int, first as int);
        }
        let mut idx = first;
        while idx <= self.last_idx
            invariant
                self.core_inv(mem@),
                old(self).inv(mem@) ==> self.inv(mem@),
                self.pending@ == self.lists@,
                self.lists@ == old(self).lists@,
                self.aux@.len() == 0,
                self.last_idx == old(self).last_idx,
                3 <= first <= idx,
                first == order_for(len as int),
                idx == first || idx <= self.last_idx + 1,
                self.aux == old(self).aux,
                self.lists == old(self).lists,
                self.log64 == old(self).log64,
                self.drop_log == old(self).drop_log,
                end == off + len - 1,
                0 < len,
                forall|k: int| first <= k < idx ==> !#[trigger] walk_overlaps(self.lists@[k], k, off as int, end as int),
                self.meta == old(self).meta,
                self.base == old(self).base,
                self.size == old(self).size,
                self.available == old(self).available,
                self.aux_valid == old(self).aux_valid,
                self.mutex == 1,
            decreases self.last_idx + 1 - idx,
        {
            if self.overlaps_in(mem, off, end, idx) {
                self.discard(mem);
                proof {
                    assert(walk_overlaps(old(self).free_lists()[idx as int], idx as int, off as int, end as int));
                }
                return false;
            }
            idx = idx + 1;
        }
        self.discard(mem);
        true
    }
}

} // verus!

verus! {

/// Byte `p` lies in the block of one of the first `n` drop records.
pub open spec fn dropped(recs: Seq<(u64, usize)>, n: int, p: int) -> bool {
    exists|j: int| 0 <= j < n && (#[trigger] recs[j]).0 <= p < recs[j].0 + blk(order_for(recs[j].1 as int))
}

/// Every drop record names an allocated block of the zone (none of its bytes
/// free in `ls`), and the blocks of two records do not overlap.
pub open spec fn drops_ok(recs: Seq<(u64, usize)>, ls: Seq<Seq<u64>>, base: int, size: int) -> bool {
    &&& forall|j: int|
        0 <= j < recs.len() ==> 0 < (#[trigger] recs[j]).1 <= size && in_zone(
            recs[j].0 as int,
            order_for(recs[j].1 as int),
            base,
            size,
        )
    &&& forall|j: int, p: int|
        #![trigger recs[j], is_free(ls, p)]
        0 <= j < recs.len() && recs[j].0 <= p < recs[j].0 + blk(order_for(recs[j].1 as int)) ==> !is_free(ls, p)
    &&& forall|j1: int, j2: int|
        0 <= j1 < j2 < recs.len() ==> apart(
            (#[trigger] recs[j1]).0 as int,
            order_for(recs[j1].1 as int),
            (#[trigger] recs[j2]).0 as int,
            order_for(recs[j2].1 as int),
        )
}

/// The lock word plays no part in recovering.
proof fn lemma_drained_lock_word(a: BuddyAlg, b: BuddyAlg, m0: Seq<u8>, mem: Seq<u8>)
    requires
        a.drained_from(m0, mem),
        b.meta == a.meta,
        b.last_idx == a.last_idx,
        b.available == a.available,
        b.size == a.size,
        b.aux == a.aux,
        b.log64 == a.log64,
        b.drop_log == a.drop_log,
        b.aux_valid == a.aux_valid,
        b.available_log == a.available_log,
        b.base == a.base,
        b.lists == a.lists,
        b.pending == a.pending,
    ensures
        b.drained_from(m0, mem),
{
    assert(b.inv(m0));
    if exists|n: int| 0 <= n <= a.redo_log().len() && mem == apply_writes(m0, #[trigger] a.redo_log().take(n)) {
        let n = choose|n: int| 0 <= n <= a.redo_log().len() && mem == apply_writes(m0, #[trigger] a.redo_log().take(n));
        assert(mem == apply_writes(m0, b.redo_log().take(n)));
    } else {
        let n = choose|n: int| 0 <= n <= a.word_log().len() && mem == apply_writes(m0, #[trigger] a.word_log().take(n));
        assert(mem == apply_writes(m0, b.word_log().take(n)));
    }
}

impl BuddyAlg {
    /// Brings the zone back after a crash. If an operation was under way, its
    /// queued stores are redone, which completes it, and the blocks of its
    /// drop records are returned to the free lists; otherwise the queued
    /// changes are dropped.
    pub fn recover(&mut self, mem: &mut PMem)
        requires
            old(self).in_operation() ==> old(self).recoverable(old(mem)@),
            !old(self).in_operation() ==> old(self).core_inv(old(mem)@),
            old(self).in_operation() ==> drops_ok(
                old(self).drop_records(),
                old(self).pending_lists(),
                old(self).zone_base(),
                old(self).zone_size(),
            ),
        ensures
            final(mem)@.len() == old(mem)@.len(),
            forall|p: int|
                0 <= p < old(mem)@.len() && !old(self).owns(p) && !covers(old(self).word_log(), p)
                    ==> #[trigger] final(mem)@[p] == old(mem)@[p],
            final(self).core_inv(final(mem)@),
            final(self).lock_word() == 0,
            final(self).redo_log().len() == 0,
            final(self).word_log().len() == 0,
            final(self).drop_records().len() == 0,
            final(self).pending_lists() == final(self).free_lists(),
            old(self).in_operation() ==> {
                &&& final(self).inv(final(mem)@)
                &&& forall|p: int| #[trigger]
                    is_free(final(self).free_lists(), p) <==> is_free(old(self).pending_lists(), p) || dropped(
                        old(self).drop_records(),
                        old(self).drop_records().len() as int,
                        p,
                    )
                &&& old(self).drop_records().len() == 0 ==> {
                    &&& final(self).free_lists() == old(self).pending_lists()
                    &&& forall|m0: Seq<u8>| #[trigger] old(self).drained_from(m0, old(mem)@) ==> final(mem)@
                        == apply_writes(apply_writes(m0, old(self).redo_log()), old(self).word_log())
                }
            },
            !old(self).in_operation() ==> {
                &&& final(mem)@ == old(mem)@
                &&& final(self).free_lists() == old(self).free_lists()
                &&& final(self).spec_available() == old(self).spec_available()
            },
            final(self).in_operation() == old(self).in_operation(),
            final(self).meta_off() == old(self).meta_off(),
            final(self).zone_base() == old(self).zone_base(),
            final(self).zone_size() == old(self).zone_size(),
            final(self).last_order() == old(self).last_order(),
    {
        self.mutex = 0;
        if self.aux_valid {
            let ghost p0 = self.pending@;
            let ghost s1 = *self;
            proof {
                let m0 = choose|m0: Seq<u8>| old(self).drained_from(m0, mem@);
                old(self).lemma_redo_owned(m0);
                lemma_drained_lock_word(*old(self), s1, m0, mem@);
                assert forall|mm: Seq<u8>| #[trigger] old(self).drained_from(mm, mem@) implies s1.drained_from(mm, mem@) by {
                    lemma_drained_lock_word(*old(self), s1, mm, mem@);
                }
            }
            self.drain_aux(mem);
            if !self.drop_log.is_empty() {
                let recs = self.drop_log.foreach();
                let mut i: usize = 0;
                while i < recs.len()
                    invariant
                        i <= recs@.len(),
                        recs@ == old(self).drop_records(),
                        mem@.len() == old(mem)@.len(),
                        drops_ok(recs@, p0, self.base@, self.size as int),
                        self.inv(mem@),
                        self.aux@.len() == 0,
                        self.log64@.len() == 0,
                        i > 0 ==> self.drop_log@.len() == 0,
                        self.mutex == 0,
                        self.aux_valid,
                        self.base == old(self).base,
                        self.size == old(self).size,
                        self.meta == old(self).meta,
                        self.last_idx == old(self).last_idx,
                        forall|p: int| #[trigger] is_free(self.lists@, p) <==> is_free(p0, p) || dropped(recs@, i as int, p),
                        forall|p: int|
                            0 <= p < old(mem)@.len() && !old(self).owns(p) && !covers(old(self).word_log(), p)
                                ==> #[trigger] mem@[p] == old(mem)@[p],
                    decreases recs@.len() - i,
                {
                    let (off, len) = recs[i];
                    proof {
                        assert(recs@[i as int] == (off, len));
                        let k = order_for(len as int);
                        assert forall|p: int| off <= p < off + blk(k) implies !#[trigger] is_free(self.lists@, p) by {
                            assert(!is_free(p0, p));
                            if dropped(recs@, i as int, p) {
                                let j = choose|j: int| 0 <= j < i && (#[trigger] recs@[j]).0 <= p < recs@[j].0 + blk(
                                    order_for(recs@[j].1 as int),
                                );
                                assert(apart(
                                    recs@[j].0 as int,
                                    order_for(recs@[j].1 as int),
                                    recs@[i as int].0 as int,
                                    order_for(recs@[i as int].1 as int),
                                ));
                            }
                        }
                    }
                    self.dealloc_impl(mem, off, len, false);
                    proof {
                        self.lemma_inv_recoverable(mem@);
                        self.lemma_redo_owned(mem@);
                    }
                    self.drain_aux(mem);
                    self.discard(mem);
                    proof {
                        assert forall|p: int| #[trigger] is_free(self.lists@, p) <==> is_free(p0, p) || dropped(
                            recs@,
                            i + 1,
                            p,
                        ) by {
                            if dropped(recs@, i + 1, p) && !dropped(recs@, i as int, p) {
                                let j = choose|j: int| 0 <= j < i + 1 && (#[trigger] recs@[j]).0 <= p < recs@[j].0
                                    + blk(order_for(recs@[j].1 as int));
                                assert(j == i);
                            }
                            if off <= p < off + blk(order_for(len as int)) {
                                assert(recs@[i as int].0 <= p < recs@[i as int].0 + blk(order_for(recs@[i as int].1 as int)));
                            }
                        }
                    }
                    i = i + 1;
                }
                self.drop_log.clear();
            } else {
                proof {
                    assert forall|p: int| #[trigger] is_free(self.lists@, p) <==> is_free(p0, p) || dropped(
                        old(self).drop_records(),
                        old(self).drop_records().len() as int,
                        p,
                    ) by {}
                }
            }
        } else {
            self.aux.clear();
            self.log64.clear();
            self.drop_log.clear();
            proof {
                self.pending = Ghost(self.lists@);
                assert(apply_writes(mem@, self.aux@) == mem@);
            }
        }
    }
}

} // verus!

verus! {

impl BuddyAlg {
    /// An idle zone stays consistent with an image that changed only in bytes
    /// that are neither its head words nor free.
    pub proof fn lemma_inv_frame(&self, m1: Seq<u8>, m2: Seq<u8>)
        requires
            self.inv(m1),
            self.redo_log().len() == 0,
            m1.len() == m2.len(),
            forall|p: int|
                0 <= p < m1.len() && (self.meta_off() <= p < self.meta_off() + 512 || is_free(self.free_lists(), p))
                    ==> #[trigger] m1[p] == m2[p],
        ensures
            self.inv(m2),
    {
        let ls = self.lists@;
        let meta = self.meta as int;
        lemma_nodes_ok(ls, m1.len() as int, meta, self.base@, self.size as int, self.last_idx as int);
        assert forall|k: int| 0 <= k < 64 implies #[trigger] list_stored(m2, meta, k, ls[k]) by {
            assert(list_stored(m1, meta, k, ls[k]));
            lemma_rd_agree(m1, m2, head_slot(meta, k));
            assert forall|i: int| 0 <= i < ls[k].len() implies #[trigger] rd(m2, ls[k][i] as int) == next_of(ls[k], i) by {
                assert(k >= 3) by {
                    if k < 3 {
                        assert(ls[k].len() == 0);
                    }
                }
                lemma_blk(k);
                assert forall|p: int| ls[k][i] <= p < ls[k][i] + 8 implies #[trigger] m1[p] == m2[p] by {
                    assert(ls[k][i] <= p < ls[k][i] + blk(k) && ls[k][i] == ls[k][i]);
                    assert(is_free(ls, p));
                }
                lemma_rd_agree(m1, m2, ls[k][i] as int);
            }
        }
        assert(apply_writes(m2, self.aux@) == m2);
        assert(apply_writes(m1, self.aux@) == m1);
    }
}

} // verus!

verus! {

impl BuddyAlg {
    /// A consistent allocator satisfies the structural part of consistency.
    pub proof fn lemma_inv_core(&self, mem: Seq<u8>)
        requires
            self.inv(mem),
        ensures
            self.core_inv(mem),
    {
    }

    /// Free bytes, now and once the queued changes are performed, lie in the zone.
    pub proof fn lemma_free_in_zone(&self, mem: Seq<u8>)
        requires
            self.core_inv(mem),
        ensures
            forall|p: int| #[trigger] is_free(self.free_lists(), p) ==> self.zone_base() <= p < self.zone_base() + self.zone_size(),
            forall|p: int| #[trigger] is_free(self.pending_lists(), p) ==> self.zone_base() <= p < self.zone_base() + self.zone_size(),
    {
        assert forall|p: int| #[trigger] is_free(self.free_lists(), p) implies self.zone_base() <= p < self.zone_base() + self.zone_size() by {
            let (k, i) = choose|k: int, i: int| 0 <= k < 64 && 0 <= i < self.lists@[k].len() && self.lists@[k][i] <= p < self.lists@[k][i] + blk(k) && #[trigger] self.lists@[k][i] == self.lists@[k][i];
            assert(in_zone(self.lists@[k][i] as int, k, self.base@, self.size as int));
        }
        assert forall|p: int| #[trigger] is_free(self.pending_lists(), p) implies self.zone_base() <= p < self.zone_base() + self.zone_size() by {
            let (k, i) = choose|k: int, i: int| 0 <= k < 64 && 0 <= i < self.pending@[k].len() && self.pending@[k][i] <= p < self.pending@[k][i] + blk(k) && #[trigger] self.pending@[k][i] == self.pending@[k][i];
            assert(in_zone(self.pending@[k][i] as int, k, self.base@, self.size as int));
        }
    }
}

} // verus!

verus! {

proof fn lemma_order_search(m: int, k: int) -> (r: int)
    requires
        8 <= m <= blk(64),
        3 <= k <= 64,
        blk(k - 1) < m,
    ensures
        k <= r <= 64,
        blk(r - 1) < m <= blk(r),
    decreases 64 - k,
{
    if m <= blk(k) {
        k
    } else {
        lemma_order_search(m, k + 1)
    }
}

/// Every size up to `2^63` bytes has an order, from 3 to 63.
pub proof fn lemma_order_exists(x: int)
    requires
        0 < x <= 0x8000_0000_0000_0000,
    ensures
        order_of(x, order_for(x)),
        3 <= order_for(x) <= 63,
        x <= blk(order_for(x)),
{
    lemma2_to64();
    lemma_blk(64);
    lemma_blk(63);
    let m = if x < 8 {
        8
    } else {
        x
    };
    let r = lemma_order_search(m, 3);
    if r == 64 {
        assert(blk(63) < m);
        assert(false);
    }
    lemma_order_for(x, r);
}

/// Whether `x` occurs in `v`.
fn holds(v: &Vec<u64>, x: u64) -> (r: bool)
    ensures
        r == v@.contains(x),
{
    let mut i: usize = 0;
    while i < v.len()
        invariant
            i <= v@.len(),
            forall|t: int| 0 <= t < i ==> v@[t] != x,
        decreases v@.len() - i,
    {
        if v[i] == x {
            return true;
        }
        i = i + 1;
    }
    false
}

/// The walk along next words from offset `p` in image `s`, for at most
/// `fuel` blocks, `seen` holding the blocks already passed: `Some(true)` once
/// it reaches the null offset, `Some(false)` at a block whose next word does
/// not lie in `s` or, with `loops`, at a block passed before, and `None` when
/// the fuel runs out first.
pub open spec fn chain_walk(s: Seq<u8>, p: u64, fuel: nat, seen: Set<int>, loops: bool) -> Option<bool>
    decreases fuel,
{
    if p == NONE_OFF {
        Some(true)
    } else if p + 8 > s.len() || (loops && seen.contains(p as int)) {
        Some(false)
    } else if fuel == 0 {
        None
    } else {
        chain_walk(s, rd(s, p as int), (fuel - 1) as nat, seen.insert(p as int), loops)
    }
}

/// The walk from `p` comes to an end.
pub open spec fn walk_ends(s: Seq<u8>, p: u64, loops: bool) -> bool {
    exists|n: nat| (#[trigger] chain_walk(s, p, n, Set::empty(), loops)) is Some
}

/// The walk from `p` reaches the null offset.
pub open spec fn chain_ok(s: Seq<u8>, p: u64, loops: bool) -> bool {
    exists|n: nat| #[trigger] chain_walk(s, p, n, Set::empty(), loops) == Some(true)
}

/// A walk that has ended ends the same way with more fuel.
proof fn lemma_walk_mono(s: Seq<u8>, p: u64, n: nat, m: nat, seen: Set<int>, loops: bool)
    requires
        n <= m,
        chain_walk(s, p, n, seen, loops) is Some,
    ensures
        chain_walk(s, p, m, seen, loops) == chain_walk(s, p, n, seen, loops),
    decreases n,
{
    if p == NONE_OFF || p + 8 > s.len() || (loops && seen.contains(p as int)) {
    } else {
        lemma_walk_mono(s, rd(s, p as int), (n - 1) as nat, (m - 1) as nat, seen.insert(p as int), loops);
    }
}

/// A walk that ended at a bad block never reaches the null offset.
proof fn lemma_walk_fails(s: Seq<u8>, p: u64, n: nat, loops: bool)
    requires
        chain_walk(s, p, n, Set::empty(), loops) == Some(false),
    ensures
        !chain_ok(s, p, loops),
{
    assert forall|m: nat| #[trigger] chain_walk(s, p, m, Set::empty(), loops) != Some(true) by {
        if m <= n {
            if chain_walk(s, p, m, Set::empty(), loops) is Some {
                lemma_walk_mono(s, p, m, n, Set::empty(), loops);
            }
        } else {
            lemma_walk_mono(s, p, n, m, Set::empty(), loops);
        }
    }
}

/// With the cycle check, a walk ends before it has passed more blocks than
/// the image has bytes.
proof fn lemma_walk_bounded(s: Seq<u8>, p: u64, n: nat, seen: Set<int>)
    requires
        seen.finite(),
        seen.subset_of(set_int_range(0, s.len() as int)),
        seen.len() + n > s.len(),
    ensures
        chain_walk(s, p, n, seen, true) is Some,
    decreases n,
{
    if p == NONE_OFF || p + 8 > s.len() || seen.contains(p as int) {
    } else {
        if n == 0 {
            lemma_int_range(0, s.len() as int);
            lemma_len_subset(seen, set_int_range(0, s.len() as int));
            assert(false);
        }
        lemma_walk_bounded(s, rd(s, p as int), (n - 1) as nat, seen.insert(p as int));
    }
}

/// The first `i` blocks of a list.
pub open spec fn passed(l: Seq<u64>, i: int) -> Set<int> {
    Set::new(|x: int| exists|t: int| 0 <= t < i && #[trigger] l[t] as int == x)
}

/// Walking a stored, sorted list from its block `i` on reaches the null
/// offset after the remaining blocks.
proof fn lemma_stored_walk(s: Seq<u8>, meta: int, k: int, l: Seq<u64>, i: int, loops: bool)
    requires
        list_stored(s, meta, k, l),
        sorted(l),
        s.len() <= u64::MAX,
        forall|t: int| 0 <= t < l.len() ==> (#[trigger] l[t]) + 8 <= s.len(),
        0 <= i <= l.len(),
    ensures
        chain_walk(s, if i < l.len() { l[i] } else { NONE_OFF }, (l.len() - i) as nat, passed(l, i), loops)
            == Some(true),
    decreases l.len() - i,
{
    if i < l.len() {
        assert(l[i] + 8 <= s.len());
        assert(!passed(l, i).contains(l[i] as int)) by {
            if passed(l, i).contains(l[i] as int) {
                let t = choose|t: int| 0 <= t < i && #[trigger] l[t] as int == l[i] as int;
                assert(l[t] < l[i]);
            }
        }
        assert(rd(s, l[i] as int) == next_of(l, i));
        assert(passed(l, i).insert(l[i] as int) =~= passed(l, i + 1)) by {
            assert forall|x: int| passed(l, i + 1).contains(x) implies #[trigger] passed(l, i).insert(l[i] as int).contains(x) by {
                let t = choose|t: int| 0 <= t < i + 1 && #[trigger] l[t] as int == x;
                if t < i {
                    assert(passed(l, i).contains(x));
                }
            }
            assert forall|x: int| #[trigger] passed(l, i).insert(l[i] as int).contains(x) implies passed(l, i + 1).contains(x) by {
                if x == l[i] as int {
                    assert(l[i] as int == x);
                } else {
                    let t = choose|t: int| 0 <= t < i && #[trigger] l[t] as int == x;
                    assert(l[t] as int == x);
                }
            }
        }
        lemma_stored_walk(s, meta, k, l, i + 1, loops);
    }
}

impl BuddyAlg {
    /// Every free list of orders 3 to the last, walked from its head word in
    /// image `mem`, reaches the null offset through blocks whose next word
    /// lies in the image, and, with `loops`, meets no block twice.
    pub open spec fn free_lists_pass(&self, mem: Seq<u8>, loops: bool) -> bool {
        forall|k: int|
            3 <= k <= self.last_order() ==> #[trigger] chain_ok(mem, rd(mem, head_slot(self.meta_off(), k)), loops)
    }

    /// Every walk of the free lists of orders 3 to the last comes to an end.
    pub open spec fn free_walks_end(&self, mem: Seq<u8>, loops: bool) -> bool {
        forall|k: int|
            3 <= k <= self.last_order() ==> #[trigger] walk_ends(mem, rd(mem, head_slot(self.meta_off(), k)), loops)
    }

    /// The free lists of an allocator consistent with its image pass the
    /// walk, with or without the cycle check.
    pub proof fn lemma_consistent_lists_pass(&self, mem: Seq<u8>, loops: bool)
        requires
            self.inv(mem),
        ensures
            self.free_lists_pass(mem, loops),
            self.free_walks_end(mem, loops),
            self.meta_off() + 512 <= mem.len(),
            self.last_order() < 64,
    {
        let ls = self.lists@;
        lemma_nodes_ok(ls, mem.len() as int, self.meta as int, self.base@, self.size as int, self.last_idx as int);
        assert forall|k: int| 3 <= k <= self.last_order() implies #[trigger] chain_ok(
            mem,
            rd(mem, head_slot(self.meta_off(), k)),
            loops,
        ) && walk_ends(mem, rd(mem, head_slot(self.meta_off(), k)), loops) by {
            let l = ls[k];
            assert(list_stored(mem, self.meta as int, k, l));
            assert(forall|t: int| 0 <= t < l.len() ==> (#[trigger] l[t]) + 8 <= mem.len());
            lemma_stored_walk(mem, self.meta as int, k, l, 0, loops);
            assert(passed(l, 0) =~= Set::<int>::empty());
            let w = chain_walk(mem, rd(mem, head_slot(self.meta_off(), k)), l.len(), Set::empty(), loops);
            assert(w == Some(true));
        }
        assert forall|k: int| 3 <= k <= self.last_order() implies #[trigger] walk_ends(
            mem,
            rd(mem, head_slot(self.meta_off(), k)),
            loops,
        ) by {
            let p = rd(mem, head_slot(self.meta_off(), k));
            assert(chain_ok(mem, p, loops));
            let n = choose|n: nat| #[trigger] chain_walk(mem, p, n, Set::empty(), loops) == Some(true);
            assert(chain_walk(mem, p, n, Set::empty(), loops) is Some);
        }
    }

    /// Walks the stored free lists of orders 3 to the last and tells whether
    /// each one reaches the null offset through blocks whose next word lies
    /// in the image and, with `loops`, without coming back to a block it
    /// passed. Without `loops` a list that runs in a circle is never left,
    /// so such lists are not admitted.
    pub fn verify(&self, mem: &PMem, loops: bool) -> (r: bool)
        requires
            self.meta_off() + 512 <= mem@.len(),
            self.last_order() < 64,
            !loops ==> self.free_walks_end(mem@, false),
        ensures
            r == self.free_lists_pass(mem@, loops),
    {
        let n = mem.len();
        let top: u64 = (n as u64) - 8;
        let mut idx: usize = 3;
        while idx <= self.last_idx
            invariant
                3 <= idx,
                self.last_idx < 64,
                n == mem@.len(),
                top == mem@.len() - 8,
                self.meta + 512 <= mem@.len(),
                !loops ==> self.free_walks_end(mem@, false),
                forall|k: int| 3 <= k < idx ==> #[trigger] chain_ok(mem@, rd(mem@, head_slot(self.meta_off(), k)), loops),
            decreases self.last_idx + 1 - idx,
        {
            let ghost k = idx as int;
            let head = mem.read_u64(self.meta + 8 * (idx as u64));
            proof {
                assert(head == rd(mem@, head_slot(self.meta_off(), k)));
                if !loops {
                    assert(walk_ends(mem@, rd(mem@, head_slot(self.meta_off(), k)), false));
                }
            }
            let ghost fuel: nat = if loops {
                (mem@.len() + 1) as nat
            } else {
                choose|f: nat| (#[trigger] chain_walk(mem@, head, f, Set::empty(), false)) is Some
            };
            let ghost w = chain_walk(mem@, head, fuel, Set::empty(), loops);
            proof {
                assert(head == rd(mem@, head_slot(self.meta_off(), k)));
                if loops {
                    assert(Set::<int>::empty().subset_of(set_int_range(0, mem@.len() as int)));
                    lemma_walk_bounded(mem@, head, fuel, Set::empty());
                } else {
                    assert(walk_ends(mem@, rd(mem@, head_slot(self.meta_off(), k)), false));
                }
            }
            let mut curr = head;
            let mut links: Vec<u64> = Vec::new();
            let ghost mut f: nat = fuel;
            let ghost mut seen: Set<int> = Set::empty();
            loop
                invariant
                    n == mem@.len(),
                    top == mem@.len() - 8,
                    k == idx as int,
                    3 <= idx <= self.last_idx,
                    head == rd(mem@, head_slot(self.meta_off(), k)),
                    w is Some,
                    w == chain_walk(mem@, head, fuel, Set::empty(), loops),
                    w == chain_walk(mem@, curr, f, seen, loops),
                    loops ==> forall|x: u64| #[trigger] links@.contains(x) == seen.contains(x as int),
                ensures
                    w == Some(true),
                decreases f,
            {
                match off_to_option(curr) {
                    None => {
                        proof {
                            assert(chain_walk(mem@, curr, f, seen, loops) == Some(true));
                        }
                        break;
                    },
                    Some(b) => {
                        let repeated = loops && holds(&links, b);
                        if repeated || b > top {
                            proof {
                                assert(w == Some(false));
                                lemma_walk_fails(mem@, head, fuel, loops);
                                assert(!chain_ok(mem@, rd(mem@, head_slot(self.meta_off(), k)), loops));
                            }
                            return false;
                        }
                        let ghost before = links@;
                        if loops {
                            links.push(b);
                        }
                        proof {
                            if loops {
                                assert forall|x: u64| #[trigger] links@.contains(x) == seen.insert(b as int).contains(x as int) by {
                                    assert(links@ == before.push(b));
                                    if x == b {
                                        assert(links@[before.len() as int] == b);
                                    } else if links@.contains(x) {
                                        let t = choose|t: int| 0 <= t < links@.len() && links@[t] == x;
                                        assert(before[t] == x);
                                        assert(before.contains(x));
                                    } else if before.contains(x) {
                                        let t = choose|t: int| 0 <= t < before.len() && before[t] == x;
                                        assert(links@[t] == x);
                                    }
                                }
                            }
                            seen = seen.insert(b as int);
                            f = (f - 1) as nat;
                        }
                        curr = mem.read_u64(b);
                    },
                }
            }
            proof {
                assert(chain_walk(mem@, head, fuel, Set::empty(), loops) == Some(true));
                assert(chain_ok(mem@, head, loops));
            }
            idx = idx + 1;
        }
        true
    }
}

impl BuddyAlg {
    /// Order of the largest block.
    pub fn last_idx(&self) -> (r: usize)
        ensures
            r == self.last_order(),
    {
        self.last_idx
    }

    /// The blocks of free list `idx`, read from the image in list order.
    pub fn free_list(&self, mem: &PMem, idx: usize) -> (r: Vec<u64>)
        requires
            self.inv(mem@),
            idx < 64,
        ensures
            r@ == self.free_lists()[idx as int],
    {
        let ghost ls = self.lists@;
        let ghost k = idx as int;
        let ghost l = ls[k];
        proof {
            lemma_nodes_ok(ls, mem@.len() as int, self.meta as int, self.base@, self.size as int, self.last_idx as int);
            assert(list_stored(mem@, self.meta as int, k, l));
            assert(sorted(l));
            assert(mem@.len() <= u64::MAX);
        }
        let mut curr = mem.read_u64(self.meta + 8 * (idx as u64));
        let mut out: Vec<u64> = Vec::new();
        loop
            invariant
                out@.len() <= l.len(),
                mem@.len() <= u64::MAX,
                k == idx,
                l == self.free_lists()[k],
                sorted(l),
                list_stored(mem@, self.meta as int, k, l),
                forall|t: int| 0 <= t < l.len() ==> (#[trigger] l[t]) + 8 <= mem@.len(),
                curr == if out@.len() < l.len() {
                    l[out@.len() as int]
                } else {
                    NONE_OFF
                },
                out@ == l.take(out@.len() as int),
            decreases l.len() - out@.len(),
        {
            match off_to_option(curr) {
                None => {
                    proof {
                        if out@.len() < l.len() {
                            assert(l[out@.len() as int] + 8 <= mem@.len());
                        }
                        assert(out@ =~= l);
                    }
                    return out;
                },
                Some(b) => {
                    proof {
                        if out@.len() >= l.len() {
                            assert(curr == NONE_OFF);
                        }
                        assert(l[out@.len() as int] + 8 <= mem@.len());
                    }
                    let ghost i = out@.len() as int;
                    out.push(b);
                    curr = mem.read_u64(b);
                    proof {
                        assert(out@ =~= l.take(i + 1));
                    }
                },
            }
        }
    }
}

/// What a zone holds for its recovery: whether an operation was under way,
/// the queued free-list stores and word stores, each as the word's offset,
/// the word stored there now and the word to store, and the blocks to
/// reclaim if the operation fails.
pub struct ZoneLogs {
    pub crashed: bool,
    pub aux: Vec<(u64, u64, u64)>,
    pub log64: Vec<(u64, u64, u64)>,
    pub drops: Vec<(u64, usize)>,
}

/// The queued stores `ws`, each with the word stored now at its offset in
/// image `s`.
pub open spec fn with_current(s: Seq<u8>, ws: Seq<(u64, u64)>) -> Seq<(u64, u64, u64)> {
    ws.map_values(|w: (u64, u64)| (w.0, rd(s, w.0 as int), w.1))
}

/// Each queued store `ws` with the word stored now at its offset.
fn pair_current(mem: &PMem, ws: Vec<(u64, u64)>) -> (r: Vec<(u64, u64, u64)>)
    requires
        writes_in_bounds(ws@, mem@.len() as int),
    ensures
        r@ == with_current(mem@, ws@),
{
    let mut out: Vec<(u64, u64, u64)> = Vec::new();
    let mut i: usize = 0;
    while i < ws.len()
        invariant
            i <= ws@.len(),
            writes_in_bounds(ws@, mem@.len() as int),
            out@ == with_current(mem@, ws@.take(i as int)),
        decreases ws@.len() - i,
    {
        let (off, next) = ws[i];
        proof {
            assert(off + 8 <= mem@.len()) by {
                assert(ws@[i as int].0 + 8 <= mem@.len());
            }
        }
        let cur = mem.read_u64(off);
        out.push((off, cur, next));
        i = i + 1;
        proof {
            assert(out@ =~= with_current(mem@, ws@.take(i as int)));
        }
    }
    proof {
        assert(ws@.take(i as int) =~= ws@);
    }
    out
}

impl BuddyAlg {
    /// What the zone holds for its recovery, as `ZoneLogs` lists it.
    pub fn recovery_state(&self, mem: &PMem) -> (r: ZoneLogs)
        requires
            self.inv(mem@),
        ensures
            r.crashed == self.in_operation(),
            r.aux@ == with_current(mem@, self.redo_log()),
            r.log64@ == with_current(mem@, self.word_log()),
            r.drops@ == self.drop_records(),
    {
        let aux = pair_current(mem, self.aux.foreach());
        let log64 = pair_current(mem, self.log64.foreach());
        ZoneLogs { crashed: self.aux_valid, aux, log64, drops: self.drop_log.foreach() }
    }
}

/// List `l` is stored in image `mem` as free list `k` of the zone
/// `[base, base + size)`, its blocks inside the zone in increasing order,
/// each after the end of the one before.
pub open spec fn good_list(mem: Seq<u8>, meta: int, base: int, size: int, k: int, l: Seq<u64>) -> bool {
    &&& list_stored(mem, meta, k, l)
    &&& forall|i: int| 0 <= i < l.len() ==> #[trigger] in_zone(l[i] as int, k, base, size)
    &&& forall|i: int, j: int| 0 <= i < j < l.len() ==> #[trigger] l[i] + blk(k) <= #[trigger] l[j]
}

/// The image `mem` stores, with their heads at `meta`, the well formed free
/// lists `ls` of a zone of order `k` from `base`.
pub open spec fn stores_zone(mem: Seq<u8>, meta: int, base: int, k: int, ls: Seq<Seq<u64>>) -> bool {
    &&& lists_shape(ls, base, blk(k), k)
    &&& lists_disjoint(ls)
    &&& lists_stored(mem, meta, ls)
}

/// A size lies between two consecutive powers of two in one way only.
proof fn lemma_order_unique(a: int, b: int, size: int)
    requires
        0 <= a,
        0 <= b,
        blk(a) <= size < blk(a + 1),
        blk(b) <= size < blk(b + 1),
    ensures
        a == b,
{
    if a < b {
        if a + 1 < b {
            lemma_pow2_strictly_increases((a + 1) as nat, b as nat);
        }
    } else if b < a {
        if b + 1 < a {
            lemma_pow2_strictly_increases((b + 1) as nat, a as nat);
        }
    }
}

/// The image stores one list at a head: two stored lists whose blocks are
/// never the null offset are the same.
proof fn lemma_stored_unique(mem: Seq<u8>, meta: int, k: int, l1: Seq<u64>, l2: Seq<u64>)
    requires
        list_stored(mem, meta, k, l1),
        list_stored(mem, meta, k, l2),
        forall|i: int| 0 <= i < l1.len() ==> #[trigger] l1[i] != NONE_OFF,
        forall|i: int| 0 <= i < l2.len() ==> #[trigger] l2[i] != NONE_OFF,
    ensures
        l1 == l2,
{
    assert forall|n: int| 0 <= n < l1.len() && n < l2.len() implies #[trigger] l1[n] == l2[n] by {
        lemma_stored_prefix(mem, meta, k, l1, l2, n);
    }
    if l1.len() < l2.len() {
        let n = l1.len() as int;
        if n > 0 {
            assert(l1[n - 1] == l2[n - 1]);
            assert(rd(mem, l1[n - 1] as int) == next_of(l1, n - 1));
            assert(rd(mem, l2[n - 1] as int) == next_of(l2, n - 1));
        }
        assert(l2[n] != NONE_OFF);
    } else if l2.len() < l1.len() {
        let n = l2.len() as int;
        if n > 0 {
            assert(l1[n - 1] == l2[n - 1]);
            assert(rd(mem, l1[n - 1] as int) == next_of(l1, n - 1));
            assert(rd(mem, l2[n - 1] as int) == next_of(l2, n - 1));
        }
        assert(l1[n] != NONE_OFF);
    }
    assert(l1 =~= l2);
}

/// Two lists stored at one head agree up to position `n`.
proof fn lemma_stored_prefix(mem: Seq<u8>, meta: int, k: int, l1: Seq<u64>, l2: Seq<u64>, n: int)
    requires
        list_stored(mem, meta, k, l1),
        list_stored(mem, meta, k, l2),
        0 <= n < l1.len(),
        n < l2.len(),
    ensures
        l1[n] == l2[n],
    decreases n,
{
    if n > 0 {
        lemma_stored_prefix(mem, meta, k, l1, l2, n - 1);
        assert(rd(mem, l1[n - 1] as int) == next_of(l1, n - 1));
        assert(rd(mem, l2[n - 1] as int) == next_of(l2, n - 1));
    }
}

/// Reads free list `k` of the zone `[base, base + size)` from the image:
/// the blocks linked from the list's head word, each of order `k`, inside
/// the zone and after the end of the one before. `None` when the stored list
/// is not so.
fn read_list(mem: &PMem, meta: u64, base: u64, size: u64, k: usize) -> (r: Option<Vec<u64>>)
    requires
        mem@.len() <= u64::MAX,
        meta + 512 <= mem@.len(),
        base + size <= mem@.len(),
        3 <= k < 64,
    ensures
        r matches Some(l) ==> {
            &&& list_stored(mem@, meta as int, k as int, l@)
            &&& sorted(l@)
            &&& forall|i: int| 0 <= i < l@.len() ==> #[trigger] in_zone(l@[i] as int, k as int, base as int, size as int)
            &&& forall|i: int, j: int| 0 <= i < j < l@.len() ==> #[trigger] l@[i] + blk(k as int) <= #[trigger] l@[j]
        },
        r is None ==> forall|l: Seq<u64>| !#[trigger] good_list(mem@, meta as int, base as int, size as int, k as int, l),
{
    proof {
        lemma_blk(k as int);
        lemma_u64_shl_is_mul(1, k as u64);
    }
    let ghost has = exists|l: Seq<u64>| #[trigger] good_list(mem@, meta as int, base as int, size as int, k as int, l);
    let ghost w = choose|l: Seq<u64>| #[trigger] good_list(mem@, meta as int, base as int, size as int, k as int, l);
    let sz: u64 = 1u64 << (k as u64);
    let end: u64 = base + size;
    let hs: u64 = meta + 8 * (k as u64);
    let mut curr = mem.read_u64(hs);
    let mut lo: u64 = base;
    let mut l: Vec<u64> = Vec::new();
    loop
        invariant
            sz == blk(k as int),
            sz >= 8,
            end == base + size,
            base <= lo <= end,
            end <= mem@.len(),
            mem@.len() <= u64::MAX,
            hs == head_slot(meta as int, k as int),
            l@.len() == 0 ==> rd(mem@, hs as int) == curr && lo == base,
            l@.len() > 0 ==> rd(mem@, hs as int) == l@[0] && rd(mem@, l@.last() as int) == curr && lo == l@.last() + sz,
            forall|i: int| 0 <= i < l@.len() - 1 ==> #[trigger] rd(mem@, l@[i] as int) == l@[i + 1],
            forall|i: int| 0 <= i < l@.len() ==> #[trigger] in_zone(l@[i] as int, k as int, base as int, size as int),
            forall|i: int| 0 <= i < l@.len() ==> #[trigger] l@[i] + sz <= lo,
            forall|i: int, j: int| 0 <= i < j < l@.len() ==> #[trigger] l@[i] + blk(k as int) <= #[trigger] l@[j],
            has == exists|l: Seq<u64>| #[trigger] good_list(mem@, meta as int, base as int, size as int, k as int, l),
            has ==> good_list(mem@, meta as int, base as int, size as int, k as int, w),
            has ==> l@.len() <= w.len() && l@ == w.take(l@.len() as int),
            has ==> curr == if l@.len() < w.len() {
                w[l@.len() as int]
            } else {
                NONE_OFF
            },
        decreases end - lo,
    {
        if curr == NONE_OFF {
            proof {
                assert forall|i: int| 0 <= i < l@.len() implies #[trigger] rd(mem@, l@[i] as int) == next_of(l@, i) by {
                    if i == l@.len() - 1 {
                        assert(l@[i] == l@.last());
                    }
                }
                assert forall|i: int, j: int| 0 <= i < j < l@.len() implies l@[i] < l@[j] by {
                    assert(l@[i] + blk(k as int) <= l@[j]);
                }
            }
            return Some(l);
        }
        let b = curr;
        if b < lo || b > end || end - b < sz {
            proof {
                if has {
                    let i = l@.len() as int;
                    assert(i < w.len()) by {
                        if i >= w.len() {
                            assert(curr == NONE_OFF);
                        }
                    }
                    assert(in_zone(w[i] as int, k as int, base as int, size as int));
                    assert(b == w[i]);
                    if i > 0 {
                        assert(l@[i - 1] == w[i - 1]);
                        assert(l@.last() == l@[i - 1]);
                        assert(w[i - 1] + blk(k as int) <= w[i]);
                    }
                    assert(false);
                }
            }
            return None;
        }
        let ghost l0 = l@;
        l.push(b);
        lo = b + sz;
        curr = mem.read_u64(b);
        proof {
            assert(l@.last() == b);
            if has {
                let i = l0.len() as int;
                assert(i < w.len()) by {
                    if i >= w.len() {
                        assert(curr == NONE_OFF);
                    }
                }
                assert(l@ =~= w.take(i + 1));
                assert(rd(mem@, w[i] as int) == next_of(w, i));
            }
            assert forall|i: int| 0 <= i < l@.len() - 1 implies #[trigger] rd(mem@, l@[i] as int) == l@[i + 1] by {
                if i == l0.len() - 1 {
                    assert(l0.last() == l0[i]);
                } else {
                    assert(l@[i] == l0[i]);
                }
            }
            assert forall|i: int| 0 <= i < l@.len() implies #[trigger] in_zone(l@[i] as int, k as int, base as int, size as int) by {
                if i < l0.len() {
                    assert(l@[i] == l0[i]);
                }
            }
            assert forall|i: int| 0 <= i < l@.len() implies #[trigger] l@[i] + sz <= lo by {
                if i < l0.len() {
                    assert(l@[i] == l0[i]);
                }
            }
            assert forall|i: int, j: int| 0 <= i < j < l@.len() implies #[trigger] l@[i] + blk(k as int) <= #[trigger] l@[j] by {
                assert(l@[i] == if i < l0.len() { l0[i] } else { b });
                if j < l0.len() {
                    assert(l@[j] == l0[j]);
                } else {
                    assert(l0[i] + sz <= b);
                }
            }
        }
    }
}

/// Whether every block of order `ka` in `a` lies apart from every block of
/// order `kb` in `b`.
fn lists_apart(a: &Vec<u64>, ka: usize, sa: u64, b: &Vec<u64>, kb: usize, sb: u64) -> (r: bool)
    requires
        sa == blk(ka as int),
        sb == blk(kb as int),
        forall|i: int| 0 <= i < a@.len() ==> #[trigger] a@[i] + sa <= u64::MAX,
        forall|j: int| 0 <= j < b@.len() ==> #[trigger] b@[j] + sb <= u64::MAX,
    ensures
        r == forall|i: int, j: int| 0 <= i < a@.len() && 0 <= j < b@.len() ==> apart(#[trigger] a@[i] as int, ka as int, #[trigger] b@[j] as int, kb as int),
{
    let mut i: usize = 0;
    while i < a.len()
        invariant
            i <= a@.len(),
            sa == blk(ka as int),
            sb == blk(kb as int),
            forall|x: int| 0 <= x < a@.len() ==> #[trigger] a@[x] + sa <= u64::MAX,
            forall|y: int| 0 <= y < b@.len() ==> #[trigger] b@[y] + sb <= u64::MAX,
            forall|x: int, y: int| 0 <= x < i && 0 <= y < b@.len() ==> apart(#[trigger] a@[x] as int, ka as int, #[trigger] b@[y] as int, kb as int),
        decreases a@.len() - i,
    {
        let mut j: usize = 0;
        while j < b.len()
            invariant
                i < a@.len(),
                j <= b@.len(),
                sa == blk(ka as int),
                sb == blk(kb as int),
                forall|x: int| 0 <= x < a@.len() ==> #[trigger] a@[x] + sa <= u64::MAX,
                forall|y: int| 0 <= y < b@.len() ==> #[trigger] b@[y] + sb <= u64::MAX,
                forall|x: int, y: int| 0 <= x < i && 0 <= y < b@.len() ==> apart(#[trigger] a@[x] as int, ka as int, #[trigger] b@[y] as int, kb as int),
                forall|y: int| 0 <= y < j ==> apart(a@[i as int] as int, ka as int, #[trigger] b@[y] as int, kb as int),
            decreases b@.len() - j,
        {
            let x = a[i];
            let y = b[j];
            proof {
                assert(a@[i as int] + sa <= u64::MAX);
                assert(b@[j as int] + sb <= u64::MAX);
            }
            if !(x + sa <= y || y + sb <= x) {
                return false;
            }
            j = j + 1;
        }
        i = i + 1;
    }
    true
}

/// Every block of order `ka` in `la` lies apart from every block of order
/// `kb` in `lb`.
pub open spec fn all_apart(la: Seq<u64>, ka: int, lb: Seq<u64>, kb: int) -> bool {
    forall|i: int, j: int| 0 <= i < la.len() && 0 <= j < lb.len() ==> apart(#[trigger] la[i] as int, ka, #[trigger] lb[j] as int, kb)
}

/// A list of well formed stored zone lists is a good stored list whose
/// blocks are never the null offset.
proof fn lemma_witness_list(mem: Seq<u8>, meta: int, base: int, idx: int, lw: Seq<Seq<u64>>, k: int)
    requires
        stores_zone(mem, meta, base, idx, lw),
        0 <= k < 64,
        base + blk(idx) <= u64::MAX,
    ensures
        good_list(mem, meta, base, blk(idx), k, lw[k]),
        forall|i: int| 0 <= i < lw[k].len() ==> #[trigger] lw[k][i] != NONE_OFF,
{
    assert(list_stored(mem, meta, k, lw[k]));
    assert(sorted(lw[k]));
    assert forall|i: int| 0 <= i < lw[k].len() implies #[trigger] lw[k][i] != NONE_OFF by {
        assert(in_zone(lw[k][i] as int, k, base, blk(idx)));
        if k >= 3 {
            lemma_blk(k);
        } else {
            lemma_pow2_pos(k as nat);
        }
    }
    assert forall|i: int, j: int| 0 <= i < j < lw[k].len() implies #[trigger] lw[k][i] + blk(k) <= #[trigger] lw[k][j] by {
        assert(apart(lw[k][i] as int, k, lw[k][j] as int, k));
        assert(lw[k][i] < lw[k][j]);
    }
}

/// The bytes of the lists below order `n` grow with `n`.
proof fn lemma_total_upto_mono(ls: Seq<Seq<u64>>, n: int, m: int)
    requires
        0 <= n <= m,
    ensures
        total_upto(ls, n) <= total_upto(ls, m),
    decreases m - n,
{
    if n < m {
        lemma_total_upto_mono(ls, n, m - 1);
        let a = ls[m - 1].len() as int;
        let b = blk(m - 1);
        assert(a * b >= 0) by (nonlinear_arith)
            requires
                a >= 0,
                b >= 0,
        ;
    }
}

impl BuddyAlg {
    /// Takes up the zone of the largest power of two bytes that fits in
    /// `size`, starting at `base`, whose 64 list heads are stored at `meta`
    /// in the image: reads its free lists from the image, checking that each
    /// list holds blocks of its order inside the zone in increasing order,
    /// that the lists below order 3 and above the zone's order are empty, and
    /// that no two blocks meet. `None` when the image does not hold such
    /// lists.
    pub fn load(mem: &PMem, meta: u64, base: u64, size: usize) -> (r: Option<Self>)
        requires
            8 <= size <= 0x8000_0000_0000_0000u64,
            meta + 512 <= base || base + size <= meta,
            meta + 512 <= mem@.len(),
            base + size <= mem@.len(),
            mem@.len() <= u64::MAX,
        ensures
            r matches Some(a) ==> {
                &&& a.inv(mem@)
                &&& 3 <= a.last_order() < 64
                &&& blk(a.last_order()) <= size < blk(a.last_order() + 1)
                &&& a.zone_size() == blk(a.last_order())
                &&& a.zone_base() == base
                &&& a.meta_off() == meta
                &&& stores_zone(mem@, meta as int, base as int, a.last_order(), a.free_lists())
                &&& lists_stored(mem@, meta as int, a.free_lists())
                &&& a.pending_lists() == a.free_lists()
                &&& a.spec_available() == total(a.free_lists())
                &&& a.redo_log().len() == 0
                &&& a.word_log().len() == 0
                &&& a.drop_records().len() == 0
                &&& !a.in_operation()
                &&& a.lock_word() == 0
            },
            r is None ==> forall|kk: int, ls: Seq<Seq<u64>>|
                3 <= kk < 64 && blk(kk) <= size < blk(kk + 1) ==> !#[trigger] stores_zone(mem@, meta as int, base as int, kk, ls),
    {
        let ghost has = exists|kk: int, ls: Seq<Seq<u64>>|
            3 <= kk < 64 && blk(kk) <= size < blk(kk + 1) && #[trigger] stores_zone(mem@, meta as int, base as int, kk, ls);
        let ghost (kw, lw) = choose|kk: int, ls: Seq<Seq<u64>>|
            3 <= kk < 64 && blk(kk) <= size < blk(kk + 1) && #[trigger] stores_zone(mem@, meta as int, base as int, kk, ls);
        let mut idx = get_idx(size);
        proof {
            lemma_blk(idx as int);
            if idx == 64 {
                lemma_blk(63);
                assert(false);
            }
            lemma_u64_shl_is_mul(1, idx as u64);
        }
        if (1u64 << (idx as u64)) > size as u64 {
            proof {
                lemma2_to64();
            }
            idx = idx - 1;
        }
        proof {
            lemma_blk(idx as int);
            lemma_blk(idx as int + 1);
            lemma_u64_shl_is_mul(1, idx as u64);
        }
        let sz: u64 = 1u64 << (idx as u64);
        proof {
            if has {
                lemma_order_unique(kw, idx as int, size as int);
            }
        }
        let mut ls: Vec<Vec<u64>> = Vec::new();
        let mut k: usize = 0;
        while k < 64
            invariant
                k <= 64,
                ls@.len() == k,
                has == exists|kk: int, ls: Seq<Seq<u64>>|
                    3 <= kk < 64 && blk(kk) <= size < blk(kk + 1) && #[trigger] stores_zone(mem@, meta as int, base as int, kk, ls),
                has ==> kw == idx && stores_zone(mem@, meta as int, base as int, kw, lw),
                has ==> forall|j: int| 0 <= j < k ==> (#[trigger] ls@[j])@ == lw[j],
                3 <= idx < 64,
                sz == blk(idx as int),
                sz <= size,
                base + sz <= mem@.len(),
                meta + 512 <= mem@.len(),
                mem@.len() <= u64::MAX,
                forall|j: int|
                    0 <= j < k ==> {
                        &&& list_stored(mem@, meta as int, j, (#[trigger] ls@[j])@)
                        &&& sorted(ls@[j]@)
                        &&& (j < 3 || j > idx) ==> ls@[j]@.len() == 0
                        &&& forall|i: int| 0 <= i < ls@[j]@.len() ==> #[trigger] in_zone(ls@[j]@[i] as int, j, base as int, sz as int)
                        &&& forall|i: int, i2: int|
                            0 <= i < i2 < ls@[j]@.len() ==> #[trigger] ls@[j]@[i] + blk(j) <= #[trigger] ls@[j]@[i2]
                    },
            decreases 64 - k,
        {
            let ghost before = ls@;
            proof {
                if has {
                    lemma_witness_list(mem@, meta as int, base as int, idx as int, lw, k as int);
                    assert(list_stored(mem@, meta as int, k as int, lw[k as int]));
                }
            }
            if k < 3 || k > idx {
                if mem.read_u64(meta + 8 * (k as u64)) != NONE_OFF {
                    proof {
                        if has {
                            assert(lw[k as int].len() == 0);
                        }
                    }
                    proof {
                            assert(!has);
                            assert forall|kk: int, ls: Seq<Seq<u64>>|
                                3 <= kk < 64 && blk(kk) <= size < blk(kk + 1) implies !#[trigger] stores_zone(mem@, meta as int, base as int, kk, ls) by {
                                if stores_zone(mem@, meta as int, base as int, kk, ls) {
                                    assert(has);
                                }
                            }
                        }
                        return None;
                }
                ls.push(Vec::new());
                proof {
                    if has {
                        assert(lw[k as int].len() == 0);
                        assert(ls@[k as int]@ =~= lw[k as int]);
                    }
                }
            } else {
                match read_list(mem, meta, base, sz, k) {
                    None => {
                        proof {
                            assert(!has);
                            assert forall|kk: int, ls: Seq<Seq<u64>>|
                                3 <= kk < 64 && blk(kk) <= size < blk(kk + 1) implies !#[trigger] stores_zone(mem@, meta as int, base as int, kk, ls) by {
                                if stores_zone(mem@, meta as int, base as int, kk, ls) {
                                    assert(has);
                                }
                            }
                        }
                        return None;
                    },
                    Some(l) => {
                        proof {
                            if has {
                                assert forall|i: int| 0 <= i < l@.len() implies #[trigger] l@[i] != NONE_OFF by {
                                    assert(in_zone(l@[i] as int, k as int, base as int, sz as int));
                                    lemma_blk(k as int);
                                }
                                lemma_stored_unique(mem@, meta as int, k as int, l@, lw[k as int]);
                            }
                        }
                        ls.push(l);
                    },
                }
            }
            proof {
                assert forall|j: int| 0 <= j < k implies #[trigger] ls@[j] == before[j] by {}
            }
            k = k + 1;
        }
        let ghost lsv = Seq::new(64, |j: int| ls@[j]@);
        proof {
            if has {
                assert(lsv =~= lw);
            }
        }
        let mut k1: usize = 3;
        while k1 <= idx
            invariant
                3 <= k1 <= idx + 1,
                3 <= idx < 64,
                ls@.len() == 64,
                lsv == Seq::new(64, |j: int| ls@[j]@),
                sz == blk(idx as int),
                base + sz <= mem@.len(),
                mem@.len() <= u64::MAX,
                forall|j: int, i: int|
                    0 <= j < 64 && 0 <= i < lsv[j].len() ==> #[trigger] in_zone(lsv[j][i] as int, j, base as int, sz as int),
                forall|a: int, b: int| 3 <= a < k1 && a < b <= idx ==> #[trigger] all_apart(lsv[a], a, lsv[b], b),
                has == exists|kk: int, ls: Seq<Seq<u64>>|
                    3 <= kk < 64 && blk(kk) <= size < blk(kk + 1) && #[trigger] stores_zone(mem@, meta as int, base as int, kk, ls),
                has ==> lsv == lw && lists_disjoint(lw),
            decreases idx + 1 - k1,
        {
            let mut k2: usize = k1 + 1;
            while k2 <= idx
                invariant
                    3 <= k1 <= idx,
                    k1 + 1 <= k2 <= idx + 1,
                    3 <= idx < 64,
                    ls@.len() == 64,
                    lsv == Seq::new(64, |j: int| ls@[j]@),
                    sz == blk(idx as int),
                    base + sz <= mem@.len(),
                    mem@.len() <= u64::MAX,
                    forall|j: int, i: int|
                        0 <= j < 64 && 0 <= i < lsv[j].len() ==> #[trigger] in_zone(lsv[j][i] as int, j, base as int, sz as int),
                    forall|a: int, b: int| 3 <= a < k1 && a < b <= idx ==> #[trigger] all_apart(lsv[a], a, lsv[b], b),
                    forall|b: int| k1 < b < k2 ==> #[trigger] all_apart(lsv[k1 as int], k1 as int, lsv[b], b),
                    has == exists|kk: int, ls: Seq<Seq<u64>>|
                        3 <= kk < 64 && blk(kk) <= size < blk(kk + 1) && #[trigger] stores_zone(mem@, meta as int, base as int, kk, ls),
                    has ==> lsv == lw && lists_disjoint(lw),
                decreases idx + 1 - k2,
            {
                proof {
                    lemma_blk(k1 as int);
                    lemma_blk(k2 as int);
                    lemma_u64_shl_is_mul(1, k1 as u64);
                    lemma_u64_shl_is_mul(1, k2 as u64);
                    assert(lsv[k1 as int] == ls@[k1 as int]@);
                    assert(lsv[k2 as int] == ls@[k2 as int]@);
                    assert forall|i: int| 0 <= i < ls@[k1 as int]@.len() implies #[trigger] ls@[k1 as int]@[i] + blk(k1 as int) <= u64::MAX by {
                        assert(in_zone(lsv[k1 as int][i] as int, k1 as int, base as int, sz as int));
                    }
                    assert forall|i: int| 0 <= i < ls@[k2 as int]@.len() implies #[trigger] ls@[k2 as int]@[i] + blk(k2 as int) <= u64::MAX by {
                        assert(in_zone(lsv[k2 as int][i] as int, k2 as int, base as int, sz as int));
                    }
                }
                let s1: u64 = 1u64 << (k1 as u64);
                let s2: u64 = 1u64 << (k2 as u64);
                if !lists_apart(&ls[k1], k1, s1, &ls[k2], k2, s2) {
                    proof {
                        if has {
                            assert forall|i: int, j: int| 0 <= i < ls@[k1 as int]@.len() && 0 <= j < ls@[k2 as int]@.len() implies apart(
                                #[trigger] ls@[k1 as int]@[i] as int,
                                k1 as int,
                                #[trigger] ls@[k2 as int]@[j] as int,
                                k2 as int,
                            ) by {
                                assert(lw[k1 as int][i] == lsv[k1 as int][i]);
                                assert(lw[k2 as int][j] == lsv[k2 as int][j]);
                            }
                        }
                    }
                    proof {
                            assert(!has);
                            assert forall|kk: int, ls: Seq<Seq<u64>>|
                                3 <= kk < 64 && blk(kk) <= size < blk(kk + 1) implies !#[trigger] stores_zone(mem@, meta as int, base as int, kk, ls) by {
                                if stores_zone(mem@, meta as int, base as int, kk, ls) {
                                    assert(has);
                                }
                            }
                        }
                        return None;
                }
                k2 = k2 + 1;
            }
            k1 = k1 + 1;
        }
        proof {
            assert(lists_shape(lsv, base as int, sz as int, idx as int)) by {
                assert forall|j: int| 0 <= j < 64 implies #[trigger] sorted(lsv[j]) by {
                    assert(lsv[j] == ls@[j]@);
                }
                assert forall|j: int| 0 <= j < 64 && (j < 3 || j > idx) implies #[trigger] lsv[j].len() == 0 by {
                    assert(lsv[j] == ls@[j]@);
                }
            }
            assert(lists_disjoint(lsv)) by {
                assert forall|k1: int, i1: int, k2: int, i2: int|
                    0 <= k1 < 64 && 0 <= k2 < 64 && 0 <= i1 < lsv[k1].len() && 0 <= i2 < lsv[k2].len() && (k1 != k2
                        || i1 != i2) implies apart(#[trigger] lsv[k1][i1] as int, k1, #[trigger] lsv[k2][i2] as int, k2) by {
                    assert(lsv[k1] == ls@[k1]@);
                    assert(lsv[k2] == ls@[k2]@);
                    if k1 == k2 {
                        if i1 < i2 {
                            assert(ls@[k1]@[i1] + blk(k1) <= ls@[k1]@[i2]);
                        } else {
                            assert(ls@[k1]@[i2] + blk(k1) <= ls@[k1]@[i1]);
                        }
                    } else if k1 < k2 {
                        assert(all_apart(lsv[k1], k1, lsv[k2], k2));
                    } else {
                        assert(all_apart(lsv[k2], k2, lsv[k1], k1));
                    }
                }
            }
            assert(lists_stored(mem@, meta as int, lsv)) by {
                assert forall|j: int| 0 <= j < 64 implies #[trigger] list_stored(mem@, meta as int, j, lsv[j]) by {
                    assert(lsv[j] == ls@[j]@);
                }
            }
            lemma_total_le_size(lsv, base as int, sz as int, idx as int);
        }
        let mut avail: u64 = 0;
        let mut j: usize = 0;
        while j < 64
            invariant
                j <= 64,
                ls@.len() == 64,
                lsv == Seq::new(64, |t: int| ls@[t]@),
                3 <= idx < 64,
                lists_shape(lsv, base as int, sz as int, idx as int),
                total(lsv) <= sz,
                sz == blk(idx as int),
                avail == total_upto(lsv, j as int),
            decreases 64 - j,
        {
            proof {
                lemma_total_upto_mono(lsv, j as int + 1, 64);
                assert(lsv[j as int] == ls@[j as int]@);
            }
            let n = ls[j].len();
            proof {
                assert(total_upto(lsv, j + 1) == total_upto(lsv, j as int) + lsv[j as int].len() * blk(j as int));
                assert(total_upto(lsv, j + 1) <= total(lsv));
            }
            if n > 0 {
                proof {
                    assert(3 <= j <= idx);
                    lemma_blk(j as int);
                    lemma_u64_shl_is_mul(1, j as u64);
                }
                let sj: u64 = 1u64 << (j as u64);
                proof {
                    assert(n * sj == lsv[j as int].len() * blk(j as int));
                }
                avail = avail + (n as u64) * sj;
            } else {
                proof {
                    assert(lsv[j as int].len() == 0);
                    assert(lsv[j as int].len() * blk(j as int) == 0) by (nonlinear_arith)
                        requires
                            lsv[j as int].len() == 0,
                    ;
                }
            }
            j = j + 1;
        }
        let r = BuddyAlg {
            meta,
            last_idx: idx,
            available: avail as usize,
            size: sz as usize,
            aux: Ring::new(),
            log64: Ring::new(),
            drop_log: Ring::new(),
            aux_valid: false,
            available_log: avail as usize,
            mutex: 0,
            base: Ghost(base as int),
            lists: Ghost(lsv),
            pending: Ghost(lsv),
        };
        assert(apply_writes(mem@, r.aux@) == mem@);
        Some(r)
    }
}

} // verus!
