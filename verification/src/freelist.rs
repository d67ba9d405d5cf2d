//! Facts about taking one block out of a free list and putting one back in,
//! both on the lists as sequences and on their linked form in the image.

use vstd::prelude::*;
use vstd::arithmetic::power2::*;
use crate::pmem::{NONE_OFF, wr};
use crate::buddy::{
    blk, head_slot, next_of, list_stored, lists_stored, apart8, apart, sorted, in_zone, lists_shape,
    lists_disjoint, total, is_free, nodes_ok, lemma_blk, lemma_total_update, lemma_list_unlink,
    lemma_list_insert, lemma_lists_frame, lemma_step_pop,
};

verus! {

/// Number of leading offsets of `l` below `x`: in a sorted list, the position
/// of `x`, or where `x` belongs.
pub open spec fn lt_count(l: Seq<u64>, x: int) -> int
    decreases l.len(),
{
    if l.len() == 0 || l[0] >= x {
        0
    } else {
        1 + lt_count(l.drop_first(), x)
    }
}

/// A block of order `k` at `x` overlaps no block of the lists.
pub open spec fn fresh(ls: Seq<Seq<u64>>, x: int, k: int) -> bool {
    forall|k2: int, i2: int| 0 <= k2 < 64 && 0 <= i2 < ls[k2].len() ==> apart(x, k, #[trigger] ls[k2][i2] as int, k2)
}

/// The buddy of the block of order `k` at `off`: the neighbour it merges
/// with, on its right when bit `k` of `off` is clear, else on its left.
pub open spec fn buddy_of(off: u64, k: int) -> int {
    if off & (1u64 << (k as u64)) == 0 {
        off + blk(k)
    } else {
        off - blk(k)
    }
}

/// The lists after returning the block of order `k` at `off`: while its buddy
/// is free and the order is below `last`, the buddy leaves its list and the
/// two merge into a block of the next order; the final block joins its list
/// in offset order.
pub open spec fn freed_lists(ls: Seq<Seq<u64>>, off: u64, k: int, last: int) -> Seq<Seq<u64>>
    decreases last - k,
{
    let b = buddy_of(off, k);
    let l = ls[k];
    if 0 <= k < last && 0 <= b <= u64::MAX && l.contains(b as u64) {
        let m = if b < off {
            b as u64
        } else {
            off
        };
        freed_lists(ls.update(k, l.remove(lt_count(l, b))), m, k + 1, last)
    } else {
        ls.update(k, l.insert(lt_count(l, off as int), off))
    }
}

/// The position that `lt_count` gives.
pub proof fn lemma_lt_count_props(l: Seq<u64>, x: int)
    requires
        sorted(l),
    ensures
        0 <= lt_count(l, x) <= l.len(),
        forall|t: int| 0 <= t < lt_count(l, x) ==> #[trigger] l[t] < x,
        lt_count(l, x) < l.len() ==> l[lt_count(l, x)] >= x,
    decreases l.len(),
{
    if l.len() > 0 && l[0] < x {
        let d = l.drop_first();
        assert forall|a: int, b: int| 0 <= a < b < d.len() implies d[a] < d[b] by {
            assert(d[a] == l[a + 1]);
            assert(d[b] == l[b + 1]);
        }
        lemma_lt_count_props(d, x);
        assert forall|t: int| 0 <= t < lt_count(l, x) implies #[trigger] l[t] < x by {
            if t > 0 {
                assert(l[t] == d[t - 1]);
            }
        }
        if lt_count(l, x) < l.len() {
            assert(l[lt_count(l, x)] == d[lt_count(d, x)]);
        }
    }
}

/// `lt_count` is the one position with smaller offsets before it and none after.
pub proof fn lemma_lt_count(l: Seq<u64>, x: int, j: int)
    requires
        sorted(l),
        0 <= j <= l.len(),
        forall|t: int| 0 <= t < j ==> #[trigger] l[t] < x,
        j < l.len() ==> l[j] >= x,
    ensures
        lt_count(l, x) == j,
    decreases l.len(),
{
    if l.len() > 0 && j > 0 {
        let d = l.drop_first();
        assert(l[0] < x);
        assert forall|a: int, b: int| 0 <= a < b < d.len() implies d[a] < d[b] by {
            assert(d[a] == l[a + 1]);
            assert(d[b] == l[b + 1]);
        }
        assert forall|t: int| 0 <= t < j - 1 implies #[trigger] d[t] < x by {
            assert(d[t] == l[t + 1]);
        }
        if j - 1 < d.len() {
            assert(d[j - 1] == l[j]);
        }
        lemma_lt_count(d, x, j - 1);
    }
}

/// A block none of whose bytes is free overlaps no free block.
pub proof fn lemma_not_free_fresh(ls: Seq<Seq<u64>>, x: int, k: int)
    requires
        ls.len() == 64,
        blk(k) > 0,
        forall|p: int| x <= p < x + blk(k) ==> !#[trigger] is_free(ls, p),
    ensures
        fresh(ls, x, k),
{
    assert forall|k2: int, i2: int| 0 <= k2 < 64 && 0 <= i2 < ls[k2].len() implies apart(
        x,
        k,
        #[trigger] ls[k2][i2] as int,
        k2,
    ) by {
        let y = ls[k2][i2] as int;
        if !apart(x, k, y, k2) {
            let p = if x < y {
                y
            } else {
                x
            };
            lemma_pow2_pos(k2 as nat);
            assert(ls[k2][i2] <= p < ls[k2][i2] + blk(k2) && ls[k2][i2] == ls[k2][i2]);
            assert(is_free(ls, p));
        }
    }
}

/// Taking block `i` out of list `k` keeps the lists well shaped and disjoint,
/// frees none of its bytes any more, and lowers the total by its size.
pub proof fn lemma_remove_ok(ls: Seq<Seq<u64>>, k: int, i: int, base: int, size: int, last: int)
    requires
        lists_shape(ls, base, size, last),
        lists_disjoint(ls),
        0 <= k < 64,
        0 <= i < ls[k].len(),
    ensures
        ({
            let ls2 = ls.update(k, ls[k].remove(i));
            let b = ls[k][i] as int;
            &&& lists_shape(ls2, base, size, last)
            &&& lists_disjoint(ls2)
            &&& total(ls2) == total(ls) - blk(k)
            &&& forall|p: int| #[trigger] is_free(ls2, p) <==> is_free(ls, p) && !(b <= p < b + blk(k))
            &&& forall|k2: int, i2: int|
                0 <= k2 < 64 && 0 <= i2 < ls2[k2].len() ==> apart(b, k, #[trigger] ls2[k2][i2] as int, k2)
        }),
{
    let l = ls[k];
    let l2 = l.remove(i);
    let ls2 = ls.update(k, l2);
    let b = l[i] as int;
    // the old position of each block of the new lists
    assert forall|k2: int, i2: int| 0 <= k2 < 64 && 0 <= i2 < ls2[k2].len() implies #[trigger] ls2[k2][i2]
        == ls[k2][if k2 == k && i2 >= i { i2 + 1 } else { i2 }] by {}
    assert forall|kk: int| 0 <= kk < 64 implies #[trigger] sorted(ls2[kk]) by {
        assert(sorted(ls[kk]));
        if kk == k {
            assert forall|a: int, c: int| 0 <= a < c < ls2[kk].len() implies ls2[kk][a] < ls2[kk][c] by {
                let oa = if a >= i { a + 1 } else { a };
                let oc = if c >= i { c + 1 } else { c };
                assert(ls2[kk][a] == ls[kk][oa]);
                assert(ls2[kk][c] == ls[kk][oc]);
            }
        }
    }
    assert forall|kk: int| 0 <= kk < 64 && (kk < 3 || kk > last) implies #[trigger] ls2[kk].len() == 0 by {
        assert(ls[kk].len() == 0);
    }
    assert forall|k2: int, i2: int| 0 <= k2 < 64 && 0 <= i2 < ls2[k2].len() implies #[trigger] in_zone(
        ls2[k2][i2] as int,
        k2,
        base,
        size,
    ) by {
        let o = if k2 == k && i2 >= i {
            i2 + 1
        } else {
            i2
        };
        assert(in_zone(ls[k2][o] as int, k2, base, size));
    }
    assert forall|k1: int, i1: int, k2: int, i2: int|
        0 <= k1 < 64 && 0 <= k2 < 64 && 0 <= i1 < ls2[k1].len() && 0 <= i2 < ls2[k2].len() && (k1 != k2
            || i1 != i2) implies apart(#[trigger] ls2[k1][i1] as int, k1, #[trigger] ls2[k2][i2] as int, k2) by {
        let o1 = if k1 == k && i1 >= i {
            i1 + 1
        } else {
            i1
        };
        let o2 = if k2 == k && i2 >= i {
            i2 + 1
        } else {
            i2
        };
        assert(apart(ls[k1][o1] as int, k1, ls[k2][o2] as int, k2));
    }
    assert forall|k2: int, i2: int| 0 <= k2 < 64 && 0 <= i2 < ls2[k2].len() implies apart(
        b,
        k,
        #[trigger] ls2[k2][i2] as int,
        k2,
    ) by {
        let o = if k2 == k && i2 >= i {
            i2 + 1
        } else {
            i2
        };
        assert(apart(ls[k][i] as int, k, ls[k2][o] as int, k2));
    }
    lemma_total_update(ls, k, l2, 64);
    assert((l2.len() - l.len()) * blk(k) == -blk(k)) by (nonlinear_arith)
        requires
            l2.len() == l.len() - 1,
    ;
    assert forall|p: int| #[trigger] is_free(ls2, p) <==> is_free(ls, p) && !(b <= p < b + blk(k)) by {
        if is_free(ls2, p) {
            let (k2, i2) = choose|k2: int, i2: int|
                0 <= k2 < 64 && 0 <= i2 < ls2[k2].len() && ls2[k2][i2] <= p < ls2[k2][i2] + blk(k2)
                    && #[trigger] ls2[k2][i2] == ls2[k2][i2];
            let o = if k2 == k && i2 >= i {
                i2 + 1
            } else {
                i2
            };
            assert(ls[k2][o] <= p < ls[k2][o] + blk(k2) && ls[k2][o] == ls[k2][o]);
            assert(apart(ls[k][i] as int, k, ls[k2][o] as int, k2));
        }
        if is_free(ls, p) && !(b <= p < b + blk(k)) {
            let (k2, i2) = choose|k2: int, i2: int|
                0 <= k2 < 64 && 0 <= i2 < ls[k2].len() && ls[k2][i2] <= p < ls[k2][i2] + blk(k2)
                    && #[trigger] ls[k2][i2] == ls[k2][i2];
            assert(!(k2 == k && i2 == i));
            let n = if k2 == k && i2 > i {
                i2 - 1
            } else {
                i2
            };
            assert(ls2[k2][n] == ls[k2][i2]);
            assert(ls2[k2][n] <= p < ls2[k2][n] + blk(k2) && ls2[k2][n] == ls2[k2][n]);
        }
    }
}

/// Putting a fresh block of order `k` into its list at its place in offset
/// order keeps the lists well shaped and disjoint, frees its bytes, and raises
/// the total by its size.
pub proof fn lemma_insert_ok(ls: Seq<Seq<u64>>, k: int, x: u64, base: int, size: int, last: int)
    requires
        lists_shape(ls, base, size, last),
        lists_disjoint(ls),
        3 <= k <= last,
        last < 64,
        in_zone(x as int, k, base, size),
        fresh(ls, x as int, k),
    ensures
        ({
            let j = lt_count(ls[k], x as int);
            let ls2 = ls.update(k, ls[k].insert(j, x));
            &&& 0 <= j <= ls[k].len()
            &&& forall|t: int| 0 <= t < j ==> #[trigger] ls[k][t] < x
            &&& j < ls[k].len() ==> ls[k][j] > x
            &&& lists_shape(ls2, base, size, last)
            &&& lists_disjoint(ls2)
            &&& total(ls2) == total(ls) + blk(k)
            &&& forall|p: int| #[trigger] is_free(ls2, p) <==> is_free(ls, p) || (x <= p < x + blk(k))
        }),
{
    let l = ls[k];
    assert(sorted(l));
    lemma_lt_count_props(l, x as int);
    let j = lt_count(l, x as int);
    lemma_blk(k);
    if j < l.len() {
        assert(apart(x as int, k, l[j] as int, k));
    }
    let l2 = l.insert(j, x);
    let ls2 = ls.update(k, l2);
    assert forall|kk: int| 0 <= kk < 64 implies #[trigger] sorted(ls2[kk]) by {
        assert(sorted(ls[kk]));
        if kk == k {
            assert forall|a: int, c: int| 0 <= a < c < l2.len() implies l2[a] < l2[c] by {
                if a < j {
                    assert(l2[a] == l[a]);
                } else if a > j {
                    assert(l2[a] == l[a - 1]);
                }
                if c < j {
                    assert(l2[c] == l[c]);
                } else if c > j {
                    assert(l2[c] == l[c - 1]);
                    assert(l[j] <= l[c - 1]);
                }
            }
        }
    }
    assert forall|kk: int| 0 <= kk < 64 && (kk < 3 || kk > last) implies #[trigger] ls2[kk].len() == 0 by {
        assert(ls[kk].len() == 0);
    }
    // the old position of each old block of the new lists
    assert forall|k2: int, i2: int|
        0 <= k2 < 64 && 0 <= i2 < ls2[k2].len() && !(k2 == k && i2 == j) implies #[trigger] ls2[k2][i2]
        == ls[k2][if k2 == k && i2 > j { i2 - 1 } else { i2 }] by {}
    assert forall|k2: int, i2: int| 0 <= k2 < 64 && 0 <= i2 < ls2[k2].len() implies #[trigger] in_zone(
        ls2[k2][i2] as int,
        k2,
        base,
        size,
    ) by {
        if !(k2 == k && i2 == j) {
            let o = if k2 == k && i2 > j {
                i2 - 1
            } else {
                i2
            };
            assert(in_zone(ls[k2][o] as int, k2, base, size));
        }
    }
    assert forall|k1: int, i1: int, k2: int, i2: int|
        0 <= k1 < 64 && 0 <= k2 < 64 && 0 <= i1 < ls2[k1].len() && 0 <= i2 < ls2[k2].len() && (k1 != k2
            || i1 != i2) implies apart(#[trigger] ls2[k1][i1] as int, k1, #[trigger] ls2[k2][i2] as int, k2) by {
        let new1 = k1 == k && i1 == j;
        let new2 = k2 == k && i2 == j;
        let o1 = if k1 == k && i1 > j {
            i1 - 1
        } else {
            i1
        };
        let o2 = if k2 == k && i2 > j {
            i2 - 1
        } else {
            i2
        };
        if new1 {
            assert(apart(x as int, k, ls[k2][o2] as int, k2));
        } else if new2 {
            assert(apart(x as int, k, ls[k1][o1] as int, k1));
        } else {
            assert(apart(ls[k1][o1] as int, k1, ls[k2][o2] as int, k2));
        }
    }
    lemma_total_update(ls, k, l2, 64);
    assert((l2.len() - l.len()) * blk(k) == blk(k)) by (nonlinear_arith)
        requires
            l2.len() == l.len() + 1,
    ;
    assert forall|p: int| #[trigger] is_free(ls2, p) <==> is_free(ls, p) || (x <= p < x + blk(k)) by {
        if is_free(ls2, p) {
            let (k2, i2) = choose|k2: int, i2: int|
                0 <= k2 < 64 && 0 <= i2 < ls2[k2].len() && ls2[k2][i2] <= p < ls2[k2][i2] + blk(k2)
                    && #[trigger] ls2[k2][i2] == ls2[k2][i2];
            if !(k2 == k && i2 == j) {
                let o = if k2 == k && i2 > j {
                    i2 - 1
                } else {
                    i2
                };
                assert(ls[k2][o] <= p < ls[k2][o] + blk(k2) && ls[k2][o] == ls[k2][o]);
            }
        }
        if is_free(ls, p) {
            let (k2, i2) = choose|k2: int, i2: int|
                0 <= k2 < 64 && 0 <= i2 < ls[k2].len() && ls[k2][i2] <= p < ls[k2][i2] + blk(k2)
                    && #[trigger] ls[k2][i2] == ls[k2][i2];
            let n = if k2 == k && i2 >= j {
                i2 + 1
            } else {
                i2
            };
            assert(ls2[k2][n] == ls[k2][i2]);
            assert(ls2[k2][n] <= p < ls2[k2][n] + blk(k2) && ls2[k2][n] == ls2[k2][n]);
        }
        if x <= p < x + blk(k) {
            assert(ls2[k][j] == x);
            assert(ls2[k][j] <= p < ls2[k][j] + blk(k) && ls2[k][j] == ls2[k][j]);
        }
    }
}

/// A fresh block and its free buddy of the same order merge into a fresh
/// block of the next order, once the buddy has left its list.
pub proof fn lemma_merge_ok(ls: Seq<Seq<u64>>, k: int, i: int, off: u64, base: int, size: int, last: int)
    requires
        lists_shape(ls, base, size, last),
        lists_disjoint(ls),
        3 <= k < last,
        last < 64,
        0 <= i < ls[k].len(),
        ls[k][i] == off + blk(k) || ls[k][i] + blk(k) == off,
        in_zone(off as int, k, base, size),
        fresh(ls, off as int, k),
    ensures
        ({
            let b = ls[k][i];
            let m = if b < off {
                b
            } else {
                off
            };
            let ls2 = ls.update(k, ls[k].remove(i));
            &&& in_zone(m as int, k + 1, base, size)
            &&& fresh(ls2, m as int, k + 1)
            &&& blk(k + 1) == 2 * blk(k)
        }),
{
    let b = ls[k][i];
    let m = if b < off {
        b
    } else {
        off
    };
    lemma_blk(k + 1);
    assert(in_zone(b as int, k, base, size));
    lemma_remove_ok(ls, k, i, base, size, last);
    let ls2 = ls.update(k, ls[k].remove(i));
    assert forall|k2: int, i2: int| 0 <= k2 < 64 && 0 <= i2 < ls2[k2].len() implies apart(
        m as int,
        k + 1,
        #[trigger] ls2[k2][i2] as int,
        k2,
    ) by {
        let o = if k2 == k && i2 >= i {
            i2 + 1
        } else {
            i2
        };
        assert(ls2[k2][i2] == ls[k2][o]);
        assert(apart(off as int, k, ls[k2][o] as int, k2));
        assert(apart(b as int, k, ls2[k2][i2] as int, k2));
        assert(k2 >= 3) by {
            if k2 < 3 {
                assert(ls2[k2].len() == 0);
            }
        }
        lemma_blk(k2);
    }
}

/// Unlinking block `i` of list `k` (through the head word when `i == 0`)
/// keeps all lists stored.
pub proof fn lemma_step_unlink(s: Seq<u8>, meta: int, ls: Seq<Seq<u64>>, k: int, i: int)
    requires
        lists_stored(s, meta, ls),
        nodes_ok(ls, meta, s.len() as int),
        lists_disjoint(ls),
        forall|kk: int| 0 <= kk < 3 ==> #[trigger] ls[kk].len() == 0,
        0 <= meta,
        meta + 512 <= s.len(),
        ls.len() == 64,
        0 <= k < 64,
        0 <= i < ls[k].len(),
    ensures
        lists_stored(
            wr(s, if i == 0 { head_slot(meta, k) } else { ls[k][i - 1] as int }, next_of(ls[k], i)),
            meta,
            ls.update(k, ls[k].remove(i)),
        ),
{
    if i == 0 {
        lemma_step_pop(s, meta, ls, k);
        assert(ls[k].remove(0) =~= ls[k].drop_first());
    } else {
        let l = ls[k];
        let a = l[i - 1] as int;
        let v = next_of(l, i);
        assert(k >= 3) by {
            if k < 3 {
                assert(ls[k].len() == 0);
            }
        }
        assert forall|k2: int| 0 <= k2 < 64 && k2 != k implies #[trigger] apart8(a, head_slot(meta, k2)) by {
            assert(apart8(head_slot(meta, k2), ls[k][i - 1] as int));
        }
        assert forall|k2: int, i2: int| 0 <= k2 < 64 && k2 != k && 0 <= i2 < ls[k2].len() implies apart8(
            a,
            #[trigger] ls[k2][i2] as int,
        ) by {
            assert(apart(ls[k][i - 1] as int, k, ls[k2][i2] as int, k2));
            assert(k2 >= 3) by {
                if k2 < 3 {
                    assert(ls[k2].len() == 0);
                }
            }
            lemma_blk(k);
            lemma_blk(k2);
        }
        assert(l[i - 1] + 8 <= s.len());
        lemma_lists_frame(s, meta, ls, a, v, k);
        assert(list_stored(s, meta, k, l));
        assert forall|j: int| 0 <= j < l.len() implies (#[trigger] l[j]) + 8 <= s.len() && apart8(
            head_slot(meta, k),
            l[j] as int,
        ) by {
            assert(apart8(head_slot(meta, k), ls[k][j] as int) && head_slot(meta, k) >= 0);
        }
        assert(head_slot(meta, k) >= 0) by {
            assert(apart8(head_slot(meta, k), ls[k][0] as int) && head_slot(meta, k) >= 0);
        }
        lemma_list_unlink(s, meta, k, l, i);
        let ls2 = ls.update(k, l.remove(i));
        assert forall|kk: int| 0 <= kk < 64 implies #[trigger] list_stored(wr(s, a, v), meta, kk, ls2[kk]) by {
            if kk != k {
                assert(ls2[kk] == ls[kk]);
            }
        }
    }
}

/// Linking a new block `x` into list `k` at position `j` (its header first,
/// then the head word or the header of block `j - 1`) keeps all lists stored.
pub proof fn lemma_step_insert(s: Seq<u8>, meta: int, ls: Seq<Seq<u64>>, k: int, j: int, x: u64)
    requires
        lists_stored(s, meta, ls),
        nodes_ok(ls, meta, s.len() as int),
        lists_disjoint(ls),
        forall|kk: int| 0 <= kk < 3 ==> #[trigger] ls[kk].len() == 0,
        0 <= meta,
        meta + 512 <= s.len(),
        ls.len() == 64,
        3 <= k < 64,
        0 <= j <= ls[k].len(),
        x + 8 <= s.len(),
        x + 8 <= meta || meta + 512 <= x,
        forall|k2: int, i2: int| 0 <= k2 < 64 && 0 <= i2 < ls[k2].len() ==> apart8(x as int, #[trigger] ls[k2][i2] as int),
    ensures
        ({
            let l = ls[k];
            let s1 = wr(s, x as int, if j < l.len() { l[j] } else { NONE_OFF });
            let s2 = wr(s1, if j == 0 { head_slot(meta, k) } else { l[j - 1] as int }, x);
            lists_stored(s2, meta, ls.update(k, l.insert(j, x)))
        }),
{
    let l = ls[k];
    let succ = if j < l.len() {
        l[j]
    } else {
        NONE_OFF
    };
    let s1 = wr(s, x as int, succ);
    lemma_lists_frame(s, meta, ls, x as int, succ, -1);
    lemma_wr_len(s, x as int, succ);
    let a = if j == 0 {
        head_slot(meta, k)
    } else {
        l[j - 1] as int
    };
    assert forall|k2: int| 0 <= k2 < 64 && k2 != k implies #[trigger] apart8(a, head_slot(meta, k2)) by {
        if j > 0 {
            assert(apart8(head_slot(meta, k2), ls[k][j - 1] as int));
        }
    }
    assert forall|k2: int, i2: int| 0 <= k2 < 64 && k2 != k && 0 <= i2 < ls[k2].len() implies apart8(
        a,
        #[trigger] ls[k2][i2] as int,
    ) by {
        assert(k2 >= 3) by {
            if k2 < 3 {
                assert(ls[k2].len() == 0);
            }
        }
        if j > 0 {
            assert(apart(ls[k][j - 1] as int, k, ls[k2][i2] as int, k2));
            lemma_blk(k);
            lemma_blk(k2);
        } else {
            assert(apart8(head_slot(meta, k), ls[k2][i2] as int) && head_slot(meta, k) >= 0);
        }
    }
    if j > 0 {
        assert(l[j - 1] + 8 <= s.len());
    }
    lemma_lists_frame(s1, meta, ls, a, x, k);
    assert(list_stored(s, meta, k, l));
    assert forall|i: int| 0 <= i < l.len() implies (#[trigger] l[i]) + 8 <= s.len() && apart8(
        head_slot(meta, k),
        l[i] as int,
    ) && apart8(x as int, l[i] as int) by {
        assert(apart8(head_slot(meta, k), ls[k][i] as int) && head_slot(meta, k) >= 0);
    }
    lemma_list_insert(s, meta, k, l, j, x);
    let ls2 = ls.update(k, l.insert(j, x));
    assert forall|kk: int| 0 <= kk < 64 implies #[trigger] list_stored(wr(s1, a, x), meta, kk, ls2[kk]) by {
        if kk != k {
            assert(ls2[kk] == ls[kk]);
        }
    }
}

proof fn lemma_wr_len(s: Seq<u8>, a: int, v: u64)
    requires
        0 <= a,
        a + 8 <= s.len(),
    ensures
        wr(s, a, v).len() == s.len(),
{
    crate::pmem::lemma_wr(s, a, v);
}

} // verus!
