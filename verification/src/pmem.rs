//! The byte image of a persistent memory region, with 64-bit little-endian
//! loads and stores and byte copies.

use vstd::prelude::*;
use vstd::bytes::*;

verus! {

/// The offset that stands for "no object" (a null persistent pointer).
pub const NONE_OFF: u64 = 0xffff_ffff_ffff_ffffu64;

/// The 64-bit word stored at byte offset `a` of image `s`.
pub open spec fn rd(s: Seq<u8>, a: int) -> u64 {
    spec_u64_from_le_bytes(s.subrange(a, a + 8))
}

/// Image `s` after storing word `v` at byte offset `a`.
pub open spec fn wr(s: Seq<u8>, a: int, v: u64) -> Seq<u8> {
    s.subrange(0, a) + spec_u64_to_le_bytes(v) + s.subrange(a + 8, s.len() as int)
}

/// Image `s` after copying `len` bytes from offset `src` to offset `dst`.
pub open spec fn copied(s: Seq<u8>, src: int, dst: int, len: int) -> Seq<u8> {
    Seq::new(
        s.len(),
        |p: int|
            if dst <= p < dst + len {
                s[src + (p - dst)]
            } else {
                s[p]
            },
    )
}

/// Image `s` after storing the bytes `b` at offset `a`.
pub open spec fn written(s: Seq<u8>, a: int, b: Seq<u8>) -> Seq<u8> {
    Seq::new(s.len(), |p: int| if a <= p < a + b.len() { b[p - a] } else { s[p] })
}

/// Image `s` after the word stores `ws`, performed in order.
pub open spec fn apply_writes(s: Seq<u8>, ws: Seq<(u64, u64)>) -> Seq<u8>
    decreases ws.len(),
{
    if ws.len() == 0 {
        s
    } else {
        wr(apply_writes(s, ws.drop_last()), ws.last().0 as int, ws.last().1)
    }
}

/// Every store of `ws` fits in an image of `len` bytes.
pub open spec fn writes_in_bounds(ws: Seq<(u64, u64)>, len: int) -> bool {
    forall|j: int| 0 <= j < ws.len() ==> #[trigger] ws[j].0 + 8 <= len
}

/// Some store of `ws` writes byte `p`.
pub open spec fn covers(ws: Seq<(u64, u64)>, p: int) -> bool {
    exists|j: int| 0 <= j < ws.len() && #[trigger] ws[j].0 <= p < ws[j].0 + 8
}

/// The persistent memory region of a pool, byte-addressed from offset 0.
pub struct PMem {
    bytes: Vec<u8>,
}

impl View for PMem {
    type V = Seq<u8>;

    closed spec fn view(&self) -> Seq<u8> {
        self.bytes@
    }
}

/// Length of `wr` and reading back what was written.
pub proof fn lemma_wr(s: Seq<u8>, a: int, v: u64)
    requires
        0 <= a,
        a + 8 <= s.len(),
    ensures
        wr(s, a, v).len() == s.len(),
        rd(wr(s, a, v), a) == v,
        forall|p: int|
            0 <= p < s.len() ==> #[trigger] wr(s, a, v)[p] == if a <= p < a + 8 {
                spec_u64_to_le_bytes(v)[p - a]
            } else {
                s[p]
            },
{
    lemma_auto_spec_u64_to_from_le_bytes();
    assert(wr(s, a, v).subrange(a, a + 8) =~= spec_u64_to_le_bytes(v));
}

/// A store leaves the words that it does not overlap unchanged.
pub proof fn lemma_rd_wr_other(s: Seq<u8>, a: int, v: u64, b: int)
    requires
        0 <= a,
        a + 8 <= s.len(),
        0 <= b,
        b + 8 <= s.len(),
        a + 8 <= b || b + 8 <= a,
    ensures
        rd(wr(s, a, v), b) == rd(s, b),
{
    lemma_wr(s, a, v);
    assert(wr(s, a, v).subrange(b, b + 8) =~= s.subrange(b, b + 8));
}

/// Two images that agree on the 8 bytes at `a` hold the same word there.
pub proof fn lemma_rd_agree(s1: Seq<u8>, s2: Seq<u8>, a: int)
    requires
        0 <= a,
        a + 8 <= s1.len(),
        a + 8 <= s2.len(),
        forall|p: int| a <= p < a + 8 ==> #[trigger] s1[p] == s2[p],
    ensures
        rd(s1, a) == rd(s2, a),
{
    assert(s1.subrange(a, a + 8) =~= s2.subrange(a, a + 8));
}

/// Stores keep the length of the image and write exactly the bytes they cover.
pub proof fn lemma_apply_writes(s: Seq<u8>, ws: Seq<(u64, u64)>)
    requires
        writes_in_bounds(ws, s.len() as int),
    ensures
        apply_writes(s, ws).len() == s.len(),
        forall|p: int|
            0 <= p < s.len() && !covers(ws, p) ==> #[trigger] apply_writes(s, ws)[p] == s[p],
    decreases ws.len(),
{
    if ws.len() > 0 {
        let init = ws.drop_last();
        assert(writes_in_bounds(init, s.len() as int)) by {
            assert forall|j: int| 0 <= j < init.len() implies #[trigger] init[j].0 + 8 <= s.len() by {
                assert(init[j] == ws[j]);
            }
        }
        lemma_apply_writes(s, init);
        let w = ws.last();
        assert(w == ws[ws.len() - 1]);
        lemma_wr(apply_writes(s, init), w.0 as int, w.1);
        assert forall|p: int| 0 <= p < s.len() && !covers(ws, p) implies #[trigger] apply_writes(
            s,
            ws,
        )[p] == s[p] by {
            if covers(init, p) {
                let j = choose|j: int| 0 <= j < init.len() && #[trigger] init[j].0 <= p < init[j].0 + 8;
                assert(ws[j] == init[j]);
            }
            if w.0 <= p < w.0 + 8 {
                assert(ws[ws.len() - 1].0 <= p < ws[ws.len() - 1].0 + 8);
            }
        }
    }
}

/// Applying the same stores to two images gives images that agree on every
/// byte where the originals agree or that some store writes.
proof fn lemma_apply_writes_agree(s1: Seq<u8>, s2: Seq<u8>, ws: Seq<(u64, u64)>, p: int)
    requires
        s1.len() == s2.len(),
        writes_in_bounds(ws, s1.len() as int),
        0 <= p < s1.len(),
        s1[p] == s2[p] || covers(ws, p),
    ensures
        apply_writes(s1, ws)[p] == apply_writes(s2, ws)[p],
    decreases ws.len(),
{
    if ws.len() > 0 {
        let init = ws.drop_last();
        let w = ws.last();
        assert(w == ws[ws.len() - 1]);
        assert(writes_in_bounds(init, s1.len() as int)) by {
            assert forall|j: int| 0 <= j < init.len() implies #[trigger] init[j].0 + 8 <= s1.len() by {
                assert(init[j] == ws[j]);
            }
        }
        lemma_apply_writes(s1, init);
        lemma_apply_writes(s2, init);
        lemma_wr(apply_writes(s1, init), w.0 as int, w.1);
        lemma_wr(apply_writes(s2, init), w.0 as int, w.1);
        if !(w.0 <= p < w.0 + 8) {
            if covers(ws, p) && s1[p] != s2[p] {
                let j = choose|j: int| 0 <= j < ws.len() && #[trigger] ws[j].0 <= p < ws[j].0 + 8;
                assert(j < ws.len() - 1);
                assert(init[j] == ws[j]);
                assert(covers(init, p));
            }
            lemma_apply_writes_agree(s1, s2, init, p);
        }
    }
}

/// Redoing a log of stores from the start, after any prefix of it was already
/// performed, gives the same image as performing the log once.
pub proof fn lemma_redo_idempotent(s: Seq<u8>, ws: Seq<(u64, u64)>, k: int)
    requires
        writes_in_bounds(ws, s.len() as int),
        0 <= k <= ws.len(),
    ensures
        apply_writes(apply_writes(s, ws.take(k)), ws) == apply_writes(s, ws),
{
    let pre = ws.take(k);
    assert(writes_in_bounds(pre, s.len() as int)) by {
        assert forall|j: int| 0 <= j < pre.len() implies #[trigger] pre[j].0 + 8 <= s.len() by {
            assert(pre[j] == ws[j]);
        }
    }
    lemma_apply_writes(s, pre);
    let s1 = apply_writes(s, pre);
    lemma_apply_writes(s1, ws);
    lemma_apply_writes(s, ws);
    assert forall|p: int| 0 <= p < s.len() implies #[trigger] apply_writes(s1, ws)[p]
        == apply_writes(s, ws)[p] by {
        if !covers(ws, p) {
            if covers(pre, p) {
                let j = choose|j: int| 0 <= j < pre.len() && #[trigger] pre[j].0 <= p < pre[j].0 + 8;
                assert(ws[j] == pre[j]);
            }
        }
        lemma_apply_writes_agree(s1, s, ws, p);
    }
    assert(apply_writes(s1, ws) =~= apply_writes(s, ws));
}

impl PMem {
    /// A zero-filled region of `size` bytes.
    pub fn new(size: usize) -> (r: Self)
        ensures
            r@ == Seq::new(size as nat, |i: int| 0u8),
    {
        let mut bytes: Vec<u8> = Vec::new();
        let mut i: usize = 0;
        while i < size
            invariant
                i <= size,
                bytes@ =~= Seq::new(i as nat, |j: int| 0u8),
            decreases size - i,
        {
            bytes.push(0u8);
            i = i + 1;
        }
        PMem { bytes }
    }

    /// A region holding the given image.
    pub fn from_bytes(bytes: Vec<u8>) -> (r: Self)
        ensures
            r@ == bytes@,
    {
        PMem { bytes }
    }

    /// Size of the region in bytes.
    pub fn len(&self) -> (r: usize)
        ensures
            r == self@.len(),
    {
        self.bytes.len()
    }

    /// The byte at offset `a`.
    pub fn read_byte(&self, a: u64) -> (r: u8)
        requires
            a < self@.len(),
        ensures
            r == self@[a as int],
    {
        let n = self.bytes.len();
        self.bytes[a as usize]
    }

    /// Stores one byte at offset `a`.
    pub fn write_byte(&mut self, a: u64, v: u8)
        requires
            a < old(self)@.len(),
        ensures
            final(self)@ == old(self)@.update(a as int, v),
    {
        let n = self.bytes.len();
        self.bytes.set(a as usize, v);
    }

    /// The 64-bit word at offset `a`.
    pub fn read_u64(&self, a: u64) -> (r: u64)
        requires
            a + 8 <= self@.len(),
        ensures
            r == rd(self@, a as int),
    {
        let n = self.bytes.len();
        let s = vstd::slice::slice_subrange(self.bytes.as_slice(), a as usize, (a + 8) as usize);
        u64_from_le_bytes(s)
    }

    /// Stores the 64-bit word `v` at offset `a`.
    pub fn write_u64(&mut self, a: u64, v: u64)
        requires
            a + 8 <= old(self)@.len(),
        ensures
            final(self)@ == wr(old(self)@, a as int, v),
    {
        let n = self.bytes.len();
        let enc = u64_to_le_bytes(v);
        let ghost before = self@;
        let mut i: usize = 0;
        while i < 8
            invariant
                i <= 8,
                enc@ == spec_u64_to_le_bytes(v),
                enc@.len() == 8,
                a + 8 <= before.len(),
                before.len() == n,
                self@.len() == before.len(),
                forall|p: int|
                    0 <= p < before.len() ==> #[trigger] self@[p] == if a <= p < a + i {
                        enc@[p - a]
                    } else {
                        before[p]
                    },
            decreases 8 - i,
        {
            self.bytes.set((a as usize) + i, enc[i]);
            i = i + 1;
        }
        proof {
            lemma_wr(before, a as int, v);
        }
        assert(self@ =~= wr(before, a as int, v));
    }

    /// The `len` bytes at offset `a`.
    pub fn read_bytes(&self, a: u64, len: u64) -> (r: Vec<u8>)
        requires
            a + len <= self@.len(),
        ensures
            r@ == self@.subrange(a as int, a + len),
    {
        let n = self.bytes.len();
        let mut res: Vec<u8> = Vec::new();
        let mut i: u64 = 0;
        while i < len
            invariant
                i <= len,
                a + len <= self@.len(),
                self@.len() == n,
                res@ =~= self@.subrange(a as int, a + i),
            decreases len - i,
        {
            res.push(self.bytes[(a + i) as usize]);
            i = i + 1;
            assert(res@ =~= self@.subrange(a as int, a + i));
        }
        res
    }

    /// Stores the bytes `b` at offset `a`.
    pub fn write_bytes(&mut self, a: u64, b: &[u8])
        requires
            a + b@.len() <= old(self)@.len(),
        ensures
            final(self)@ == written(old(self)@, a as int, b@),
    {
        let n = self.bytes.len();
        let ghost before = self@;
        let mut i: usize = 0;
        while i < b.len()
            invariant
                i <= b@.len(),
                a + b@.len() <= before.len(),
                before.len() == n,
                self@.len() == before.len(),
                forall|p: int|
                    0 <= p < before.len() ==> #[trigger] self@[p] == if a <= p < a + i {
                        b@[p - a]
                    } else {
                        before[p]
                    },
            decreases b@.len() - i,
        {
            self.bytes.set((a as usize) + i, b[i]);
            i = i + 1;
        }
        assert(self@ =~= written(before, a as int, b@));
    }

    /// Copies `len` bytes from offset `src` to offset `dst`; the two ranges
    /// must not overlap.
    pub fn copy_nonoverlapping(&mut self, src: u64, dst: u64, len: u64)
        requires
            src + len <= old(self)@.len(),
            dst + len <= old(self)@.len(),
            src + len <= dst || dst + len <= src,
        ensures
            final(self)@ == copied(old(self)@, src as int, dst as int, len as int),
    {
        let n = self.bytes.len();
        let ghost before = self@;
        let mut i: u64 = 0;
        while i < len
            invariant
                i <= len,
                before.len() == n,
                src + len <= before.len(),
                dst + len <= before.len(),
                src + len <= dst || dst + len <= src,
                self@.len() == before.len(),
                forall|p: int|
                    0 <= p < before.len() ==> #[trigger] self@[p] == if dst <= p < dst + i {
                        before[src + (p - dst)]
                    } else {
                        before[p]
                    },
            decreases len - i,
        {
            let x = self.bytes[(src + i) as usize];
            self.bytes.set((dst + i) as usize, x);
            i = i + 1;
            assert(src + len <= dst || dst + len <= src);
        }
        assert(self@ =~= copied(before, src as int, dst as int, len as int));
    }
}

} // verus!

verus! {

/// A word that one store writes and the other stores miss reads back as
/// that store's value.
pub proof fn lemma_apply_reads(s: Seq<u8>, ws: Seq<(u64, u64)>, j: int)
    requires
        writes_in_bounds(ws, s.len() as int),
        0 <= j < ws.len(),
        forall|i: int| 0 <= i < ws.len() && i != j ==> #[trigger] ws[i].0 + 8 <= ws[j].0 || ws[j].0 + 8 <= ws[i].0,
    ensures
        rd(apply_writes(s, ws), ws[j].0 as int) == ws[j].1,
    decreases ws.len(),
{
    let init = ws.drop_last();
    assert(writes_in_bounds(init, s.len() as int)) by {
        assert forall|i: int| 0 <= i < init.len() implies #[trigger] init[i].0 + 8 <= s.len() by {
            assert(init[i] == ws[i]);
        }
    }
    lemma_apply_writes(s, init);
    let last = ws.last();
    assert(last == ws[ws.len() - 1]);
    assert(last.0 + 8 <= s.len());
    if j == ws.len() - 1 {
        lemma_wr(apply_writes(s, init), last.0 as int, last.1);
    } else {
        assert forall|i: int| 0 <= i < init.len() && i != j implies #[trigger] init[i].0 + 8 <= init[j].0 || init[j].0 + 8 <= init[i].0 by {
            assert(init[i] == ws[i]);
            assert(init[j] == ws[j]);
        }
        lemma_apply_reads(s, init, j);
        assert(init[j] == ws[j]);
        assert(ws[j].0 + 8 <= s.len());
        lemma_rd_wr_other(apply_writes(s, init), last.0 as int, last.1, ws[j].0 as int);
    }
}

} // verus!
