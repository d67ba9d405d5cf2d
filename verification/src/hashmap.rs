//! Hash maps from words to words over a fixed number of buckets. A bucket
//! holds, for each of its keys, the key and the position of its value in the
//! value list; a key goes to the bucket of the hash it is put with, its hash
//! modulo the number of buckets.

use vstd::prelude::*;

verus! {

/// Number of buckets.
pub const BUCKETS_MAX: usize = 16;

/// The hash that std's default hasher gives to a word key.
pub uninterp spec fn default_hash(key: u64) -> u64;

/// The hash of `key` under std's default hasher (`DefaultHasher`, built
/// with its fixed keys). Nothing is claimed of the value beyond its being
/// the same for the same key.
#[verifier::external_body]
fn hash_of(key: u64) -> (r: u64)
    ensures
        r == default_hash(key),
{
    std::hash::BuildHasher::hash_one(&std::hash::BuildHasherDefault::<std::collections::hash_map::DefaultHasher>::default(), key)
}

/// The hash of `key` under std's default hasher, as `get` and `put` use it.
pub fn hash(key: u64) -> (r: u64)
    ensures
        r == default_hash(key),
{
    hash_of(key)
}

/// The bucket of a key with hash `h`.
pub open spec fn bucket_of(h: u64) -> int {
    (h % (BUCKETS_MAX as u64)) as int
}

/// Position, in bucket `b`, of the first entry with key `k`, if any.
pub open spec fn find(b: Seq<(u64, usize)>, k: u64) -> Option<int>
    decreases b.len(),
{
    if b.len() == 0 {
        None
    } else if b[0].0 == k {
        Some(0)
    } else {
        match find(b.drop_first(), k) {
            Some(i) => Some(i + 1),
            None => None,
        }
    }
}

/// What `find` finds is an entry with the key, and nothing before it has
/// the key; when it finds nothing, no entry has the key.
pub proof fn lemma_find(b: Seq<(u64, usize)>, k: u64)
    ensures
        find(b, k) matches Some(i) ==> 0 <= i < b.len() && b[i].0 == k && forall|j: int| 0 <= j < i ==> b[j].0 != k,
        find(b, k) is None ==> forall|j: int| 0 <= j < b.len() ==> b[j].0 != k,
    decreases b.len(),
{
    if b.len() > 0 && b[0].0 != k {
        lemma_find(b.drop_first(), k);
        assert forall|j: int| 1 <= j < b.len() implies b[j] == b.drop_first()[j - 1] by {}
    }
}

/// A hash map from words to words.
pub struct HashMap {
    buckets: std::vec::Vec<std::vec::Vec<(u64, usize)>>,
    values: std::vec::Vec<u64>,
}

impl HashMap {
    /// The buckets.
    pub closed spec fn slots(&self) -> Seq<Seq<(u64, usize)>> {
        Seq::new(self.buckets@.len(), |b: int| self.buckets@[b]@)
    }

    /// The values.
    pub closed spec fn vals(&self) -> Seq<u64> {
        self.values@
    }

    /// Every entry names a value of its own. A key may have more than one
    /// entry (`put_once` does not look); in each bucket the first one counts.
    pub open spec fn wf(&self) -> bool {
        &&& self.slots().len() == BUCKETS_MAX
        &&& forall|b: int, i: int|
            0 <= b < BUCKETS_MAX && 0 <= i < self.slots()[b].len() ==> (#[trigger] self.slots()[b][i]).1
                < self.vals().len()
        &&& forall|b1: int, i1: int, b2: int, i2: int|
            0 <= b1 < BUCKETS_MAX && 0 <= b2 < BUCKETS_MAX && 0 <= i1 < self.slots()[b1].len() && 0 <= i2
                < self.slots()[b2].len() && (b1 != b2 || i1 != i2) ==> #[trigger] self.slots()[b1][i1].1
                != #[trigger] self.slots()[b2][i2].1
    }

    /// The value of the first entry for `k` in bucket `b`, if it has one.
    pub open spec fn lookup_in(&self, k: u64, b: int) -> Option<u64> {
        let s = self.slots()[b];
        match find(s, k) {
            Some(i) => Some(self.vals()[s[i].1 as int]),
            None => None,
        }
    }

    /// The value of `k` in the bucket of its default hash, if the map has it.
    pub open spec fn lookup(&self, k: u64) -> Option<u64> {
        self.lookup_in(k, bucket_of(default_hash(k)))
    }

    /// The entries of the first `n` buckets, bucket by bucket.
    pub open spec fn listed(&self, n: int) -> Seq<(u64, u64)>
        decreases n,
    {
        if n <= 0 {
            Seq::empty()
        } else {
            self.listed(n - 1) + self.slots()[n - 1].map_values(|e: (u64, usize)| (e.0, self.vals()[e.1 as int]))
        }
    }

    /// An empty map.
    pub fn new() -> (r: HashMap)
        ensures
            r.wf(),
            forall|b: int| 0 <= b < BUCKETS_MAX ==> (#[trigger] r.slots()[b]).len() == 0,
            r.vals().len() == 0,
            forall|k: u64| #[trigger] r.lookup(k) is None,
    {
        let mut buckets: std::vec::Vec<std::vec::Vec<(u64, usize)>> = std::vec::Vec::new();
        let mut i: usize = 0;
        while i < BUCKETS_MAX
            invariant
                i <= BUCKETS_MAX,
                buckets@.len() == i,
                forall|b: int| 0 <= b < i ==> (#[trigger] buckets@[b])@.len() == 0,
            decreases BUCKETS_MAX - i,
        {
            buckets.push(std::vec::Vec::new());
            i = i + 1;
        }
        let r = HashMap { buckets, values: std::vec::Vec::new() };
        proof {
            assert forall|k: u64| #[trigger] r.lookup(k) is None by {
                assert(r.slots()[bucket_of(default_hash(k))].len() == 0);
            }
        }
        r
    }

    /// Position of the first entry with key `key` in bucket `b`.
    fn position(&self, b: usize, key: u64) -> (r: Option<usize>)
        requires
            self.wf(),
            b < BUCKETS_MAX,
        ensures
            r matches Some(i) ==> find(self.slots()[b as int], key) == Some(i as int),
            r is None ==> find(self.slots()[b as int], key) is None,
    {
        let bucket = &self.buckets[b];
        let mut i: usize = 0;
        proof {
            lemma_find(self.slots()[b as int], key);
        }
        while i < bucket.len()
            invariant
                i <= bucket@.len(),
                bucket@ == self.slots()[b as int],
                forall|j: int| 0 <= j < i ==> bucket@[j].0 != key,
                find(bucket@, key) matches Some(f) ==> 0 <= f < bucket@.len() && bucket@[f].0 == key && forall|j: int|
                    0 <= j < f ==> bucket@[j].0 != key,
                find(bucket@, key) is None ==> forall|j: int| 0 <= j < bucket@.len() ==> bucket@[j].0 != key,
            decreases bucket@.len() - i,
        {
            if bucket[i].0 == key {
                return Some(i);
            }
            i = i + 1;
        }
        None
    }

    /// The value of `key`, if the map has it.
    pub fn get(&self, key: u64) -> (r: Option<u64>)
        requires
            self.wf(),
        ensures
            r == self.lookup(key),
    {
        let h = hash_of(key);
        self.get_with_hash(key, h)
    }

    /// The value of `key` in the bucket of `key_hash`; `None` when the key
    /// is not there.
    pub fn get_with_hash(&self, key: u64, key_hash: u64) -> (r: Option<u64>)
        requires
            self.wf(),
        ensures
            r == self.lookup_in(key, bucket_of(key_hash)),
    {
        let b = (key_hash % (BUCKETS_MAX as u64)) as usize;
        proof {
            lemma_find(self.slots()[b as int], key);
            assert(self.buckets@[b as int]@ == self.slots()[b as int]);
        }
        match self.position(b, key) {
            Some(i) => {
                let idx = self.buckets[b][i].1;
                Some(self.values[idx])
            },
            None => None,
        }
    }

    /// Maps `key` to `val`: the value of an existing entry is overwritten
    /// in place, or else one entry is added.
    pub fn put(&mut self, key: u64, val: u64)
        requires
            old(self).wf(),
            old(self).vals().len() < usize::MAX,
        ensures
            final(self).wf(),
            old(self).lookup(key) is Some ==> final(self).slots() == old(self).slots() && final(self).vals().len() == old(
                self,
            ).vals().len(),
            old(self).lookup(key) is None ==> final(self).slots() == old(self).slots().update(
                bucket_of(default_hash(key)),
                old(self).slots()[bucket_of(default_hash(key))].push((key, old(self).vals().len() as usize)),
            ) && final(self).vals() == old(self).vals().push(val),
            forall|k: u64| #[trigger] final(self).lookup(k) == if k == key {
                Some(val)
            } else {
                old(self).lookup(k)
            },
    {
        let h = hash_of(key);
        self.put_with_hash(key, h, val);
    }

    /// Maps `key` to `val` in the bucket of `key_hash`: the value of the
    /// key's entry there is overwritten in place, or else one entry is added
    /// to that bucket.
    pub fn put_with_hash(&mut self, key: u64, key_hash: u64, val: u64)
        requires
            old(self).wf(),
            old(self).vals().len() < usize::MAX,
        ensures
            final(self).wf(),
            old(self).lookup_in(key, bucket_of(key_hash)) is Some ==> final(self).slots() == old(self).slots()
                && final(self).vals().len() == old(self).vals().len(),
            old(self).lookup_in(key, bucket_of(key_hash)) is None ==> final(self).slots() == old(self).slots().update(
                bucket_of(key_hash),
                old(self).slots()[bucket_of(key_hash)].push((key, old(self).vals().len() as usize)),
            ) && final(self).vals() == old(self).vals().push(val),
            forall|k: u64, b: int|
                0 <= b < BUCKETS_MAX ==> #[trigger] final(self).lookup_in(k, b) == if k == key && b == bucket_of(
                    key_hash,
                ) {
                    Some(val)
                } else {
                    old(self).lookup_in(k, b)
                },
            forall|k: u64| #[trigger] final(self).lookup(k) == if k == key && bucket_of(default_hash(k)) == bucket_of(key_hash) {
                Some(val)
            } else {
                old(self).lookup(k)
            },
    {
        let b = (key_hash % (BUCKETS_MAX as u64)) as usize;
        proof {
            lemma_find(self.slots()[b as int], key);
            assert(self.buckets@[b as int]@ == self.slots()[b as int]);
        }
        match self.position(b, key) {
            Some(i) => {
                let idx = self.buckets[b][i].1;
                self.values.set(idx, val);
                proof {
                    assert(self.slots() =~= old(self).slots());
                    assert(self.vals().len() == old(self).vals().len());
                    assert forall|bb: int, ii: int|
                        0 <= bb < BUCKETS_MAX && 0 <= ii < self.slots()[bb].len() implies (
                        #[trigger] self.slots()[bb][ii]).1 < self.vals().len() by {
                        assert(self.slots()[bb][ii] == old(self).slots()[bb][ii]);
                    }
                    assert forall|k: u64, bb: int| 0 <= bb < BUCKETS_MAX implies #[trigger] self.lookup_in(k, bb) == if k
                        == key && bb == b {
                        Some(val)
                    } else {
                        old(self).lookup_in(k, bb)
                    } by {
                        lemma_find(self.slots()[bb], k);
                        if let Some(f) = find(self.slots()[bb], k) {
                            if !(k == key && bb == b) {
                                assert(bb != b || f != i);
                                assert(self.slots()[bb][f].1 != idx);
                            }
                        }
                    }
                    assert forall|k: u64| #[trigger] self.lookup(k) == if k == key && bucket_of(default_hash(k))
                        == bucket_of(key_hash) {
                        Some(val)
                    } else {
                        old(self).lookup(k)
                    } by {
                        let bk = bucket_of(default_hash(k));
                        assert(self.lookup_in(k, bk) == if k == key && bk == b {
                            Some(val)
                        } else {
                            old(self).lookup_in(k, bk)
                        });
                    }
                }
            },
            None => {
                self.push_entry(b, key, val);
                proof {
                    assert forall|k: u64| #[trigger] self.lookup(k) == if k == key && bucket_of(default_hash(k))
                        == bucket_of(key_hash) {
                        Some(val)
                    } else {
                        old(self).lookup(k)
                    } by {
                        let bk = bucket_of(default_hash(k));
                        assert(self.lookup_in(k, bk) == if k == key && bk == b && old(self).lookup_in(key, b as int) is None {
                            Some(val)
                        } else {
                            old(self).lookup_in(k, bk)
                        });
                    }
                }
            },
        }
    }

    /// Appends an entry for `key`, in bucket `b`, with value `val`; the
    /// key's first entry in that bucket, if it had one, still counts.
    fn push_entry(&mut self, b: usize, key: u64, val: u64)
        requires
            old(self).wf(),
            old(self).vals().len() < usize::MAX,
            b < BUCKETS_MAX,
        ensures
            final(self).wf(),
            final(self).vals() == old(self).vals().push(val),
            final(self).slots() == old(self).slots().update(b as int, old(self).slots()[b as int].push((key, old(self).vals().len() as usize))),
            forall|k: u64, bb: int|
                0 <= bb < BUCKETS_MAX ==> #[trigger] final(self).lookup_in(k, bb) == if k == key && bb == b
                    && old(self).lookup_in(key, b as int) is None {
                    Some(val)
                } else {
                    old(self).lookup_in(k, bb)
                },
    {
        let idx = self.values.len();
        self.values.push(val);
        let mut bucket = std::vec::Vec::new();
        std::mem::swap(&mut bucket, &mut self.buckets[b]);
        bucket.push((key, idx));
        self.buckets.set(b, bucket);
        proof {
            let s0 = old(self).slots();
            let s1 = self.slots();
            assert forall|bb: int| 0 <= bb < BUCKETS_MAX && bb != b implies #[trigger] s1[bb] == s0[bb] by {}
            assert(s1[b as int] == s0[b as int].push((key, idx)));
            assert forall|bb: int, ii: int|
                0 <= bb < BUCKETS_MAX && 0 <= ii < s1[bb].len() implies (#[trigger] s1[bb][ii]).1 < self.vals().len() by {
                if bb != b || ii < s0[bb].len() {
                    assert(s1[bb][ii] == s0[bb][ii]);
                    assert(s0[bb][ii].1 < old(self).vals().len());
                } else {
                    assert(s1[bb][ii] == (key, idx));
                }
            }
            assert forall|b1: int, i1: int, b2: int, i2: int|
                0 <= b1 < BUCKETS_MAX && 0 <= b2 < BUCKETS_MAX && 0 <= i1 < s1[b1].len() && 0 <= i2 < s1[b2].len() && (b1
                    != b2 || i1 != i2) implies #[trigger] s1[b1][i1].1 != #[trigger] s1[b2][i2].1 by {
                assert(old(self).vals().len() == idx);
                if b1 != b || i1 < s0[b1].len() {
                    assert(s1[b1][i1] == s0[b1][i1]);
                    assert(s0[b1][i1].1 < idx);
                } else {
                    assert(s1[b1][i1] == (key, idx));
                }
                if b2 != b || i2 < s0[b2].len() {
                    assert(s1[b2][i2] == s0[b2][i2]);
                    assert(s0[b2][i2].1 < idx);
                } else {
                    assert(s1[b2][i2] == (key, idx));
                }
            }
            assert forall|k: u64, bk: int| 0 <= bk < BUCKETS_MAX implies #[trigger] self.lookup_in(k, bk) == if k == key
                && bk == b && old(self).lookup_in(key, b as int) is None {
                Some(val)
            } else {
                old(self).lookup_in(k, bk)
            } by {
                lemma_find(s0[bk], k);
                lemma_find(s1[bk], k);
                if bk == b {
                    lemma_find_push(s0[bk], k, (key, idx));
                    if let Some(f) = find(s0[bk], k) {
                        assert(s1[bk][f] == s0[bk][f]);
                    }
                } else {
                    assert(s1[bk] == s0[bk]);
                }
                if let Some(f) = find(s0[bk], k) {
                    assert(s0[bk][f].1 < idx);
                    assert(self.vals()[s0[bk][f].1 as int] == old(self).vals()[s0[bk][f].1 as int]);
                }
            }
        }
    }

    /// Appends an entry mapping `key` to `val` without looking for the key
    /// first, and returns the new value. When the key already had an entry,
    /// that first entry still counts.
    pub fn put_once(&mut self, key: u64, val: u64) -> (r: u64)
        requires
            old(self).wf(),
            old(self).vals().len() < usize::MAX,
        ensures
            r == val,
            final(self).wf(),
            forall|k: u64| #[trigger] final(self).lookup(k) == if k == key && old(self).lookup(key) is None {
                Some(val)
            } else {
                old(self).lookup(k)
            },
    {
        let h = hash_of(key);
        let b = (h % (BUCKETS_MAX as u64)) as usize;
        self.push_entry(b, key, val);
        proof {
            assert forall|k: u64| #[trigger] self.lookup(k) == if k == key && old(self).lookup(key) is None {
                Some(val)
            } else {
                old(self).lookup(k)
            } by {
                let bk = bucket_of(default_hash(k));
                assert(self.lookup_in(k, bk) == if k == key && bk == b && old(self).lookup_in(key, b as int) is None {
                    Some(val)
                } else {
                    old(self).lookup_in(k, bk)
                });
            }
        }
        val
    }

    /// The value of `key`; when the map does not have it, maps it to what
    /// `f` makes and returns that.
    pub fn get_or_insert<F: FnOnce() -> u64>(&mut self, key: u64, f: F) -> (r: u64)
        requires
            old(self).wf(),
            old(self).vals().len() < usize::MAX,
            f.requires(()),
        ensures
            final(self).wf(),
            old(self).lookup(key) matches Some(v) ==> r == v && forall|k: u64| #[trigger] final(self).lookup(k) == old(
                self,
            ).lookup(k),
            old(self).lookup(key) is None ==> f.ensures((), r) && forall|k: u64| #[trigger] final(self).lookup(k) == if k
                == key {
                Some(r)
            } else {
                old(self).lookup(k)
            },
    {
        let h = hash_of(key);
        match self.get_with_hash(key, h) {
            Some(v) => v,
            None => {
                let v = f();
                self.put_once(key, v)
            },
        }
    }

    /// Maps `key` to what `f` makes of its value, or of 0 when the map does
    /// not have it.
    pub fn update_with<F: FnOnce(u64) -> u64>(&mut self, key: &u64, f: F)
        requires
            old(self).wf(),
            old(self).vals().len() < usize::MAX,
            f.requires((
                match old(self).lookup(*key) {
                    Some(v) => v,
                    None => 0u64,
                },
            )),
        ensures
            final(self).wf(),
            final(self).lookup(*key) matches Some(v) && f.ensures(
                (
                    match old(self).lookup(*key) {
                        Some(v) => v,
                        None => 0u64,
                    },
                ),
                v,
            ),
            forall|k: u64| k != *key ==> #[trigger] final(self).lookup(k) == old(self).lookup(k),
    {
        let h = hash_of(*key);
        let cur = match self.get_with_hash(*key, h) {
            Some(v) => v,
            None => 0,
        };
        let nv = f(cur);
        self.put_with_hash(*key, h, nv);
        proof {
            assert(self.lookup(*key) == Some(nv));
        }
    }

    /// The entries, bucket by bucket, each with its value.
    pub fn foreach(&self) -> (r: std::vec::Vec<(u64, u64)>)
        requires
            self.wf(),
        ensures
            r@ == self.listed(BUCKETS_MAX as int),
    {
        let mut out: std::vec::Vec<(u64, u64)> = std::vec::Vec::new();
        let mut b: usize = 0;
        while b < BUCKETS_MAX
            invariant
                b <= BUCKETS_MAX,
                self.wf(),
                out@ == self.listed(b as int),
            decreases BUCKETS_MAX - b,
        {
            let bucket = &self.buckets[b];
            let mut i: usize = 0;
            let ghost base = out@;
            while i < bucket.len()
                invariant
                    i <= bucket@.len(),
                    bucket@ == self.slots()[b as int],
                    self.wf(),
                    b < BUCKETS_MAX,
                    out@ == base + self.slots()[b as int].take(i as int).map_values(
                        |e: (u64, usize)| (e.0, self.vals()[e.1 as int]),
                    ),
                decreases bucket@.len() - i,
            {
                let (k, idx) = bucket[i];
                out.push((k, self.values[idx]));
                i = i + 1;
                proof {
                    assert(self.slots()[b as int].take(i as int).map_values(|e: (u64, usize)| (e.0, self.vals()[e.1 as int]))
                        =~= self.slots()[b as int].take(i - 1).map_values(|e: (u64, usize)| (e.0, self.vals()[e.1 as int])).push(
                        (k, self.vals()[idx as int]),
                    ));
                }
            }
            proof {
                assert(self.slots()[b as int].take(i as int) =~= self.slots()[b as int]);
            }
            b = b + 1;
        }
        out
    }

    /// Removes every entry.
    pub fn clear(&mut self)
        requires
            old(self).wf(),
        ensures
            final(self).wf(),
            final(self).vals().len() == 0,
            forall|k: u64| #[trigger] final(self).lookup(k) is None,
    {
        let mut b: usize = 0;
        while b < BUCKETS_MAX
            invariant
                b <= BUCKETS_MAX,
                self.buckets@.len() == BUCKETS_MAX,
                self.values@ == old(self).values@,
                forall|bb: int| 0 <= bb < b ==> (#[trigger] self.buckets@[bb])@.len() == 0,
                forall|bb: int| b <= bb < BUCKETS_MAX ==> #[trigger] self.buckets@[bb] == old(self).buckets@[bb],
            decreases BUCKETS_MAX - b,
        {
            self.buckets.set(b, std::vec::Vec::new());
            b = b + 1;
        }
        self.values.clear();
        proof {
            assert forall|k: u64| #[trigger] self.lookup(k) is None by {
                assert(self.slots()[bucket_of(default_hash(k))].len() == 0);
            }
        }
    }

    /// Whether the map has no entry.
    pub fn is_empty(&self) -> (r: bool)
        requires
            self.wf(),
        ensures
            r == forall|b: int| 0 <= b < BUCKETS_MAX ==> (#[trigger] self.slots()[b]).len() == 0,
            r ==> forall|k: u64| #[trigger] self.lookup(k) is None,
    {
        let mut b: usize = 0;
        while b < BUCKETS_MAX
            invariant
                b <= BUCKETS_MAX,
                self.wf(),
                forall|bb: int| 0 <= bb < b ==> (#[trigger] self.slots()[bb]).len() == 0,
            decreases BUCKETS_MAX - b,
        {
            if self.buckets[b].len() > 0 {
                proof {
                    assert(self.slots()[b as int].len() > 0);
                }
                return false;
            }
            b = b + 1;
        }
        proof {
            assert forall|k: u64| #[trigger] self.lookup(k) is None by {
                assert(self.slots()[bucket_of(default_hash(k))].len() == 0);
            }
        }
        true
    }
}

/// Appending an entry after the last keeps what `find` finds, and finds the
/// new key when nothing before had it.
pub proof fn lemma_find_push(b: Seq<(u64, usize)>, k: u64, e: (u64, usize))
    ensures
        find(b, k) matches Some(i) ==> find(b.push(e), k) == Some(i),
        find(b, k) is None && e.0 == k ==> find(b.push(e), k) == Some(b.len() as int),
        find(b, k) is None && e.0 != k ==> find(b.push(e), k) is None,
    decreases b.len(),
{
    if b.len() > 0 {
        assert(b.push(e).drop_first() =~= b.drop_first().push(e));
        assert(b.push(e)[0] == b[0]);
        lemma_find_push(b.drop_first(), k, e);
    } else {
        assert(b.push(e).drop_first() =~= Seq::<(u64, usize)>::empty());
        assert(find(b.push(e).drop_first(), k) is None);
    }
}

} // verus!
