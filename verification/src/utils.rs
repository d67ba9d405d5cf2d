//! Small utilities: a fixed-capacity ring buffer and power-of-two rounding.

use vstd::prelude::*;
use vstd::std_specs::cmp::PartialEqSpec;

verus! {

/// Position of the `i`-th element of a ring of capacity `n` whose first
/// element sits at slot `h`.
pub open spec fn ring_slot(h: int, i: int, n: int) -> int {
    if h + i < n {
        h + i
    } else {
        h + i - n
    }
}

/// Number of elements between `head` (inclusive) and `tail` (exclusive) in a
/// ring of capacity `n`.
pub open spec fn ring_len(head: int, tail: int, n: int) -> int {
    if tail >= head {
        tail - head
    } else {
        tail + n - head
    }
}

/// A ring buffer with `N` slots holding at most `N - 1` elements.
///
/// Elements are kept between `head` (inclusive) and `tail` (exclusive); the
/// buffer is empty when both are equal.
pub struct Ring<T, const N: usize> {
    data: Vec<T>,
    head: usize,
    tail: usize,
}

impl<T, const N: usize> View for Ring<T, N> {
    type V = Seq<T>;

    /// The elements in the order they were pushed.
    closed spec fn view(&self) -> Seq<T> {
        Seq::new(
            ring_len(self.head as int, self.tail as int, N as int) as nat,
            |i: int| self.data@[ring_slot(self.head as int, i, N as int)],
        )
    }
}

impl<T, const N: usize> Ring<T, N> {
    /// The ring's internal consistency: `N` slots and both indices in range.
    pub closed spec fn inv(&self) -> bool {
        &&& 0 < N
        &&& self.data@.len() == N
        &&& self.head < N
        &&& self.tail < N
    }

    /// A consistent ring holds fewer than `N` elements.
    pub proof fn lemma_len(&self)
        requires
            self.inv(),
        ensures
            self@.len() < N,
    {
    }

    /// The raw slots of the buffer, including the unused ones.
    pub closed spec fn slots(&self) -> Seq<T> {
        self.data@
    }

    /// Slot index of the first element.
    pub closed spec fn head_slot(&self) -> int {
        self.head as int
    }

    /// Slot index one past the last element.
    pub closed spec fn tail_slot(&self) -> int {
        self.tail as int
    }

    /// Creates an empty ring; every slot holds `T::default()`.
    pub fn new() -> (r: Self) where T: Copy + Default
        requires
            0 < N,
        ensures
            r.inv(),
            r@ == Seq::<T>::empty(),
    {
        let mut data: Vec<T> = Vec::new();
        let mut i: usize = 0;
        while i < N
            invariant
                i <= N,
                data@.len() == i,
            decreases N - i,
        {
            data.push(T::default());
            i = i + 1;
        }
        let r = Ring { data, head: 0, tail: 0 };
        assert(r@ =~= Seq::<T>::empty());
        r
    }

    /// Appends `x` at the end of the ring.
    pub fn push(&mut self, x: T)
        requires
            old(self).inv(),
            old(self)@.len() + 1 < N,
        ensures
            final(self).inv(),
            final(self)@ == old(self)@.push(x),
    {
        let ghost before = self@;
        let tail = self.tail;
        self.data.set(tail, x);
        self.tail = if tail + 1 == N {
            0
        } else {
            tail + 1
        };
        assert(self@ =~= before.push(x));
    }

    /// Appends `x` at the end of the ring; the slot and the ring's indices
    /// are then made durable by the caller's flush of the ring's memory.
    pub fn push_sync(&mut self, x: T)
        requires
            old(self).inv(),
            old(self)@.len() + 1 < N,
        ensures
            final(self).inv(),
            final(self)@ == old(self)@.push(x),
    {
        self.push(x);
    }

    /// Tells whether an element equal to `x` is in the ring.
    pub fn contains(&self, x: T) -> (r: bool) where T: PartialEq
        requires
            self.inv(),
        ensures
            T::obeys_eq_spec() ==> (r <==> exists|i: int|
                0 <= i < self@.len() && x.eq_spec(&#[trigger] self@[i])),
    {
        let mut head = self.head;
        let ghost mut k: int = 0;
        while head != self.tail
            invariant
                0 < N,
                self.data@.len() == N,
                self.head < N,
                self.tail < N,
                head < N,
                0 <= k <= self@.len(),
                head as int == ring_slot(self.head as int, k, N as int),
                T::obeys_eq_spec() ==> forall|i: int|
                    0 <= i < k ==> !x.eq_spec(&#[trigger] self@[i]),
            decreases self@.len() - k,
        {
            proof {
                if k == self@.len() {
                    assert(ring_slot(self.head as int, k, N as int) == self.tail);
                }
            }
            if x == self.data[head] {
                assert(self@[k] == self.data@[head as int]);
                return true;
            }
            head = if head + 1 == N {
                0
            } else {
                head + 1
            };
            proof {
                k = k + 1;
            }
        }
        proof {
            if k < self@.len() {
                assert(ring_slot(self.head as int, k, N as int) != self.tail);
            }
        }
        false
    }

    /// Removes every element.
    pub fn clear(&mut self)
        requires
            old(self).inv(),
        ensures
            final(self).inv(),
            final(self)@ == Seq::<T>::empty(),
    {
        self.head = self.tail;
        assert(self@ =~= Seq::<T>::empty());
    }

    /// Tells whether the ring holds no element.
    pub fn is_empty(&self) -> (r: bool)
        requires
            self.inv(),
        ensures
            r <==> self@.len() == 0,
    {
        self.head == self.tail
    }

    /// Number of elements in the ring.
    pub fn len(&self) -> (r: usize)
        requires
            self.inv(),
        ensures
            r == self@.len(),
            r < N,
    {
        if self.tail >= self.head {
            self.tail - self.head
        } else {
            self.tail + (N - self.head)
        }
    }
}

impl<T: Copy, const N: usize> Ring<T, N> {
    /// Removes and returns the first element, if any.
    pub fn pop(&mut self) -> (r: Option<T>)
        requires
            old(self).inv(),
        ensures
            final(self).inv(),
            old(self)@.len() == 0 ==> r == None::<T> && final(self)@ == old(self)@,
            old(self)@.len() > 0 ==> r == Some(old(self)@[0]) && final(self)@ == old(
                self,
            )@.drop_first(),
    {
        let ghost before = self@;
        if self.head == self.tail {
            None
        } else {
            let res = Some(self.data[self.head]);
            self.head = if self.head + 1 == N {
                0
            } else {
                self.head + 1
            };
            assert(self@ =~= before.drop_first());
            res
        }
    }

    /// The elements in order, as `foreach` visits them.
    pub fn foreach(&self) -> (r: Vec<T>)
        requires
            self.inv(),
        ensures
            r@ == self@,
    {
        let mut res: Vec<T> = Vec::new();
        let mut head = self.head;
        while head != self.tail
            invariant
                0 < N,
                self.data@.len() == N,
                self.head < N,
                self.tail < N,
                head < N,
                res@.len() <= self@.len(),
                head as int == ring_slot(self.head as int, res@.len() as int, N as int),
                res@ =~= self@.subrange(0, res@.len() as int),
            decreases self@.len() - res@.len(),
        {
            proof {
                if res@.len() == self@.len() {
                    assert(ring_slot(self.head as int, res@.len() as int, N as int) == self.tail);
                }
            }
            let ghost k = res@.len() as int;
            res.push(self.data[head]);
            assert(self@[k] == self.data@[head as int]);
            head = if head + 1 == N {
                0
            } else {
                head + 1
            };
        }
        proof {
            if res@.len() < self@.len() {
                assert(ring_slot(self.head as int, res@.len() as int, N as int) != self.tail);
            }
        }
        res
    }

    /// Removes every element and returns them in order.
    pub fn drain_atomic(&mut self) -> (r: Vec<T>)
        requires
            old(self).inv(),
        ensures
            final(self).inv(),
            r@ == old(self)@,
            final(self)@ == Seq::<T>::empty(),
    {
        let ghost before = self@;
        let mut res: Vec<T> = Vec::new();
        while !self.is_empty()
            invariant
                self.inv(),
                before == res@ + self@,
            decreases self@.len(),
        {
            let x = self.pop();
            match x {
                Some(v) => {
                    res.push(v);
                },
                None => {},
            }
        }
        assert(res@ =~= before);
        res
    }

    /// The slots visited when walking from the tail slot back towards the
    /// head slot, excluding the head slot.
    pub fn foreach_reverse(&self) -> (r: Vec<T>)
        requires
            self.inv(),
        ensures
            r@.len() == ring_len(self.head_slot(), self.tail_slot(), N as int),
            forall|i: int|
                0 <= i < r@.len() ==> #[trigger] r@[i] == self.slots()[ring_slot(
                    self.tail_slot(),
                    N - i,
                    N as int,
                )],
    {
        let mut res: Vec<T> = Vec::new();
        let mut tail = self.tail;
        while tail != self.head
            invariant
                0 < N,
                self.data@.len() == N,
                self.head < N,
                self.tail < N,
                tail < N,
                res@.len() <= ring_len(self.head as int, self.tail as int, N as int),
                tail as int == ring_slot(self.tail as int, N - res@.len(), N as int),
                forall|i: int|
                    0 <= i < res@.len() ==> #[trigger] res@[i] == self.data@[ring_slot(
                        self.tail as int,
                        N - i,
                        N as int,
                    )],
            decreases ring_len(self.head as int, self.tail as int, N as int) - res@.len(),
        {
            proof {
                if res@.len() == ring_len(self.head as int, self.tail as int, N as int) {
                    assert(ring_slot(self.tail as int, N - res@.len(), N as int) == self.head);
                }
            }
            res.push(self.data[tail]);
            tail = if tail == 0 {
                N - 1
            } else {
                tail - 1
            };
        }
        proof {
            if res@.len() < ring_len(self.head as int, self.tail as int, N as int) {
                assert(ring_slot(self.tail as int, N - res@.len(), N as int) != self.head);
            }
        }
        res
    }

    /// Tells whether `f` holds of some element, trying them in order.
    pub fn find<F: Fn(T) -> bool>(&self, f: F) -> (r: bool)
        requires
            self.inv(),
            forall|x: T| #[trigger] f.requires((x,)),
        ensures
            r ==> exists|i: int| 0 <= i < self@.len() && #[trigger] f.ensures((self@[i],), true),
            !r ==> forall|i: int| 0 <= i < self@.len() ==> #[trigger] f.ensures((self@[i],), false),
    {
        let mut head = self.head;
        let ghost mut k: int = 0;
        while head != self.tail
            invariant
                forall|x: T| #[trigger] f.requires((x,)),
                0 < N,
                self.data@.len() == N,
                self.head < N,
                self.tail < N,
                head < N,
                0 <= k <= self@.len(),
                head as int == ring_slot(self.head as int, k, N as int),
                forall|i: int| 0 <= i < k ==> #[trigger] f.ensures((self@[i],), false),
            decreases self@.len() - k,
        {
            proof {
                if k == self@.len() {
                    assert(ring_slot(self.head as int, k, N as int) == self.tail);
                }
            }
            let d = self.data[head];
            assert(self@[k] == d);
            if f(d) {
                return true;
            }
            head = if head + 1 == N {
                0
            } else {
                head + 1
            };
            proof {
                k = k + 1;
            }
        }
        proof {
            if k < self@.len() {
                assert(ring_slot(self.head as int, k, N as int) != self.tail);
            }
        }
        false
    }
}

/// Smallest power of two that is at least `v`.
pub fn nearest_pow2(v: u64) -> (r: u64)
    requires
        1 <= v <= 0x8000_0000_0000_0000u64,
    ensures
        r != 0,
        r & ((r - 1) as u64) == 0,
        v <= r,
        r >> 1u64 < v,
{
    let y: u64 = v - 1;
    let a: u64 = y | (y >> 1u64);
    let b: u64 = a | (a >> 2u64);
    let c: u64 = b | (b >> 4u64);
    let d: u64 = c | (c >> 8u64);
    let e: u64 = d | (d >> 16u64);
    let x: u64 = e | (e >> 32u64);
    assert(x < 0xffff_ffff_ffff_ffffu64 && ((x + 1) as u64) & x == 0 && y < ((x + 1) as u64)
        && ((x + 1) as u64) >> 1u64 <= y) by (bit_vector)
        requires
            y < 0x8000_0000_0000_0000u64,
            a == y | (y >> 1u64),
            b == a | (a >> 2u64),
            c == b | (b >> 4u64),
            d == c | (c >> 8u64),
            e == d | (d >> 16u64),
            x == e | (e >> 32u64),
    ;
    x + 1
}

} // verus!
