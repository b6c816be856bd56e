//! A fixed-capacity ring buffer, used as the sliding window and the lookahead.

use vstd::prelude::*;

verus! {

/// A ring of `capacity` slots; the logical element `i` lives at slot
/// `(start + i) % capacity`.
pub struct CircularBuf<T> {
    buffer: Vec<T>,
    start: usize,
    length: usize,
}

impl<T: Copy + Default> CircularBuf<T> {
    /// Internal consistency of the ring.
    pub closed spec fn wf(&self) -> bool {
        &&& self.length <= self.buffer.len()
        &&& (self.buffer.len() == 0 ==> self.start == 0)
        &&& (self.buffer.len() > 0 ==> self.start < self.buffer.len())
    }

    /// Number of slots.
    pub closed spec fn cap(&self) -> nat {
        self.buffer.len() as nat
    }

    /// The logical contents, front first.
    pub closed spec fn view(&self) -> Seq<T> {
        ring_view(self.buffer@, self.start as int, self.length as int)
    }

    /// The length never exceeds the capacity, which fits in a `usize`.
    pub proof fn lemma_len_bound(&self)
        requires
            self.wf(),
        ensures
            self@.len() <= self.cap() <= usize::MAX,
    {
    }

    pub fn with_capacity(size: usize) -> (r: Self)
        ensures
            r.wf(),
            r@ == Seq::<T>::empty(),
            r.cap() == size,
    {
        let mut buffer: Vec<T> = Vec::with_capacity(size);
        let mut k: usize = 0;
        while k < size
            invariant
                k <= size,
                buffer.len() == k,
            decreases size - k,
        {
            buffer.push(T::default());
            k = k + 1;
        }
        let r = CircularBuf { buffer, start: 0, length: 0 };
        assert(r@ =~= Seq::<T>::empty());
        r
    }

    /// Reads the logical element `index`, counted from the front.
    pub fn index(&self, index: usize) -> (r: T)
        requires
            self.wf(),
            index < self@.len(),
        ensures
            r == self@[index as int],
    {
        let cap = self.buffer.len();
        let j = if index < cap - self.start {
            self.start + index
        } else {
            index - (cap - self.start)
        };
        proof {
            let s = self.start as int;
            let c = cap as int;
            let i = index as int;
            if i < c - s {
                vstd::arithmetic::div_mod::lemma_small_mod((s + i) as nat, c as nat);
            } else {
                vstd::arithmetic::div_mod::lemma_mod_sub_multiples_vanish(s + i, c);
                vstd::arithmetic::div_mod::lemma_small_mod((s + i - c) as nat, c as nat);
            }
        }
        self.buffer[j]
    }

    /// Appends `item`; on a full buffer the front element is evicted and returned.
    pub fn push_back(&mut self, item: T) -> (r: Option<T>)
        requires
            old(self).wf(),
            old(self).cap() > 0,
        ensures
            final(self).wf(),
            final(self).cap() == old(self).cap(),
            old(self)@.len() < old(self).cap() ==> {
                &&& r.is_none()
                &&& final(self)@ == old(self)@.push(item)
            },
            old(self)@.len() == old(self).cap() ==> {
                &&& r == Some(old(self)@[0])
                &&& final(self)@ == old(self)@.drop_first().push(item)
            },
    {
        let capacity = self.buffer.len();
        let ghost old_view = self@;
        let idx = if self.length < capacity - self.start {
            self.start + self.length
        } else {
            self.length - (capacity - self.start)
        };
        proof {
            let s = self.start as int;
            let c = capacity as int;
            let l = self.length as int;
            if l < c - s {
                vstd::arithmetic::div_mod::lemma_small_mod((s + l) as nat, c as nat);
            } else {
                vstd::arithmetic::div_mod::lemma_mod_sub_multiples_vanish(s + l, c);
                vstd::arithmetic::div_mod::lemma_small_mod((s + l - c) as nat, c as nat);
            }
        }
        if self.length < capacity {
            self.length = self.length + 1;
            self.buffer.set(idx, item);
            proof {
                assert forall|i: int| 0 <= i < self.length implies
                    #[trigger] self@[i] == old_view.push(item)[i] by {
                    if i < old_view.len() {
                        lemma_ring_slot_distinct(self.start as int, capacity as int, i, self.length - 1);
                    }
                }
                assert(self@ =~= old_view.push(item));
            }
            None
        } else {
            let evicted = self.buffer[idx];
            let ghost old_start = self.start as int;
            self.start = if self.start + 1 == capacity { 0 } else { self.start + 1 };
            self.buffer.set(idx, item);
            proof {
                let c = capacity as int;
                assert(idx as int == old_start) by {
                    vstd::arithmetic::div_mod::lemma_mod_add_multiples_vanish(old_start, c);
                    vstd::arithmetic::div_mod::lemma_small_mod(old_start as nat, c as nat);
                }
                assert forall|i: int| 0 <= i < self.length implies
                    #[trigger] self@[i] == old_view.drop_first().push(item)[i] by {
                    lemma_ring_shift(old_start, c, i);
                    if i + 1 < c {
                        lemma_ring_slot_distinct(old_start, c, i + 1, 0);
                    }
                }
                assert(self@ =~= old_view.drop_first().push(item));
            }
            Some(evicted)
        }
    }

    /// Removes and returns the front element, or `None` when empty.
    pub fn pop_front(&mut self) -> (r: Option<T>)
        requires
            old(self).wf(),
        ensures
            final(self).wf(),
            final(self).cap() == old(self).cap(),
            old(self)@.len() == 0 ==> r.is_none() && final(self)@ == old(self)@,
            old(self)@.len() > 0 ==> {
                &&& r == Some(old(self)@[0])
                &&& final(self)@ == old(self)@.drop_first()
            },
    {
        if self.length == 0 {
            return None;
        }
        let ghost old_view = self@;
        let ghost old_start = self.start as int;
        let idx = self.start;
        let item = self.buffer[idx];
        self.start = if self.start + 1 == self.buffer.len() { 0 } else { self.start + 1 };
        self.length = self.length - 1;
        proof {
            let c = self.buffer.len() as int;
            vstd::arithmetic::div_mod::lemma_small_mod(old_start as nat, c as nat);
            assert forall|i: int| 0 <= i < self.length implies
                #[trigger] self@[i] == old_view.drop_first()[i] by {
                lemma_ring_shift(old_start, c, i);
            }
            assert(self@ =~= old_view.drop_first());
        }
        Some(item)
    }

    pub fn len(&self) -> (r: usize)
        requires
            self.wf(),
        ensures
            r == self@.len(),
    {
        self.length
    }

    /// A mutable reference to the front element, or `None` when empty.
    pub fn front_mut(&mut self) -> (r: Option<&mut T>)
        requires
            old(self).wf(),
        ensures
            old(self)@.len() == 0 ==> r is None && *final(self) == *old(self),
            old(self)@.len() > 0 ==> (r matches Some(e) && {
                &&& *e == old(self)@[0]
                &&& final(self).wf()
                &&& final(self).cap() == old(self).cap()
                &&& final(self)@ == old(self)@.update(0, *final(e))
            }),
    {
        if self.length == 0 {
            None
        } else {
            let idx = self.start;
            proof {
                lemma_ring_update(self.buffer@, self.start as int, self.length as int, 0);
                lemma_ring_mod(self.start as int, self.buffer.len() as int, 0);
            }
            Some(vec_slot(&mut self.buffer, idx))
        }
    }

    /// A mutable reference to the back element, or `None` when empty.
    pub fn back_mut(&mut self) -> (r: Option<&mut T>)
        requires
            old(self).wf(),
        ensures
            old(self)@.len() == 0 ==> r is None && *final(self) == *old(self),
            old(self)@.len() > 0 ==> (r matches Some(e) && {
                &&& *e == old(self)@[old(self)@.len() - 1]
                &&& final(self).wf()
                &&& final(self).cap() == old(self).cap()
                &&& final(self)@ == old(self)@.update(old(self)@.len() - 1, *final(e))
            }),
    {
        if self.length == 0 {
            None
        } else {
            let cap = self.buffer.len();
            proof {
                lemma_ring_update(self.buffer@, self.start as int, self.length as int, self.length - 1);
                lemma_ring_mod(self.start as int, cap as int, self.length - 1);
            }
            let last = self.length - 1;
            let idx = if last < cap - self.start {
                self.start + last
            } else {
                last - (cap - self.start)
            };
            Some(vec_slot(&mut self.buffer, idx))
        }
    }

    pub fn capacity(&self) -> (r: usize)
        ensures
            r == self.cap(),
    {
        self.buffer.len()
    }

    pub fn is_full(&self) -> (r: bool)
        requires
            self.wf(),
        ensures
            r == (self@.len() == self.cap()),
    {
        self.length == self.buffer.len()
    }

    pub fn is_empty(&self) -> (r: bool)
        requires
            self.wf(),
        ensures
            r == (self@.len() == 0),
    {
        self.length == 0
    }

    /// Forgets every element; the capacity is kept.
    pub fn clear(&mut self)
        requires
            old(self).wf(),
        ensures
            final(self).wf(),
            final(self).cap() == old(self).cap(),
            final(self)@ == Seq::<T>::empty(),
    {
        self.length = 0;
        assert(self@ =~= Seq::<T>::empty());
    }
}

/// The logical contents of a ring stored in `buf` from slot `start` on.
pub open spec fn ring_view<T>(buf: Seq<T>, start: int, len: int) -> Seq<T> {
    Seq::new(len as nat, |i: int| buf[(start + i) % (buf.len() as int)])
}

/// Writing the slot of logical position `k` writes position `k`.
proof fn lemma_ring_update<T>(buf: Seq<T>, start: int, len: int, k: int)
    requires
        0 <= start < buf.len(),
        0 <= k < len <= buf.len(),
    ensures
        forall|v: T|
            #[trigger] ring_view(buf.update((start + k) % (buf.len() as int), v), start, len)
                == ring_view(buf, start, len).update(k, v),
{
    let c = buf.len() as int;
    assert forall|v: T|
        #[trigger] ring_view(buf.update((start + k) % c, v), start, len) == ring_view(
            buf,
            start,
            len,
        ).update(k, v) by {
        assert forall|i: int| 0 <= i < len implies ring_view(
            buf.update((start + k) % c, v),
            start,
            len,
        )[i] == ring_view(buf, start, len).update(k, v)[i] by {
            lemma_ring_mod(start, c, i);
            lemma_ring_mod(start, c, k);
            if i != k {
                lemma_ring_slot_distinct(start, c, i, k);
            }
        }
        assert(ring_view(buf.update((start + k) % c, v), start, len) =~= ring_view(
            buf,
            start,
            len,
        ).update(k, v));
    }
}

/// The slot `i` of a vector, for writing in place.
fn vec_slot<T>(v: &mut Vec<T>, i: usize) -> (r: &mut T)
    requires
        i < old(v)@.len(),
    ensures
        *r == old(v)@[i as int],
        final(v)@ == old(v)@.update(i as int, *final(r)),
{
    &mut v[i]
}

/// Two distinct logical positions below the capacity occupy distinct slots.
proof fn lemma_ring_slot_distinct(s: int, c: int, i: int, j: int)
    requires
        0 <= s < c,
        0 <= i < c,
        0 <= j < c,
        i != j,
    ensures
        (s + i) % c != (s + j) % c,
{
    lemma_ring_mod(s, c, i);
    lemma_ring_mod(s, c, j);
}

/// A logical position below the capacity wraps at most once.
proof fn lemma_ring_mod(s: int, c: int, i: int)
    requires
        0 <= s < c,
        0 <= i < c,
    ensures
        (s + i) % c == (if s + i < c { s + i } else { s + i - c }),
{
    if s + i < c {
        vstd::arithmetic::div_mod::lemma_small_mod((s + i) as nat, c as nat);
    } else {
        vstd::arithmetic::div_mod::lemma_mod_sub_multiples_vanish(s + i, c);
        vstd::arithmetic::div_mod::lemma_small_mod((s + i - c) as nat, c as nat);
    }
}

/// Moving the start one slot forward shifts the logical positions by one.
proof fn lemma_ring_shift(s: int, c: int, i: int)
    requires
        0 <= s < c,
        0 <= i,
    ensures
        ((if s + 1 == c { 0 } else { s + 1 }) + i) % c == (s + (i + 1)) % c,
{
    if s + 1 == c {
        vstd::arithmetic::div_mod::lemma_mod_add_multiples_vanish(i, c);
        assert(s + (i + 1) == c + i);
    }
}

} // verus!
