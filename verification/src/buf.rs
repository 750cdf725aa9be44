//! A bounded ring buffer with front-and-back truncation, a logical reverse
//! flag, and a 50%-growth primitive.
//!
//! The buffer's view is the logical sequence of its elements. Reversal flips
//! the reading direction in O(1); all contracts are stated over the logical
//! view, so they do not mention the flag except to say it is preserved.

use vstd::prelude::*;

verus! {

/// The result of a fallible buffer operation.
pub type Result<T> = core::result::Result<(), Error<T>>;

/// A buffer operation failed.
#[derive(Debug)]
pub enum Error<T> {
    /// The buffer was full; the rejected element is handed back.
    Overflow(T),
}

/// A fixed-capacity circular sequence.
pub struct Buffer<T> {
    inner: Vec<T>,
    start_index: usize,
    len: usize,
    is_reversed: bool,
}

/// Maps an offset in `[0, 2*cap)` into `[0, cap)`.
pub open spec fn wrap_at(cap: int, x: int) -> int {
    if x < cap {
        x
    } else {
        x - cap
    }
}

impl<T> Buffer<T> {
    /// Structural well-formedness: the backing store is non-empty and the
    /// cursor and length are within it.
    pub closed spec fn inv(&self) -> bool {
        &&& self.inner.len() >= 1
        &&& self.start_index < self.inner.len()
        &&& self.len <= self.inner.len()
    }

    /// The buffer's capacity.
    pub closed spec fn spec_capacity(&self) -> int {
        self.inner.len() as int
    }

    /// Whether the logical reading direction is currently reversed.
    pub closed spec fn spec_reversed(&self) -> bool {
        self.is_reversed
    }

    /// The physical slot of logical position `i`.
    closed spec fn phys(&self, i: int) -> int {
        let j = if self.is_reversed {
            self.len - 1 - i
        } else {
            i
        };
        wrap_at(self.inner.len() as int, self.start_index + j)
    }

    /// The element count fits in `usize`.
    pub proof fn lemma_len_bound(&self)
        ensures
            self@.len() <= usize::MAX,
    {
    }

    /// The element count never exceeds the capacity.
    pub proof fn lemma_len_le_cap(&self)
        requires
            self.inv(),
        ensures
            self@.len() <= self.spec_capacity(),
    {
    }

    proof fn lemma_phys_injective(&self, i1: int, i2: int)
        requires
            self.inv(),
            0 <= i1 < self.len,
            0 <= i2 < self.len,
            i1 != i2,
        ensures
            self.phys(i1) != self.phys(i2),
    {
    }
}

impl<T> View for Buffer<T> {
    type V = Seq<T>;

    closed spec fn view(&self) -> Seq<T> {
        Seq::new(self.len as nat, |i: int| self.inner[self.phys(i)])
    }
}

impl<T: Default> Buffer<T> {
    /// An empty buffer of the given capacity.
    pub fn new(size: usize) -> (r: Self)
        requires
            size > 0,
        ensures
            r.inv(),
            r@ =~= Seq::<T>::empty(),
            r.spec_capacity() == size,
            !r.spec_reversed(),
    {
        let mut inner: Vec<T> = Vec::new();
        while inner.len() < size
            invariant
                inner.len() <= size,
            decreases size - inner.len(),
        {
            inner.push(T::default());
        }
        Buffer { inner, start_index: 0, len: 0, is_reversed: false }
    }

    /// Whether the buffer holds no elements.
    pub fn is_empty(&self) -> (r: bool)
        ensures
            r == (self@.len() == 0),
    {
        self.len == 0
    }

    /// The buffer's capacity.
    pub fn capacity(&self) -> (r: usize)
        ensures
            r == self.spec_capacity(),
    {
        self.inner.len()
    }

    /// The number of elements held.
    pub fn len(&self) -> (r: usize)
        ensures
            r == self@.len(),
    {
        self.len
    }

    /// Toggles the logical reading direction.
    pub fn reverse(&mut self)
        requires
            old(self).inv(),
        ensures
            final(self).inv(),
            final(self)@ =~= old(self)@.reverse(),
            final(self).spec_capacity() == old(self).spec_capacity(),
            final(self).spec_reversed() == !old(self).spec_reversed(),
    {
        self.is_reversed = !self.is_reversed;
    }

    /// Whether the logical reading direction is currently reversed.
    pub fn is_reversed(&self) -> (r: bool)
        ensures
            r == self.spec_reversed(),
    {
        self.is_reversed
    }

    /// The element at logical position `index`.
    pub fn get(&self, index: usize) -> (r: &T)
        requires
            self.inv(),
            index < self@.len(),
        ensures
            *r == self@[index as int],
    {
        let j = if self.is_reversed {
            self.len - index - 1
        } else {
            index
        };
        let room = self.inner.len() - self.start_index;
        let p = if j < room {
            self.start_index + j
        } else {
            j - room
        };
        &self.inner[p]
    }

    /// Replaces the element at logical position `index`.
    pub fn set(&mut self, index: usize, value: T)
        requires
            old(self).inv(),
            index < old(self)@.len(),
        ensures
            final(self).inv(),
            final(self)@ =~= old(self)@.update(index as int, value),
            final(self).spec_capacity() == old(self).spec_capacity(),
            final(self).spec_reversed() == old(self).spec_reversed(),
    {
        let j = if self.is_reversed {
            self.len - index - 1
        } else {
            index
        };
        let room = self.inner.len() - self.start_index;
        let p = if j < room {
            self.start_index + j
        } else {
            j - room
        };
        self.inner[p] = value;
        proof {
            assert forall|i: int| 0 <= i < self.len && i != index implies self@[i] == old(
                self,
            )@[i] by {
                old(self).lemma_phys_injective(i, index as int);
            }
        }
    }

    /// The first element, if any.
    pub fn first(&self) -> (r: Option<&T>)
        requires
            self.inv(),
        ensures
            match r {
                Some(v) => self@.len() > 0 && *v == self@[0],
                None => self@.len() == 0,
            },
    {
        if self.len == 0 {
            None
        } else {
            Some(self.get(0))
        }
    }

    /// The last element, if any.
    pub fn last(&self) -> (r: Option<&T>)
        requires
            self.inv(),
        ensures
            match r {
                Some(v) => self@.len() > 0 && *v == self@[self@.len() - 1],
                None => self@.len() == 0,
            },
    {
        if self.len == 0 {
            None
        } else {
            Some(self.get(self.len - 1))
        }
    }

    /// A mutable borrow of the first element.
    pub fn first_mut(&mut self) -> (r: &mut T)
        requires
            old(self).inv(),
            old(self)@.len() > 0,
        ensures
            *r == old(self)@[0],
            final(self)@ =~= old(self)@.update(0, *final(r)),
            final(self).inv(),
            final(self).spec_capacity() == old(self).spec_capacity(),
            final(self).spec_reversed() == old(self).spec_reversed(),
    {
        let j = if self.is_reversed {
            self.len - 1
        } else {
            0
        };
        let room = self.inner.len() - self.start_index;
        let p = if j < room {
            self.start_index + j
        } else {
            j - room
        };
        proof {
            assert(p == self.phys(0));
            assert forall|i: int| 0 < i < self.len implies self.phys(i) != p by {
                self.lemma_phys_injective(i, 0);
            }
        }
        &mut self.inner[p]
    }

    /// A mutable borrow of the last element.
    pub fn last_mut(&mut self) -> (r: &mut T)
        requires
            old(self).inv(),
            old(self)@.len() > 0,
        ensures
            *r == old(self)@[old(self)@.len() - 1],
            final(self)@ =~= old(self)@.update(old(self)@.len() - 1, *final(r)),
            final(self).inv(),
            final(self).spec_capacity() == old(self).spec_capacity(),
            final(self).spec_reversed() == old(self).spec_reversed(),
    {
        let j = if self.is_reversed {
            0
        } else {
            self.len - 1
        };
        let room = self.inner.len() - self.start_index;
        let p = if j < room {
            self.start_index + j
        } else {
            j - room
        };
        proof {
            assert(p == self.phys(self.len - 1));
            assert forall|i: int| 0 <= i < self.len - 1 implies self.phys(i) != p by {
                self.lemma_phys_injective(i, self.len - 1);
            }
        }
        &mut self.inner[p]
    }

    /// Appends an element at the logical tail. Fails with `Overflow`, handing
    /// the element back, when the buffer is full.
    pub fn try_push(&mut self, el: T) -> (r: Result<T>)
        requires
            old(self).inv(),
        ensures
            final(self).inv(),
            final(self).spec_capacity() == old(self).spec_capacity(),
            final(self).spec_reversed() == old(self).spec_reversed(),
            match r {
                Ok(()) => old(self)@.len() < old(self).spec_capacity() && final(self)@ =~= old(
                    self,
                )@.push(el),
                Err(e) => old(self)@.len() == old(self).spec_capacity() && e == (
                Error::Overflow(el)) && final(self)@ =~= old(self)@,
            },
    {
        let capacity = self.inner.len();
        if self.len >= capacity {
            Err(Error::Overflow(el))
        } else if self.is_reversed {
            let start = if self.start_index == 0 {
                capacity - 1
            } else {
                self.start_index - 1
            };
            self.start_index = start;
            self.inner[start] = el;
            self.len = self.len + 1;
            proof {
                assert forall|i: int| 0 <= i < old(self)@.len() implies self@[i] == old(
                    self,
                )@[i] by {
                    assert(self.phys(i) == old(self).phys(i));
                    self.lemma_phys_injective(i, self.len - 1);
                }
            }
            Ok(())
        } else {
            let room = capacity - self.start_index;
            let p = if self.len < room {
                self.start_index + self.len
            } else {
                self.len - room
            };
            self.inner[p] = el;
            self.len = self.len + 1;
            proof {
                assert forall|i: int| 0 <= i < old(self)@.len() implies self@[i] == old(
                    self,
                )@[i] by {
                    assert(self.phys(i) == old(self).phys(i));
                    self.lemma_phys_injective(i, self.len - 1);
                }
            }
            Ok(())
        }
    }

    /// Appends the given elements in order; stops at the first overflow,
    /// handing the rejected element back.
    #[verifier::loop_isolation(false)]
    pub fn try_append(&mut self, items: Vec<T>) -> (r: Result<T>)
        requires
            old(self).inv(),
        ensures
            final(self).inv(),
            final(self).spec_capacity() == old(self).spec_capacity(),
            final(self).spec_reversed() == old(self).spec_reversed(),
            match r {
                Ok(()) => final(self)@ =~= old(self)@ + items@,
                Err(e) => {
                    let fit = old(self).spec_capacity() - old(self)@.len();
                    &&& items@.len() > fit
                    &&& e == (Error::Overflow(items@[fit]))
                    &&& final(self)@ =~= old(self)@ + items@.take(fit)
                },
            },
    {
        let mut rest = items;
        let ghost all = rest@;
        let mut consumed: usize = 0;
        while rest.len() > 0
            invariant
                self.inv(),
                self.spec_capacity() == old(self).spec_capacity(),
                self.spec_reversed() == old(self).spec_reversed(),
                consumed + rest@.len() == all.len(),
                rest@ =~= all.skip(consumed as int),
                self@ =~= old(self)@ + all.take(consumed as int),
            decreases rest@.len(),
        {
            let x = rest.remove(0);
            let ghost prev = self@;
            match self.try_push(x) {
                Ok(()) => {
                    consumed = consumed + 1;
                    proof {
                        assert(all.take(consumed as int) =~= all.take(consumed - 1).push(
                            all[consumed - 1],
                        ));
                    }
                },
                Err(e) => {
                    return Err(e);
                },
            }
        }
        proof {
            assert(all.take(consumed as int) =~= all);
        }
        Ok(())
    }

    /// Moves the elements at logical positions `[from, to)` out of the
    /// buffer, in order, leaving filler values in their slots. The logical
    /// bookkeeping is untouched; callers adjust it afterwards.
    fn take_range(&mut self, from: usize, to: usize) -> (r: Vec<T>)
        requires
            old(self).inv(),
            from <= to <= old(self)@.len(),
        ensures
            final(self).inv(),
            final(self)@.len() == old(self)@.len(),
            final(self).spec_capacity() == old(self).spec_capacity(),
            final(self).spec_reversed() == old(self).spec_reversed(),
            final(self).phys_eq(*old(self)),
            r@ =~= old(self)@.subrange(from as int, to as int),
            forall|i: int|
                0 <= i < old(self)@.len() && !(from <= i < to) ==> final(self)@[i] == old(
                    self,
                )@[i],
    {
        let mut taken: Vec<T> = Vec::new();
        let mut idx = from;
        while idx < to
            invariant
                self.inv(),
                from <= idx <= to <= old(self)@.len(),
                self@.len() == old(self)@.len(),
                self.spec_capacity() == old(self).spec_capacity(),
                self.spec_reversed() == old(self).spec_reversed(),
                self.phys_eq(*old(self)),
                taken@ =~= old(self)@.subrange(from as int, idx as int),
                forall|i: int|
                    0 <= i < old(self)@.len() && !(from <= i < idx) ==> self@[i] == old(self)@[i],
            decreases to - idx,
        {
            let j = if self.is_reversed {
                self.len - idx - 1
            } else {
                idx
            };
            let room = self.inner.len() - self.start_index;
            let p = if j < room {
                self.start_index + j
            } else {
                j - room
            };
            let mut tmp = T::default();
            core::mem::swap(&mut self.inner[p], &mut tmp);
            taken.push(tmp);
            proof {
                assert(p == self.phys(idx as int));
                assert forall|i: int|
                    0 <= i < old(self)@.len() && !(from <= i < idx + 1) implies self@[i] == old(
                    self,
                )@[i] by {
                    self.lemma_phys_injective(i, idx as int);
                }
            }
            idx = idx + 1;
        }
        taken
    }

    /// Whether two buffers agree on every field but the backing contents.
    closed spec fn phys_eq(&self, other: Buffer<T>) -> bool {
        &&& self.start_index == other.start_index
        &&& self.len == other.len
        &&& self.is_reversed == other.is_reversed
        &&& self.inner.len() == other.inner.len()
    }

    /// Empties the buffer, returning its former contents in logical order.
    pub fn clear(&mut self) -> (r: Truncated<T>)
        requires
            old(self).inv(),
        ensures
            final(self).inv(),
            final(self)@ =~= Seq::<T>::empty(),
            final(self).spec_capacity() == old(self).spec_capacity(),
            final(self).spec_reversed() == old(self).spec_reversed(),
            r@ =~= old(self)@,
    {
        let n = self.len;
        let taken = self.take_range(0, n);
        self.len = 0;
        proof {
            assert(old(self)@.subrange(0, old(self)@.len() as int) =~= old(self)@);
        }
        Truncated::new(taken)
    }

    /// Drops the first `index` logical elements and returns them in their
    /// original order. Clamped to `len - 1`: this never empties the buffer.
    pub fn truncate_back(&mut self, index: usize) -> (r: Truncated<T>)
        requires
            old(self).inv(),
        ensures
            final(self).inv(),
            final(self).spec_capacity() == old(self).spec_capacity(),
            final(self).spec_reversed() == old(self).spec_reversed(),
            ({
                let k = if old(self)@.len() == 0 {
                    0int
                } else if index >= old(self)@.len() {
                    old(self)@.len() - 1
                } else {
                    index as int
                };
                final(self)@ =~= old(self)@.skip(k) && r@ =~= old(self)@.take(k)
            }),
    {
        if self.len == 0 {
            return Truncated::empty();
        }
        let k = if index >= self.len {
            self.len - 1
        } else {
            index
        };
        let taken = self.take_range(0, k);
        if self.is_reversed {
            self.len = self.len - k;
        } else {
            let room = self.inner.len() - self.start_index;
            let start = if k < room {
                self.start_index + k
            } else {
                k - room
            };
            self.start_index = start;
            self.len = self.len - k;
        }
        proof {
            let pre = *old(self);
            let mid = pre@;
            assert forall|i: int| 0 <= i < self.len implies self@[i] == mid[k + i] by {
                assert(self.phys(i) == pre.phys(k + i));
            }
            assert(self@ =~= pre@.skip(k as int));
        }
        Truncated::new(taken)
    }

    /// Keeps logical positions `0..=index` and drops the rest, returning the
    /// dropped suffix in order. A position past the end is a no-op.
    pub fn truncate_forward(&mut self, index: usize) -> (r: Truncated<T>)
        requires
            old(self).inv(),
        ensures
            final(self).inv(),
            final(self).spec_capacity() == old(self).spec_capacity(),
            final(self).spec_reversed() == old(self).spec_reversed(),
            ({
                if index < old(self)@.len() {
                    final(self)@ =~= old(self)@.take(index + 1) && r@ =~= old(self)@.skip(
                        index + 1,
                    )
                } else {
                    final(self)@ =~= old(self)@ && r@ =~= Seq::<T>::empty()
                }
            }),
    {
        if self.len == 0 {
            return Truncated::empty();
        }
        if index >= self.len {
            return Truncated::empty();
        }
        let keep = index + 1;
        let n = self.len;
        let taken = self.take_range(keep, n);
        if self.is_reversed {
            let shift = self.len - keep;
            let room = self.inner.len() - self.start_index;
            let start = if shift < room {
                self.start_index + shift
            } else {
                shift - room
            };
            self.start_index = start;
            self.len = keep;
        } else {
            self.len = keep;
        }
        proof {
            let pre = *old(self);
            assert forall|i: int| 0 <= i < self.len implies self@[i] == pre@[i] by {
                assert(self.phys(i) == pre.phys(i));
            }
            assert(self@ =~= pre@.take(keep as int));
            assert(taken@ =~= pre@.skip(keep as int));
        }
        Truncated::new(taken)
    }

    /// Enlarges the capacity by half, preserving the logical contents.
    pub fn grow(&mut self)
        requires
            old(self).inv(),
            old(self).spec_capacity() + old(self).spec_capacity() / 2 <= usize::MAX,
        ensures
            final(self).inv(),
            final(self)@ =~= old(self)@,
            final(self).spec_capacity() == old(self).spec_capacity() + old(
                self,
            ).spec_capacity() / 2,
            final(self).spec_reversed() == old(self).spec_reversed(),
    {
        let cap = self.inner.len();
        let new_cap = cap + cap / 2;
        let n = self.len;
        let mut fresh: Vec<T> = Vec::new();
        let mut p: usize = 0;
        while p < n
            invariant
                self.inv(),
                n == self.len,
                p <= n,
                self.phys_eq(*old(self)),
                fresh@.len() == p,
                forall|q: int|
                    0 <= q < p ==> fresh@[q] == old(self)@[
                        if old(self).spec_reversed() {
                            n - 1 - q
                        } else {
                            q
                        }
                    ],
                forall|i: int|
                    0 <= i < n && (if self.spec_reversed() {
                        n - 1 - i >= p
                    } else {
                        i >= p
                    }) ==> self@[i] == old(self)@[i],
            decreases n - p,
        {
            let li = if self.is_reversed {
                n - 1 - p
            } else {
                p
            };
            let j = if self.is_reversed {
                self.len - li - 1
            } else {
                li
            };
            let room = self.inner.len() - self.start_index;
            let slot = if j < room {
                self.start_index + j
            } else {
                j - room
            };
            let mut tmp = T::default();
            core::mem::swap(&mut self.inner[slot], &mut tmp);
            fresh.push(tmp);
            proof {
                assert(slot == self.phys(li as int));
                assert forall|i: int|
                    0 <= i < n && (if self.spec_reversed() {
                        n - 1 - i >= p + 1
                    } else {
                        i >= p + 1
                    }) implies self@[i] == old(self)@[i] by {
                    self.lemma_phys_injective(i, li as int);
                }
            }
            p = p + 1;
        }
        while fresh.len() < new_cap
            invariant
                fresh@.len() >= n,
                fresh@.len() <= new_cap,
                forall|q: int|
                    0 <= q < n ==> fresh@[q] == old(self)@[
                        if old(self).spec_reversed() {
                            n - 1 - q
                        } else {
                            q
                        }
                    ],
            decreases new_cap - fresh@.len(),
        {
            fresh.push(T::default());
        }
        self.inner = fresh;
        self.start_index = 0;
        proof {
            assert forall|i: int| 0 <= i < self.len implies self@[i] == old(self)@[i] by {
                assert(self.phys(i) == if self.is_reversed {
                    self.len - 1 - i
                } else {
                    i
                });
            }
            assert(self@ =~= old(self)@);
        }
    }

    /// A cursor over the buffer's elements in logical order.
    pub fn iter(&self) -> (r: Iter<'_, T>)
        ensures
            r.buffer_spec() == *self,
            r.pos_spec() == 0,
    {
        Iter { buffer: self, index: 0 }
    }

    /// Maps an arbitrary offset into the backing store by wrapping modulo the
    /// capacity.
    pub fn wrap_raw_index(&self, index: usize) -> (r: usize)
        requires
            self.inv(),
        ensures
            r == index as int % self.spec_capacity(),
    {
        index % self.inner.len()
    }
}

/// A read cursor over a `Buffer`.
pub struct Iter<'rb, T> {
    buffer: &'rb Buffer<T>,
    index: usize,
}

impl<'rb, T: Default> Iter<'rb, T> {
    /// The buffer being read.
    pub closed spec fn buffer_spec(&self) -> Buffer<T> {
        *self.buffer
    }

    /// The position of the cursor.
    pub closed spec fn pos_spec(&self) -> int {
        self.index as int
    }

    /// The element under the cursor, advancing past it; `None` at the end.
    pub fn next(&mut self) -> (r: Option<&'rb T>)
        requires
            old(self).buffer_spec().inv(),
        ensures
            final(self).buffer_spec() == old(self).buffer_spec(),
            ({
                let buf = old(self).buffer_spec();
                let pos = old(self).pos_spec();
                if pos < buf@.len() {
                    r matches Some(v) && *v == buf@[pos] && final(self).pos_spec() == pos + 1
                } else {
                    r is None && final(self).pos_spec() == pos
                }
            }),
    {
        if self.index < self.buffer.len() {
            let i = self.index;
            self.index = i + 1;
            Some(self.buffer.get(i))
        } else {
            None
        }
    }
}

/// The elements removed from a buffer by a truncation, in their original
/// logical order.
#[derive(Debug)]
pub struct Truncated<T> {
    items: Vec<T>,
}

impl<T> View for Truncated<T> {
    type V = Seq<T>;

    closed spec fn view(&self) -> Seq<T> {
        self.items@
    }
}

impl<T> Truncated<T> {
    /// Wraps the given removed elements.
    pub fn new(items: Vec<T>) -> (r: Self)
        ensures
            r@ == items@,
    {
        Truncated { items }
    }

    /// No removed elements.
    pub fn empty() -> (r: Self)
        ensures
            r@ =~= Seq::<T>::empty(),
    {
        Truncated { items: Vec::new() }
    }

    /// How many elements were removed.
    pub fn len(&self) -> (r: usize)
        ensures
            r == self@.len(),
    {
        self.items.len()
    }

    /// Whether no elements were removed.
    pub fn is_empty(&self) -> (r: bool)
        ensures
            r == (self@.len() == 0),
    {
        self.items.len() == 0
    }

    /// The element at position `n`, if any.
    pub fn nth(&self, n: usize) -> (r: Option<&T>)
        ensures
            match r {
                Some(v) => n < self@.len() && *v == self@[n as int],
                None => n >= self@.len(),
            },
    {
        if n < self.items.len() {
            Some(&self.items[n])
        } else {
            None
        }
    }

    /// The first removed element, if any.
    pub fn peek_first(&self) -> (r: Option<&T>)
        ensures
            match r {
                Some(v) => self@.len() > 0 && *v == self@[0],
                None => self@.len() == 0,
            },
    {
        self.nth(0)
    }

    /// The last removed element, if any.
    pub fn peek_last(&self) -> (r: Option<&T>)
        ensures
            match r {
                Some(v) => self@.len() > 0 && *v == self@[self@.len() - 1],
                None => self@.len() == 0,
            },
    {
        if self.items.len() == 0 {
            None
        } else {
            self.nth(self.items.len() - 1)
        }
    }

    /// The removed elements as a vector, in order.
    pub fn into_vec(self) -> (r: Vec<T>)
        ensures
            r@ == self@,
    {
        self.items
    }
}

} // verus!
