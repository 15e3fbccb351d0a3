//! A bounded first-in first-out ring buffer. Its capacity is the requested one
//! rounded up to a power of two; a push into a full buffer hands the value
//! back, a pop from an empty one reports it.
use vstd::arithmetic::power2::is_pow2;
use vstd::prelude::*;

verus! {

/// A push into a full buffer: the value comes back.
#[derive(Debug, Clone, Copy, PartialEq, Eq)]
pub enum PushError<T> {
    Full(T),
}

/// A pop from an empty buffer.
#[derive(Debug, Clone, Copy, PartialEq, Eq)]
pub enum PopError {
    Empty,
}

/// `p` is the least power of two that is at least `n`.
pub open spec fn is_next_power_of_two(n: nat, p: nat) -> bool {
    &&& is_pow2(p as int)
    &&& p >= n
    &&& (p > 1 ==> p / 2 < n)
}

/// The largest capacity that can be asked for: above it, the next power of two
/// does not fit in `usize`.
pub open spec fn max_capacity() -> nat {
    (usize::MAX / 2 + 1) as nat
}

/// The least power of two that is at least `n`.
pub fn next_power_of_two(n: usize) -> (p: usize)
    requires
        1 <= n <= max_capacity(),
    ensures
        is_next_power_of_two(n as nat, p as nat),
{
    let mut p: usize = 1;
    proof {
        reveal(is_pow2);
    }
    while p < n
        invariant
            1 <= n <= max_capacity(),
            p >= 1,
            is_pow2(p as int),
            p > 1 ==> p / 2 < n,
        decreases usize::MAX - p,
    {
        proof {
            reveal(is_pow2);
            assert((2 * p) / 2 == p);
            assert((2 * p) % 2 == 0);
        }
        p = p * 2;
    }
    p
}

/// The buffer: `slots` holds the values, the oldest at `head`, the others after
/// it in order, wrapping round the end.
pub struct RingBuffer<T> {
    slots: Vec<Option<T>>,
    head: usize,
    len: usize,
}

impl<T> RingBuffer<T> {
    /// The slot that holds the `i`-th oldest value.
    pub closed spec fn spec_pos(self, i: int) -> int {
        if self.head + i < self.slots@.len() {
            self.head + i
        } else {
            self.head + i - self.slots@.len()
        }
    }

    /// The capacity.
    pub closed spec fn spec_capacity(self) -> nat {
        self.slots@.len()
    }

    /// The buffer's invariant: a power-of-two capacity, the head a
    /// slot, the values no more than the capacity, each in a filled slot.
    pub closed spec fn wf(self) -> bool {
        &&& is_pow2(self.slots@.len() as int)
        &&& self.head < self.slots@.len()
        &&& self.len <= self.slots@.len()
        &&& forall|i: int| 0 <= i < self.len ==> (#[trigger] self.slots@[self.spec_pos(i)]) is Some
    }
}

impl<T> View for RingBuffer<T> {
    type V = Seq<T>;

    /// The values in the buffer, oldest first.
    closed spec fn view(&self) -> Seq<T> {
        Seq::new(self.len as nat, |i: int| self.slots@[self.spec_pos(i)]->Some_0)
    }
}

impl<T> RingBuffer<T> {
    /// An empty buffer whose capacity is `capacity` rounded up to a power of two.
    pub fn new(capacity: usize) -> (b: Self)
        requires
            1 <= capacity <= max_capacity(),
        ensures
            b.wf(),
            b@ == Seq::<T>::empty(),
            is_next_power_of_two(capacity as nat, b.spec_capacity()),
    {
        let actual = next_power_of_two(capacity);
        let mut slots: Vec<Option<T>> = Vec::with_capacity(actual);
        let mut i: usize = 0;
        while i < actual
            invariant
                i <= actual,
                slots@.len() == i,
            decreases actual - i,
        {
            slots.push(None);
            i += 1;
        }
        let b = RingBuffer { slots, head: 0, len: 0 };
        assert(b@ =~= Seq::<T>::empty());
        b
    }

    /// The capacity: how many values the buffer holds at most.
    pub fn capacity(&self) -> (n: usize)
        ensures
            n == self.spec_capacity(),
    {
        self.slots.len()
    }

    /// Appends `value` after the newest value, unless the buffer is full.
    pub fn push(&mut self, value: T) -> (r: Result<(), PushError<T>>)
        requires
            old(self).wf(),
        ensures
            final(self).wf(),
            final(self).spec_capacity() == old(self).spec_capacity(),
            old(self)@.len() < old(self).spec_capacity() ==> r is Ok && final(self)@ == old(self)@.push(value),
            old(self)@.len() >= old(self).spec_capacity() ==> r == Err::<(), PushError<T>>(PushError::Full(value))
                && final(self)@ == old(self)@,
    {
        let cap = self.slots.len();
        if self.len >= cap {
            return Err(PushError::Full(value));
        }
        let pos = if self.len < cap - self.head {
            self.head + self.len
        } else {
            self.len - (cap - self.head)
        };
        let ghost o = *self;
        self.slots.set(pos, Some(value));
        self.len = self.len + 1;
        proof {
            assert(self.spec_pos(o.len as int) == pos);
            assert forall|i: int| 0 <= i < o.len implies self.spec_pos(i) == o.spec_pos(i) && self.spec_pos(i) != pos by {}
            assert forall|i: int| 0 <= i < self.len implies (#[trigger] self.slots@[self.spec_pos(i)]) is Some by {
                if i < o.len {
                    assert(o.slots@[o.spec_pos(i)] is Some);
                }
            }
            assert(self@ =~= o@.push(value));
        }
        Ok(())
    }

    /// Takes out the oldest value, unless the buffer is empty.
    pub fn pop(&mut self) -> (r: Result<T, PopError>)
        requires
            old(self).wf(),
        ensures
            final(self).wf(),
            final(self).spec_capacity() == old(self).spec_capacity(),
            old(self)@.len() == 0 ==> r == Err::<T, PopError>(PopError::Empty) && final(self)@ == old(self)@,
            old(self)@.len() > 0 ==> r == Ok::<T, PopError>(old(self)@[0]) && final(self)@ == old(self)@.drop_first(),
    {
        if self.len == 0 {
            return Err(PopError::Empty);
        }
        let ghost o = *self;
        let cap = self.slots.len();
        let taken = self.slots[self.head].take();
        self.head = if self.head + 1 < cap {
            self.head + 1
        } else {
            0
        };
        self.len = self.len - 1;
        proof {
            assert(o.spec_pos(0) == o.head);
            assert forall|i: int| 0 <= i < self.len implies self.spec_pos(i) == o.spec_pos(i + 1) && o.spec_pos(i + 1) != o.head by {}
            assert forall|i: int| 0 <= i < self.len implies (#[trigger] self.slots@[self.spec_pos(i)]) is Some by {
                assert(o.slots@[o.spec_pos(i + 1)] is Some);
            }
            assert(self@ =~= o@.drop_first());
        }
        match taken {
            Some(v) => Ok(v),
            None => Err(PopError::Empty),
        }
    }

    /// Whether the buffer holds no value.
    pub fn is_empty(&self) -> (r: bool)
        ensures
            r == (self@.len() == 0),
    {
        self.len == 0
    }

    /// How many values the buffer holds.
    pub fn slots(&self) -> (n: usize)
        ensures
            n == self@.len(),
    {
        self.len
    }
}

} // verus!
