//! The state of a bounded single-producer single-consumer channel: a ring
//! buffer and a closed flag, which either end sets when it goes away. Sending
//! fails on a closed channel and on a full buffer; receiving drains what is
//! buffered even after the channel closed, and reports the close only once the
//! buffer is empty.
use crate::ringbuf::{is_next_power_of_two, max_capacity, PopError, PushError, RingBuffer};
use vstd::prelude::*;

verus! {

/// A send on a closed channel: the value comes back.
#[derive(Debug, Clone, Copy, PartialEq, Eq)]
pub enum SendError<T> {
    Closed(T),
}

/// A receive that found nothing.
#[derive(Debug, Clone, Copy, PartialEq, Eq)]
pub enum TryRecvError {
    /// Nothing buffered; the channel is open.
    Empty,
    /// Nothing buffered, and the channel is closed.
    Closed,
}

/// A send that could not be made: the value comes back.
#[derive(Debug, Clone, Copy, PartialEq, Eq)]
pub enum TrySendError<T> {
    /// The buffer is full.
    Full(T),
    /// The channel is closed.
    Closed(T),
}

/// The channel's buffer and closed flag.
pub struct ChannelState<T> {
    buffer: RingBuffer<T>,
    closed: bool,
}

impl<T> ChannelState<T> {
    pub closed spec fn wf(self) -> bool {
        self.buffer.wf()
    }

    /// The buffered messages, oldest first.
    pub closed spec fn spec_messages(self) -> Seq<T> {
        self.buffer@
    }

    pub closed spec fn spec_closed(self) -> bool {
        self.closed
    }

    pub closed spec fn spec_capacity(self) -> nat {
        self.buffer.spec_capacity()
    }

    /// An open, empty channel whose capacity is `capacity` rounded up to a
    /// power of two.
    pub fn new(capacity: usize) -> (c: Self)
        requires
            1 <= capacity <= max_capacity(),
        ensures
            c.wf(),
            c.spec_messages() == Seq::<T>::empty(),
            !c.spec_closed(),
            is_next_power_of_two(capacity as nat, c.spec_capacity()),
    {
        ChannelState { buffer: RingBuffer::new(capacity), closed: false }
    }

    /// Buffers `value` behind the other messages: refused with the value when
    /// the channel is closed, else when the buffer is full.
    pub fn try_send(&mut self, value: T) -> (r: Result<(), TrySendError<T>>)
        requires
            old(self).wf(),
        ensures
            final(self).wf(),
            final(self).spec_closed() == old(self).spec_closed(),
            final(self).spec_capacity() == old(self).spec_capacity(),
            old(self).spec_closed() ==> r == Err::<(), TrySendError<T>>(TrySendError::Closed(value))
                && final(self).spec_messages() == old(self).spec_messages(),
            !old(self).spec_closed() && old(self).spec_messages().len() >= old(self).spec_capacity() ==> r
                == Err::<(), TrySendError<T>>(TrySendError::Full(value)) && final(self).spec_messages()
                == old(self).spec_messages(),
            !old(self).spec_closed() && old(self).spec_messages().len() < old(self).spec_capacity() ==> r is Ok
                && final(self).spec_messages() == old(self).spec_messages().push(value),
    {
        if self.closed {
            return Err(TrySendError::Closed(value));
        }
        match self.buffer.push(value) {
            Ok(()) => Ok(()),
            Err(PushError::Full(v)) => Err(TrySendError::Full(v)),
        }
    }

    /// Takes the oldest buffered message; with none, reports whether the
    /// channel is closed.
    pub fn try_recv(&mut self) -> (r: Result<T, TryRecvError>)
        requires
            old(self).wf(),
        ensures
            final(self).wf(),
            final(self).spec_closed() == old(self).spec_closed(),
            final(self).spec_capacity() == old(self).spec_capacity(),
            old(self).spec_messages().len() > 0 ==> r == Ok::<T, TryRecvError>(old(self).spec_messages()[0])
                && final(self).spec_messages() == old(self).spec_messages().drop_first(),
            old(self).spec_messages().len() == 0 ==> final(self).spec_messages() == old(self).spec_messages()
                && r == Err::<T, TryRecvError>(
                if old(self).spec_closed() {
                    TryRecvError::Closed
                } else {
                    TryRecvError::Empty
                },
            ),
    {
        match self.buffer.pop() {
            Ok(v) => Ok(v),
            Err(PopError::Empty) => {
                if self.closed {
                    Err(TryRecvError::Closed)
                } else {
                    Err(TryRecvError::Empty)
                }
            },
        }
    }

    /// Marks the channel closed; the buffered messages stay.
    pub fn close(&mut self)
        requires
            old(self).wf(),
        ensures
            final(self).wf(),
            final(self).spec_closed(),
            final(self).spec_messages() == old(self).spec_messages(),
            final(self).spec_capacity() == old(self).spec_capacity(),
    {
        self.closed = true;
    }

    /// Whether the channel is closed.
    pub fn is_closed(&self) -> (r: bool)
        ensures
            r == self.spec_closed(),
    {
        self.closed
    }

    /// Whether no message is buffered.
    pub fn is_empty(&self) -> (r: bool)
        ensures
            r == (self.spec_messages().len() == 0),
    {
        self.buffer.is_empty()
    }

    /// How many messages are buffered.
    pub fn len(&self) -> (n: usize)
        ensures
            n == self.spec_messages().len(),
    {
        self.buffer.slots()
    }

    /// The capacity.
    pub fn capacity(&self) -> (n: usize)
        ensures
            n == self.spec_capacity(),
    {
        self.buffer.capacity()
    }
}

} // verus!
