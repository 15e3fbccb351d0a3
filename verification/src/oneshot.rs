//! The states a one-shot completion channel carries, as the byte it stores
//! them in, and the receiver's reading of that byte.
use crate::task::TaskCompletion;
use vstd::prelude::*;

verus! {

/// The byte of a completion channel that nothing has been sent on yet.
pub const ONESHOT_PENDING: u8 = 0;

/// The byte for `TaskCompletion::Called`.
pub const ONESHOT_CALLED: u8 = 1;

/// The byte for `TaskCompletion::Cancelled`.
pub const ONESHOT_CANCELLED: u8 = 2;

/// A state that a one-shot channel can carry, stored as one byte. Each state
/// has its own byte, which decodes back to it and is never the pending byte.
pub trait State: Sized {
    /// The byte that stands for `self`.
    spec fn spec_code(self) -> u8;

    /// The state a byte stands for, if any.
    spec fn spec_decode(value: u8) -> Option<Self>;

    /// The byte of a channel with nothing sent yet.
    spec fn spec_pending() -> u8;

    /// Every state decodes from its own byte, which is not the pending one.
    proof fn lemma_code_roundtrip(s: Self)
        ensures
            Self::spec_decode(s.spec_code()) == Some(s),
            s.spec_code() != Self::spec_pending(),
    ;

    fn to_u8(&self) -> (r: u8)
        ensures
            r == self.spec_code(),
    ;

    fn from_u8(value: u8) -> (r: Option<Self>)
        ensures
            r == Self::spec_decode(value),
    ;

    fn pending_value() -> (r: u8)
        ensures
            r == Self::spec_pending(),
    ;
}

impl State for TaskCompletion {
    open spec fn spec_code(self) -> u8 {
        match self {
            TaskCompletion::Called => ONESHOT_CALLED,
            TaskCompletion::Cancelled => ONESHOT_CANCELLED,
        }
    }

    open spec fn spec_decode(value: u8) -> Option<Self> {
        if value == ONESHOT_CALLED {
            Some(TaskCompletion::Called)
        } else if value == ONESHOT_CANCELLED {
            Some(TaskCompletion::Cancelled)
        } else {
            None
        }
    }

    open spec fn spec_pending() -> u8 {
        ONESHOT_PENDING
    }

    proof fn lemma_code_roundtrip(s: Self) {
    }

    fn to_u8(&self) -> (r: u8) {
        match self {
            TaskCompletion::Called => ONESHOT_CALLED,
            TaskCompletion::Cancelled => ONESHOT_CANCELLED,
        }
    }

    fn from_u8(value: u8) -> (r: Option<Self>) {
        if value == ONESHOT_CALLED {
            Some(TaskCompletion::Called)
        } else if value == ONESHOT_CANCELLED {
            Some(TaskCompletion::Cancelled)
        } else {
            None
        }
    }

    fn pending_value() -> (r: u8) {
        ONESHOT_PENDING
    }
}

/// A bare completion, with no state: one byte for done, another for pending.
impl State for () {
    open spec fn spec_code(self) -> u8 {
        1
    }

    open spec fn spec_decode(value: u8) -> Option<Self> {
        if value == 1 {
            Some(())
        } else {
            None
        }
    }

    open spec fn spec_pending() -> u8 {
        0
    }

    proof fn lemma_code_roundtrip(s: Self) {
    }

    fn to_u8(&self) -> (r: u8) {
        1
    }

    fn from_u8(value: u8) -> (r: Option<Self>) {
        if value == 1 {
            Some(())
        } else {
            None
        }
    }

    fn pending_value() -> (r: u8) {
        0
    }
}

/// What a receiver reads from the stored byte: the state, once one was sent.
pub open spec fn spec_completed<T: State>(current: u8) -> Option<T> {
    if current != T::spec_pending() {
        T::spec_decode(current)
    } else {
        None
    }
}

/// The receiver's check of the stored byte: the state it stands for, unless it
/// is the pending byte or stands for none.
pub fn completed_state<T: State>(current: u8) -> (r: Option<T>)
    ensures
        r == spec_completed::<T>(current),
{
    match T::from_u8(current) {
        Some(state) => {
            if current != T::pending_value() {
                Some(state)
            } else {
                None
            }
        },
        None => None,
    }
}

/// A receiver that reads the byte a sender stored for `s` gets `s`; one that
/// reads the pending byte gets nothing yet.
pub proof fn law_send_then_receive<T: State>(s: T)
    ensures
        spec_completed::<T>(s.spec_code()) == Some(s),
        spec_completed::<T>(T::spec_pending()) == None::<T>,
{
    T::lemma_code_roundtrip(s);
}

} // verus!
