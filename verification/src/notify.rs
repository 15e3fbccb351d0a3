//! The state machine of a single-waiter notifier: one waiter at a time, and a
//! notification that comes before the wait is kept until the wait.
use vstd::prelude::*;

verus! {

/// The states of a notifier.
#[derive(Debug, Clone, Copy, PartialEq, Eq, Structural)]
pub enum NotifyState {
    /// No waiter, no notification.
    Empty,
    /// A waiter is registered.
    Waiting,
    /// A notification is waiting to be taken.
    Notified,
}

/// The byte an atomic holds for a state.
pub open spec fn spec_state_code(s: NotifyState) -> u8 {
    match s {
        NotifyState::Empty => 0,
        NotifyState::Waiting => 1,
        NotifyState::Notified => 2,
    }
}

/// The byte for `s`.
pub fn state_to_u8(s: NotifyState) -> (b: u8)
    ensures
        b == spec_state_code(s),
{
    match s {
        NotifyState::Empty => 0,
        NotifyState::Waiting => 1,
        NotifyState::Notified => 2,
    }
}

/// The state a byte stands for; bytes other than the three codes read as
/// `Empty`.
pub fn state_from_u8(b: u8) -> (s: NotifyState)
    ensures
        b <= 2 ==> spec_state_code(s) == b,
        b > 2 ==> s == NotifyState::Empty,
{
    if b == 1 {
        NotifyState::Waiting
    } else if b == 2 {
        NotifyState::Notified
    } else {
        NotifyState::Empty
    }
}

/// What registering a waiter does from a state.
#[derive(Debug, Clone, Copy, PartialEq, Eq, Structural)]
pub struct RegisterStep {
    /// The state to move to.
    pub next: NotifyState,
    /// Whether to keep the waiter's waker (replacing one kept before).
    pub store_waker: bool,
    /// Whether the wait is over at once.
    pub ready: bool,
}

/// The state `on_notify` moves to and whether it wakes.
pub open spec fn on_notify_spec(prev: NotifyState) -> (NotifyState, bool) {
    (NotifyState::Notified, prev == NotifyState::Waiting)
}

/// The step `on_register` takes.
pub open spec fn on_register_spec(s: NotifyState) -> RegisterStep {
    match s {
        NotifyState::Empty => RegisterStep { next: NotifyState::Waiting, store_waker: true, ready: false },
        NotifyState::Notified => RegisterStep { next: NotifyState::Empty, store_waker: false, ready: true },
        NotifyState::Waiting => RegisterStep { next: NotifyState::Waiting, store_waker: true, ready: false },
    }
}

/// `notify_one` from state `prev`: the state becomes `Notified`, and the
/// waiter is woken when one is registered.
pub fn on_notify(prev: NotifyState) -> (r: (NotifyState, bool))
    ensures
        r == on_notify_spec(prev),
{
    match prev {
        NotifyState::Waiting => (NotifyState::Notified, true),
        _ => (NotifyState::Notified, false),
    }
}

/// Registering a waiter from state `s`: from `Empty` it waits; a notification
/// that came first is taken, and the wait is over; an earlier waiter's waker is
/// replaced.
pub fn on_register(s: NotifyState) -> (r: RegisterStep)
    ensures
        r == on_register_spec(s),
{
    match s {
        NotifyState::Empty => RegisterStep { next: NotifyState::Waiting, store_waker: true, ready: false },
        NotifyState::Notified => RegisterStep { next: NotifyState::Empty, store_waker: false, ready: true },
        NotifyState::Waiting => RegisterStep { next: NotifyState::Waiting, store_waker: true, ready: false },
    }
}

/// A later look at the state by a registered waiter: a notification is taken
/// (back to `Empty`) and the wait is over; otherwise nothing changes.
pub fn on_poll(s: NotifyState) -> (r: (NotifyState, bool))
    ensures
        r == (if s == NotifyState::Notified {
            (NotifyState::Empty, true)
        } else {
            (s, false)
        }),
{
    match s {
        NotifyState::Notified => (NotifyState::Empty, true),
        _ => (s, false),
    }
}

/// A notification sent before anyone waits is kept: the next registration
/// takes it and is over at once, leaving the notifier empty.
pub proof fn law_notification_before_wait_is_kept(s: NotifyState)
    ensures
        ({
            let after_notify = on_notify_spec(s).0;
            &&& on_register_spec(after_notify).ready
            &&& on_register_spec(after_notify).next == NotifyState::Empty
        }),
{
}

/// A waiter registered on an empty notifier is woken by the next notification.
pub proof fn law_registered_waiter_is_woken()
    ensures
        on_notify_spec(on_register_spec(NotifyState::Empty).next).1,
        !on_register_spec(NotifyState::Empty).ready,
{
}

} // verus!
