use kestrel_timer::notify::{on_notify, on_poll, on_register, state_from_u8, state_to_u8, NotifyState, RegisterStep};

#[test]
fn notification_before_wait_is_kept() {
    let (after, woke) = on_notify(NotifyState::Empty);
    assert_eq!(after, NotifyState::Notified);
    assert!(!woke);
    assert_eq!(on_register(after), RegisterStep { next: NotifyState::Empty, store_waker: false, ready: true });
}

#[test]
fn registered_waiter_is_woken() {
    let step = on_register(NotifyState::Empty);
    assert_eq!(step, RegisterStep { next: NotifyState::Waiting, store_waker: true, ready: false });
    assert_eq!(on_notify(step.next), (NotifyState::Notified, true));
    assert_eq!(on_poll(NotifyState::Notified), (NotifyState::Empty, true));
    assert_eq!(on_poll(NotifyState::Waiting), (NotifyState::Waiting, false));
    assert_eq!(
        on_register(NotifyState::Waiting),
        RegisterStep { next: NotifyState::Waiting, store_waker: true, ready: false }
    );
}

#[test]
fn state_bytes_round_trip() {
    for s in [NotifyState::Empty, NotifyState::Waiting, NotifyState::Notified] {
        assert_eq!(state_from_u8(state_to_u8(s)), s);
    }
    assert_eq!(state_to_u8(NotifyState::Notified), 2);
    assert_eq!(state_from_u8(9), NotifyState::Empty);
}
