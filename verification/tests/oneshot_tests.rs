use kestrel_timer::oneshot::{completed_state, State, ONESHOT_CALLED, ONESHOT_CANCELLED, ONESHOT_PENDING};
use kestrel_timer::task::TaskCompletion;

#[test]
fn task_completion_bytes_round_trip() {
    for s in [TaskCompletion::Called, TaskCompletion::Cancelled] {
        let code = s.to_u8();
        assert_ne!(code, TaskCompletion::pending_value());
        assert_eq!(TaskCompletion::from_u8(code), Some(s));
    }
    assert_eq!(TaskCompletion::Called.to_u8(), ONESHOT_CALLED);
    assert_eq!(TaskCompletion::Cancelled.to_u8(), ONESHOT_CANCELLED);
    assert_eq!(TaskCompletion::pending_value(), ONESHOT_PENDING);
    assert_eq!(TaskCompletion::from_u8(7), None);
}

#[test]
fn unit_state_bytes() {
    assert_eq!(().to_u8(), 1);
    assert_eq!(<() as State>::pending_value(), 0);
    assert_eq!(<() as State>::from_u8(1), Some(()));
    assert_eq!(<() as State>::from_u8(0), None);
}

#[test]
fn receiver_reads_only_a_sent_state() {
    assert_eq!(completed_state::<TaskCompletion>(ONESHOT_PENDING), None);
    assert_eq!(completed_state::<TaskCompletion>(ONESHOT_CALLED), Some(TaskCompletion::Called));
    assert_eq!(completed_state::<TaskCompletion>(ONESHOT_CANCELLED), Some(TaskCompletion::Cancelled));
    assert_eq!(completed_state::<TaskCompletion>(9), None);
    assert_eq!(completed_state::<()>(1), Some(()));
    assert_eq!(completed_state::<()>(0), None);
}
