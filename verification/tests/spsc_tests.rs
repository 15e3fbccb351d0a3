use kestrel_timer::spsc::{ChannelState, SendError, TryRecvError, TrySendError};

#[test]
fn channel_state_send_then_receive_in_order() {
    let mut ch = ChannelState::<i32>::new(4);
    assert_eq!(ch.try_send(1), Ok(()));
    assert_eq!(ch.try_send(2), Ok(()));
    assert_eq!(ch.try_recv(), Ok(1));
    assert_eq!(ch.try_recv(), Ok(2));
    assert_eq!(ch.try_recv(), Err(TryRecvError::Empty));
}

#[test]
fn channel_state_full_hands_value_back() {
    let mut ch = ChannelState::<i32>::new(4);
    for i in 1..=4 {
        ch.try_send(i).unwrap();
    }
    assert_eq!(ch.try_send(5), Err(TrySendError::Full(5)));
    assert_eq!(ch.len(), 4);
    assert_eq!(ch.try_recv(), Ok(1));
    assert_eq!(ch.try_send(5), Ok(()));
}

#[test]
fn channel_state_closed_drains_then_reports_closed() {
    let mut ch = ChannelState::<i32>::new(4);
    ch.try_send(1).unwrap();
    ch.close();
    assert!(ch.is_closed());
    assert_eq!(ch.try_send(2), Err(TrySendError::Closed(2)));
    assert_eq!(ch.try_recv(), Ok(1));
    assert_eq!(ch.try_recv(), Err(TryRecvError::Closed));
}

#[test]
fn channel_state_capacity_and_len() {
    let mut ch = ChannelState::<i32>::new(8);
    assert_eq!(ch.capacity(), 8);
    assert_eq!(ch.len(), 0);
    assert!(ch.is_empty());
    ch.try_send(1).unwrap();
    ch.try_send(2).unwrap();
    assert_eq!(ch.len(), 2);
    assert!(!ch.is_empty());
    let rounded = ChannelState::<i32>::new(5);
    assert_eq!(rounded.capacity(), 8);
}

#[test]
fn send_error_carries_value() {
    let e: SendError<i32> = SendError::Closed(3);
    assert_eq!(e, SendError::Closed(3));
}
