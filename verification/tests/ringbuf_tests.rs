use kestrel_timer::ringbuf::{next_power_of_two, PopError, PushError, RingBuffer};
use std::sync::atomic::{AtomicUsize, Ordering};
use std::sync::Arc;

#[test]
fn test_basic_push_pop() {
    let mut buffer = RingBuffer::<i32>::new(4);

    assert!(buffer.push(1).is_ok());
    assert!(buffer.push(2).is_ok());
    assert!(buffer.push(3).is_ok());

    assert_eq!(buffer.pop().unwrap(), 1);
    assert_eq!(buffer.pop().unwrap(), 2);
    assert_eq!(buffer.pop().unwrap(), 3);
    assert!(buffer.pop().is_err());
}

#[test]
fn test_capacity_rounding() {
    let buffer = RingBuffer::<i32>::new(5);
    assert_eq!(buffer.capacity(), 8);

    let buffer = RingBuffer::<i32>::new(32);
    assert_eq!(buffer.capacity(), 32);

    let buffer = RingBuffer::<i32>::new(33);
    assert_eq!(buffer.capacity(), 64);
}

#[test]
fn test_buffer_full() {
    let mut buffer = RingBuffer::<i32>::new(4);

    assert!(buffer.push(1).is_ok());
    assert!(buffer.push(2).is_ok());
    assert!(buffer.push(3).is_ok());
    assert!(buffer.push(4).is_ok());

    assert!(matches!(buffer.push(5), Err(PushError::Full(5))));

    assert_eq!(buffer.pop().unwrap(), 1);

    assert!(buffer.push(5).is_ok());
}

#[test]
fn test_buffer_empty() {
    let mut buffer = RingBuffer::<i32>::new(4);

    assert!(buffer.pop().is_err());
    assert!(buffer.is_empty());

    buffer.push(42).unwrap();
    assert!(!buffer.is_empty());

    buffer.pop().unwrap();
    assert!(buffer.is_empty());
}

#[test]
fn test_slots() {
    let mut buffer = RingBuffer::<i32>::new(8);

    assert_eq!(buffer.slots(), 0);

    buffer.push(1).unwrap();
    buffer.push(2).unwrap();
    buffer.push(3).unwrap();

    assert_eq!(buffer.slots(), 3);
}

#[test]
fn test_wrap_around() {
    let mut buffer = RingBuffer::<i32>::new(4);

    for round in 0..10 {
        for i in 0..4 {
            buffer.push(round * 10 + i).unwrap();
        }
        for i in 0..4 {
            assert_eq!(buffer.pop().unwrap(), round * 10 + i);
        }
    }
}

#[derive(Debug)]
struct DropCounter {
    counter: Arc<AtomicUsize>,
}

impl Drop for DropCounter {
    fn drop(&mut self) {
        self.counter.fetch_add(1, Ordering::SeqCst);
    }
}

#[test]
fn test_drop_cleanup() {
    let counter = Arc::new(AtomicUsize::new(0));

    {
        let mut buffer = RingBuffer::new(8);
        for _ in 0..5 {
            buffer.push(DropCounter { counter: counter.clone() }).unwrap();
        }
        drop(buffer);
    }

    assert_eq!(counter.load(Ordering::SeqCst), 5);
}

#[test]
fn test_small_capacity_stack_allocation() {
    let mut buffer = RingBuffer::<u8>::new(16);
    for i in 0..10 {
        buffer.push(i).unwrap();
    }
    for i in 0..10 {
        assert_eq!(buffer.pop().unwrap(), i);
    }
}

#[test]
fn test_large_capacity_heap_allocation() {
    let mut buffer = RingBuffer::<u8>::new(64);
    for i in 0..50 {
        buffer.push(i).unwrap();
    }
    for i in 0..50 {
        assert_eq!(buffer.pop().unwrap(), i);
    }
}

#[test]
fn ring_buffer_pop_on_empty_reports_empty() {
    let mut buffer = RingBuffer::<u8>::new(1);
    assert_eq!(buffer.capacity(), 1);
    assert_eq!(buffer.pop(), Err(PopError::Empty));
    assert_eq!(buffer.push(7), Ok(()));
    assert_eq!(buffer.push(8), Err(PushError::Full(8)));
    assert_eq!(buffer.pop(), Ok(7));
    assert_eq!(buffer.pop(), Err(PopError::Empty));
}

#[test]
fn ring_buffer_keeps_order_across_the_end() {
    let mut buffer = RingBuffer::<u32>::new(3);
    assert_eq!(buffer.capacity(), 4);
    let mut expected = std::collections::VecDeque::new();
    for step in 0..50u32 {
        if step % 3 == 2 {
            assert_eq!(buffer.pop().ok(), expected.pop_front());
        } else {
            let pushed = buffer.push(step).is_ok();
            assert_eq!(pushed, expected.len() < 4);
            if pushed {
                expected.push_back(step);
            }
        }
        assert_eq!(buffer.slots(), expected.len());
    }
}

#[test]
fn next_power_of_two_rounds_up() {
    assert_eq!(next_power_of_two(1), 1);
    assert_eq!(next_power_of_two(2), 2);
    assert_eq!(next_power_of_two(3), 4);
    assert_eq!(next_power_of_two(1000), 1024);
    assert_eq!(next_power_of_two(1024), 1024);
}
