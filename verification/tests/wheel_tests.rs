use kestrel_timer::config::{BatchConfig, WheelConfig};
use kestrel_timer::task::{TaskId, TimerTask};
use kestrel_timer::wheel::Wheel;
use kestrel_timer::TimerError;
use std::collections::HashSet;
use std::time::Duration;

fn default_wheel() -> Wheel<u32> {
    Wheel::new(WheelConfig::default(), BatchConfig::default())
}

fn insert_oneshot(wheel: &mut Wheel<u32>, delay: Duration) -> TaskId {
    let handle = wheel.allocate_handle();
    let task_id = handle.task_id();
    wheel.insert(handle, TimerTask::new_oneshot(delay, Some(0)));
    task_id
}

fn insert_periodic(wheel: &mut Wheel<u32>, initial: Duration, interval: Duration) -> TaskId {
    let handle = wheel.allocate_handle();
    let task_id = handle.task_id();
    wheel.insert(handle, TimerTask::new_periodic(initial, interval, Some(0), None));
    task_id
}

/// Advances `n` ticks and counts how often `id` fired.
fn fired_count(wheel: &mut Wheel<u32>, id: TaskId, n: usize) -> usize {
    let mut count = 0;
    for _ in 0..n {
        count += wheel.advance().iter().filter(|e| e.id == id).count();
    }
    count
}

#[test]
fn test_wheel_creation() {
    let wheel = default_wheel();
    assert_eq!(wheel.slot_count(), 512);
    assert_eq!(wheel.current_tick(), 0);
    assert!(wheel.is_empty());
}

#[test]
fn test_hierarchical_wheel_creation() {
    let config = WheelConfig::default();
    let wheel: Wheel<u32> = Wheel::new(config, BatchConfig::default());
    assert_eq!(wheel.slot_count(), 512);
    assert_eq!(wheel.current_tick(), 0);
    assert!(wheel.is_empty());
    assert_eq!(wheel.l1_slot_count(), 64);
    assert_eq!(wheel.l1_tick_ratio(), 100);
}

#[test]
fn test_hierarchical_config_validation() {
    let result = WheelConfig::builder()
        .l0_tick_duration(Duration::from_millis(10))
        .l0_slot_count(512)
        .l1_tick_duration(Duration::from_millis(15))
        .l1_slot_count(64)
        .build();

    assert!(result.is_err());

    let result = WheelConfig::builder()
        .l0_tick_duration(Duration::from_millis(10))
        .l0_slot_count(512)
        .l1_tick_duration(Duration::from_secs(1))
        .l1_slot_count(64)
        .build();

    assert!(result.is_ok());
}

#[test]
fn test_layer_determination() {
    let wheel = default_wheel();

    let (level, _, rounds) = wheel.determine_layer(Duration::from_millis(100));
    assert_eq!(level, 0);
    assert_eq!(rounds, 0);

    let (level, _, rounds) = wheel.determine_layer(Duration::from_secs(10));
    assert_eq!(level, 1);
    assert_eq!(rounds, 0);

    let (level, _, rounds) = wheel.determine_layer(Duration::from_secs(120));
    assert_eq!(level, 1);
    assert!(rounds > 0);
}

#[test]
fn test_hierarchical_insert_and_advance() {
    let mut wheel = default_wheel();
    let task_id = insert_oneshot(&mut wheel, Duration::from_millis(100));

    let location = wheel.task_location(task_id).unwrap();
    assert_eq!(location.level, 0);

    for _ in 0..10 {
        let expired = wheel.advance();
        if !expired.is_empty() {
            assert_eq!(expired.len(), 1);
            assert_eq!(expired[0].id, task_id);
            return;
        }
    }
    panic!("Task should have expired");
}

#[test]
fn wheel_test_hierarchical_l1_to_l0_demotion() {
    let config = WheelConfig::builder()
        .l0_tick_duration(Duration::from_millis(10))
        .l0_slot_count(512)
        .l1_tick_duration(Duration::from_millis(100))
        .l1_slot_count(64)
        .build()
        .unwrap();

    let mut wheel: Wheel<u32> = Wheel::new(config, BatchConfig::default());
    let l1_tick_ratio = wheel.l1_tick_ratio();
    assert_eq!(l1_tick_ratio, 10);

    let task_id = insert_oneshot(&mut wheel, Duration::from_millis(6000));

    let location = wheel.task_location(task_id).unwrap();
    assert_eq!(location.level, 1);

    let mut demoted = false;
    for _ in 0..610 {
        wheel.advance();
        if let Some(location) = wheel.task_location(task_id) {
            if location.level == 0 && !demoted {
                demoted = true;
            }
        }
    }

    assert!(demoted, "Task should have been demoted from L1 to L0");
}

#[test]
fn test_cross_layer_cancel() {
    let mut wheel = default_wheel();
    let task_id1 = insert_oneshot(&mut wheel, Duration::from_millis(100));
    let task_id2 = insert_oneshot(&mut wheel, Duration::from_secs(10));

    assert_eq!(wheel.task_location(task_id1).unwrap().level, 0);
    assert_eq!(wheel.task_location(task_id2).unwrap().level, 1);

    assert!(wheel.cancel(task_id1));
    assert!(wheel.task_location(task_id1).is_none());

    assert!(wheel.cancel(task_id2));
    assert!(wheel.task_location(task_id2).is_none());

    assert!(wheel.is_empty());
}

#[test]
fn wheel_test_cross_layer_postpone() {
    let mut wheel = default_wheel();
    let task_id = insert_oneshot(&mut wheel, Duration::from_millis(100));

    assert_eq!(wheel.task_location(task_id).unwrap().level, 0);

    assert!(wheel.postpone(task_id, Duration::from_secs(10), None));
    assert_eq!(wheel.task_location(task_id).unwrap().level, 1);

    assert!(wheel.postpone(task_id, Duration::from_millis(200), None));
    assert_eq!(wheel.task_location(task_id).unwrap().level, 0);
}

#[test]
fn test_delay_to_ticks() {
    let wheel = default_wheel();
    assert_eq!(wheel.delay_to_ticks(Duration::from_millis(100)), 10);
    assert_eq!(wheel.delay_to_ticks(Duration::from_millis(50)), 5);
    assert_eq!(wheel.delay_to_ticks(Duration::from_millis(1)), 1);
}

#[test]
fn test_wheel_invalid_slot_count() {
    let result = WheelConfig::builder()
        .l0_slot_count(100)
        .build();
    assert!(result.is_err());
    if let Err(TimerError::InvalidSlotCount { slot_count, reason }) = result {
        assert_eq!(slot_count, 100);
        assert_eq!(reason, "L0 layer slot count must be power of 2");
    } else {
        panic!("Expected InvalidSlotCount error");
    }
}

#[test]
fn wheel_test_insert_batch() {
    let mut wheel = default_wheel();
    let handles = wheel.allocate_handles(10);
    let tasks: Vec<TimerTask<u32>> = (0..10u64)
        .map(|i| TimerTask::new_oneshot(Duration::from_millis(100 + i * 10), Some(0)))
        .collect();

    wheel.insert_batch(handles, tasks).expect("insert_batch should succeed");

    assert_eq!(wheel.len(), 10);
    assert!(!wheel.is_empty());
}

#[test]
fn wheel_test_cancel_batch() {
    let mut wheel = default_wheel();
    let mut task_ids = Vec::new();
    for i in 0..10u64 {
        task_ids.push(insert_oneshot(&mut wheel, Duration::from_millis(100 + i * 10)));
    }

    assert_eq!(task_ids.len(), 10);

    let to_cancel = &task_ids[0..5];
    let cancelled_count = wheel.cancel_batch(to_cancel);
    assert_eq!(cancelled_count, 5);

    let cancelled_again = wheel.cancel_batch(to_cancel);
    assert_eq!(cancelled_again, 0);

    let remaining = &task_ids[5..10];
    let cancelled_remaining = wheel.cancel_batch(remaining);
    assert_eq!(cancelled_remaining, 5);

    assert!(wheel.is_empty());
}

#[test]
fn wheel_test_batch_operations_same_slot() {
    let mut wheel = default_wheel();
    let mut task_ids = Vec::new();
    for _ in 0..20 {
        task_ids.push(insert_oneshot(&mut wheel, Duration::from_millis(100)));
    }

    let cancelled_count = wheel.cancel_batch(&task_ids);
    assert_eq!(cancelled_count, 20);
    assert!(wheel.is_empty());
}

#[test]
fn wheel_test_postpone_single_task() {
    let mut wheel = default_wheel();
    let task_id = insert_oneshot(&mut wheel, Duration::from_millis(100));

    let postponed = wheel.postpone(task_id, Duration::from_millis(200), None);
    assert!(postponed);
    assert!(!wheel.is_empty());

    for _ in 0..10 {
        let expired = wheel.advance();
        assert!(expired.is_empty());
    }

    let mut triggered = false;
    for _ in 0..10 {
        let expired = wheel.advance();
        if !expired.is_empty() {
            assert_eq!(expired.len(), 1);
            assert_eq!(expired[0].id, task_id);
            triggered = true;
            break;
        }
    }
    assert!(triggered);
}

#[test]
fn wheel_test_postpone_with_new_callback() {
    let mut wheel = default_wheel();
    let handle = wheel.allocate_handle();
    let task_id = handle.task_id();
    wheel.insert(handle, TimerTask::new_oneshot(Duration::from_millis(100), Some(1)));

    let postponed = wheel.postpone(task_id, Duration::from_millis(50), Some(2));
    assert!(postponed);

    let mut triggered = false;
    for i in 0..5 {
        let expired = wheel.advance();
        if !expired.is_empty() {
            assert_eq!(expired.len(), 1, "On the {}th advance, there should be 1 task triggered", i + 1);
            assert_eq!(expired[0].id, task_id);
            assert_eq!(expired[0].callback, Some(2));
            triggered = true;
            break;
        }
    }
    assert!(triggered, "Task should be triggered within 5 ticks");
}

#[test]
fn wheel_test_postpone_nonexistent_task() {
    let mut wheel = default_wheel();
    let fake_task_id = wheel.allocate_handle().task_id();
    let postponed = wheel.postpone(fake_task_id, Duration::from_millis(100), None);
    assert!(!postponed);
}

#[test]
fn wheel_test_postpone_batch() {
    let mut wheel = default_wheel();
    let mut task_ids = Vec::new();
    for _ in 0..5 {
        task_ids.push(insert_oneshot(&mut wheel, Duration::from_millis(50)));
    }

    let updates: Vec<_> = task_ids.iter().map(|&id| (id, Duration::from_millis(150))).collect();
    let postponed_count = wheel.postpone_batch(updates);
    assert_eq!(postponed_count, 5);

    for _ in 0..5 {
        let expired = wheel.advance();
        assert!(expired.is_empty(), "The first 5 ticks should not have tasks triggered");
    }

    let mut total_triggered = 0;
    for _ in 0..10 {
        total_triggered += wheel.advance().len();
    }
    assert_eq!(total_triggered, 5, "There should be 5 tasks triggered on the 15th tick");
}

#[test]
fn wheel_test_postpone_batch_partial() {
    let mut wheel = default_wheel();
    let mut task_ids = Vec::new();
    for _ in 0..10 {
        task_ids.push(insert_oneshot(&mut wheel, Duration::from_millis(50)));
    }

    let fake_task_id = wheel.allocate_handle().task_id();
    let mut updates: Vec<_> = task_ids[0..5].iter().map(|&id| (id, Duration::from_millis(150))).collect();
    updates.push((fake_task_id, Duration::from_millis(150)));

    let postponed_count = wheel.postpone_batch(updates);
    assert_eq!(postponed_count, 5, "There should be 5 tasks successfully postponed (fake_task_id failed)");

    let mut triggered_at_50ms = 0;
    for _ in 0..5 {
        triggered_at_50ms += wheel.advance().len();
    }
    assert_eq!(triggered_at_50ms, 5, "There should be 5 tasks that were not postponed triggered on the 5th tick");

    let mut triggered_at_150ms = 0;
    for _ in 0..10 {
        triggered_at_150ms += wheel.advance().len();
    }
    assert_eq!(triggered_at_150ms, 5, "There should be 5 tasks that were postponed triggered on the 15th tick");
}

#[test]
fn wheel_test_multi_round_tasks() {
    let mut wheel = default_wheel();
    let task_id = insert_oneshot(&mut wheel, Duration::from_secs(120));

    let location = wheel.task_location(task_id).unwrap();
    assert_eq!(location.level, 1);

    for _ in 0..6400 {
        let _expired = wheel.advance();
    }

    if let Some(loc) = wheel.task_location(task_id) {
        assert_eq!(loc.level, 1);
    }

    let mut triggered = false;
    for _ in 0..6000 {
        let expired = wheel.advance();
        if expired.iter().any(|t| t.id == task_id) {
            triggered = true;
            break;
        }
    }
    assert!(triggered, "Task should be triggered in the second round of L1");
}

#[test]
fn test_minimum_delay() {
    let mut wheel = default_wheel();
    let task_id = insert_oneshot(&mut wheel, Duration::from_millis(1));

    let expired = wheel.advance();
    assert_eq!(expired.len(), 1, "Minimum delay task should be triggered after 1 tick");
    assert_eq!(expired[0].id, task_id);
}

#[test]
fn wheel_test_empty_batch_operations() {
    let mut wheel = default_wheel();

    wheel.insert_batch(vec![], vec![]).expect("empty insert_batch should succeed");
    assert!(wheel.is_empty());

    let cancelled = wheel.cancel_batch(&[]);
    assert_eq!(cancelled, 0);

    let postponed = wheel.postpone_batch(vec![]);
    assert_eq!(postponed, 0);
}

#[test]
fn wheel_test_postpone_same_task_multiple_times() {
    let mut wheel = default_wheel();
    let task_id = insert_oneshot(&mut wheel, Duration::from_millis(100));

    assert!(wheel.postpone(task_id, Duration::from_millis(200), None), "First postpone should succeed");
    assert!(wheel.postpone(task_id, Duration::from_millis(300), None), "Second postpone should succeed");
    assert!(wheel.postpone(task_id, Duration::from_millis(50), None), "Third postpone should succeed");

    let mut triggered = false;
    for _ in 0..5 {
        let expired = wheel.advance();
        if !expired.is_empty() {
            assert_eq!(expired.len(), 1);
            assert_eq!(expired[0].id, task_id);
            triggered = true;
            break;
        }
    }
    assert!(triggered, "Task should be triggered at the last postpone time");
}

#[test]
fn test_advance_empty_slots() {
    let mut wheel = default_wheel();
    for _ in 0..100 {
        let expired = wheel.advance();
        assert!(expired.is_empty(), "Empty slots should not return any tasks");
    }
    assert_eq!(wheel.current_tick(), 100, "current_tick should correctly increment");
}

#[test]
fn wheel_test_cancel_after_postpone() {
    let mut wheel = default_wheel();
    let task_id = insert_oneshot(&mut wheel, Duration::from_millis(100));

    assert!(wheel.postpone(task_id, Duration::from_millis(200), None), "Postpone should succeed");
    assert!(wheel.cancel(task_id), "Cancel should succeed");

    for _ in 0..20 {
        let expired = wheel.advance();
        assert!(expired.is_empty(), "Cancelled task should not trigger");
    }

    assert!(wheel.is_empty(), "Wheel should be empty");
}

#[test]
fn test_slot_boundary() {
    let mut wheel = default_wheel();
    let task_id_1 = insert_oneshot(&mut wheel, Duration::from_millis(10));
    let task_id_2 = insert_oneshot(&mut wheel, Duration::from_millis(5110));

    let expired = wheel.advance();
    assert_eq!(expired.len(), 1, "First task should trigger on tick 1");
    assert_eq!(expired[0].id, task_id_1);

    let mut triggered = false;
    for i in 0..510 {
        let expired = wheel.advance();
        if !expired.is_empty() {
            assert_eq!(expired.len(), 1, "The {}th advance should trigger the second task", i + 2);
            assert_eq!(expired[0].id, task_id_2);
            triggered = true;
            break;
        }
    }
    assert!(triggered, "Second task should trigger on tick 511");
    assert!(wheel.is_empty(), "All tasks should have been triggered");
}

#[test]
fn wheel_test_batch_cancel_small_threshold() {
    let batch_config = BatchConfig { small_batch_threshold: 5 };
    let mut wheel: Wheel<u32> = Wheel::new(WheelConfig::default(), batch_config);

    let mut task_ids = Vec::new();
    for _ in 0..10 {
        task_ids.push(insert_oneshot(&mut wheel, Duration::from_millis(100)));
    }

    let cancelled = wheel.cancel_batch(&task_ids[0..3]);
    assert_eq!(cancelled, 3);

    let cancelled = wheel.cancel_batch(&task_ids[3..10]);
    assert_eq!(cancelled, 7);

    assert!(wheel.is_empty());
}

#[test]
fn test_task_id_uniqueness() {
    let mut wheel = default_wheel();
    let mut task_ids = HashSet::new();
    for _ in 0..100 {
        let task_id = insert_oneshot(&mut wheel, Duration::from_millis(100));
        assert!(task_ids.insert(task_id), "TaskId should be unique");
    }
    assert_eq!(task_ids.len(), 100);
}

#[test]
fn wheel_test_periodic_task_basic() {
    let mut wheel = default_wheel();
    let task_id = insert_periodic(&mut wheel, Duration::from_millis(50), Duration::from_millis(50));

    assert_eq!(fired_count(&mut wheel, task_id, 5), 1, "Should receive first notification");
    assert!(!wheel.is_empty(), "Periodic task should be reinserted");
    assert!(wheel.task_location(task_id).is_some(), "Task should still be in index");

    assert_eq!(fired_count(&mut wheel, task_id, 5), 1, "Should receive second notification");
    assert!(!wheel.is_empty(), "Periodic task should still be in the wheel");

    assert!(wheel.cancel(task_id), "Should be able to cancel periodic task");
    assert!(wheel.is_empty(), "Wheel should be empty after cancellation");
}

#[test]
fn wheel_test_periodic_task_cancel() {
    let mut wheel = default_wheel();
    let task_id = insert_periodic(&mut wheel, Duration::from_millis(100), Duration::from_millis(100));

    assert!(wheel.cancel(task_id), "Should successfully cancel");
    assert!(!wheel.cancel(task_id), "A cancelled task is gone");
    assert!(wheel.is_empty(), "Wheel should be empty");

    for _ in 0..20 {
        let expired = wheel.advance();
        assert!(expired.is_empty(), "No tasks should expire after cancellation");
    }
}

#[test]
fn wheel_test_periodic_task_multiple_triggers() {
    let mut wheel = default_wheel();
    let task_id = insert_periodic(&mut wheel, Duration::from_millis(30), Duration::from_millis(30));

    let trigger_count = fired_count(&mut wheel, task_id, 100);
    assert!(trigger_count >= 3, "Should trigger at least 3 times, got {}", trigger_count);

    wheel.cancel(task_id);
}

#[test]
fn wheel_test_periodic_task_cross_layer() {
    let mut wheel = default_wheel();
    let task_id = insert_periodic(&mut wheel, Duration::from_secs(10), Duration::from_secs(10));

    let location = wheel.task_location(task_id).unwrap();
    assert_eq!(location.level, 1, "Long interval task should be in L1");

    assert_eq!(fired_count(&mut wheel, task_id, 1001), 1, "Should receive notification");

    assert!(wheel.task_location(task_id).is_some(), "Task should be reinserted");
    let location = wheel.task_location(task_id).unwrap();
    assert_eq!(location.level, 1, "Reinserted task should still be in L1");

    wheel.cancel(task_id);
}

#[test]
fn wheel_test_periodic_task_batch_cancel() {
    let mut wheel = default_wheel();
    let mut task_ids = Vec::new();
    for i in 0..5u64 {
        task_ids.push(insert_periodic(&mut wheel, Duration::from_millis(100 + i * 10), Duration::from_millis(100)));
    }

    let cancelled_count = wheel.cancel_batch(&task_ids);
    assert_eq!(cancelled_count, 5, "Should cancel all 5 tasks");
    for id in &task_ids {
        assert!(wheel.task_location(*id).is_none());
    }
    assert!(wheel.is_empty(), "Wheel should be empty");
}

#[test]
fn wheel_test_periodic_task_with_initial_delay() {
    let mut wheel = default_wheel();
    let task_id = insert_periodic(&mut wheel, Duration::from_millis(100), Duration::from_millis(50));

    assert_eq!(fired_count(&mut wheel, task_id, 10), 1, "Should receive first notification after initial delay");
    assert_eq!(fired_count(&mut wheel, task_id, 5), 1, "Should receive second notification after interval");

    wheel.cancel(task_id);
}
