use kestrel_timer::config::{BatchConfig, WheelConfig};
use kestrel_timer::task::{TaskId, TimerTask};
use kestrel_timer::wheel::Wheel;
use kestrel_timer::TimerError;
use std::time::Duration;

fn default_wheel() -> Wheel<u32> {
    Wheel::new(WheelConfig::default(), BatchConfig::default())
}

fn insert_task(wheel: &mut Wheel<u32>, task: TimerTask<u32>) -> TaskId {
    let handle = wheel.allocate_handle();
    let task_id = handle.task_id();
    wheel.insert(handle, task);
    task_id
}

fn oneshot(ms: u64) -> TimerTask<u32> {
    TimerTask::new_oneshot(Duration::from_millis(ms), Some(0))
}

fn periodic(initial_ms: u64, interval_ms: u64) -> TimerTask<u32> {
    TimerTask::new_periodic(Duration::from_millis(initial_ms), Duration::from_millis(interval_ms), Some(0), None)
}

/// Advances `n` ticks and counts how often `id` fired.
fn fired_count(wheel: &mut Wheel<u32>, id: TaskId, n: usize) -> usize {
    let mut count = 0;
    for _ in 0..n {
        count += wheel.advance().iter().filter(|e| e.id == id).count();
    }
    count
}

// Advanced behaviour.

#[test]
fn advanced_tests_test_hierarchical_l1_to_l0_demotion() {
    let config = WheelConfig::builder()
        .l0_tick_duration(Duration::from_millis(10))
        .l0_slot_count(512)
        .l1_tick_duration(Duration::from_millis(100))
        .l1_slot_count(64)
        .build()
        .unwrap();

    let mut wheel: Wheel<u32> = Wheel::new(config, BatchConfig::default());
    assert_eq!(wheel.l1_tick_ratio(), 10);

    let task_id = insert_task(&mut wheel, oneshot(6000));
    assert_eq!(wheel.task_location(task_id).unwrap().level, 1);

    let mut demoted = false;
    for _ in 0..610 {
        wheel.advance();
        if let Some(location) = wheel.task_location(task_id) {
            if location.level == 0 && !demoted {
                demoted = true;
            }
        }
    }
    assert!(demoted, "Task should have been demoted from L1 to L0");
}

#[test]
fn advanced_tests_test_multi_round_tasks() {
    let mut wheel = default_wheel();
    let task_id = insert_task(&mut wheel, TimerTask::new_oneshot(Duration::from_secs(120), Some(0)));
    assert_eq!(wheel.task_location(task_id).unwrap().level, 1);

    for _ in 0..6400 {
        let _expired = wheel.advance();
    }
    if let Some(loc) = wheel.task_location(task_id) {
        assert_eq!(loc.level, 1);
    }

    let mut triggered = false;
    for _ in 0..6000 {
        let expired = wheel.advance();
        if expired.iter().any(|t| t.id == task_id) {
            triggered = true;
            break;
        }
    }
    assert!(triggered, "Task should be triggered in the second round of L1");
}

// Batch operations.

#[test]
fn batch_tests_test_insert_batch() {
    let mut wheel = default_wheel();
    let handles = wheel.allocate_handles(10);
    let tasks: Vec<TimerTask<u32>> = (0..10u64).map(|i| oneshot(100 + i * 10)).collect();
    wheel.insert_batch(handles, tasks).expect("insert_batch should succeed");
    assert!(!wheel.is_empty());
}

#[test]
fn batch_tests_test_cancel_batch() {
    let mut wheel = default_wheel();
    let mut task_ids = Vec::new();
    for i in 0..10u64 {
        task_ids.push(insert_task(&mut wheel, oneshot(100 + i * 10)));
    }
    assert_eq!(task_ids.len(), 10);

    let to_cancel = &task_ids[0..5];
    assert_eq!(wheel.cancel_batch(to_cancel), 5);
    assert_eq!(wheel.cancel_batch(to_cancel), 0);

    let remaining = &task_ids[5..10];
    assert_eq!(wheel.cancel_batch(remaining), 5);
    assert!(wheel.is_empty());
}

#[test]
fn batch_tests_test_batch_operations_same_slot() {
    let mut wheel = default_wheel();
    let mut task_ids = Vec::new();
    for _ in 0..20 {
        task_ids.push(insert_task(&mut wheel, oneshot(100)));
    }
    assert_eq!(wheel.cancel_batch(&task_ids), 20);
    assert!(wheel.is_empty());
}

#[test]
fn batch_tests_test_batch_cancel_small_threshold() {
    let batch_config = BatchConfig { small_batch_threshold: 5 };
    let mut wheel: Wheel<u32> = Wheel::new(WheelConfig::default(), batch_config);
    let mut task_ids = Vec::new();
    for _ in 0..10 {
        task_ids.push(insert_task(&mut wheel, oneshot(100)));
    }
    assert_eq!(wheel.cancel_batch(&task_ids[0..3]), 3);
    assert_eq!(wheel.cancel_batch(&task_ids[3..10]), 7);
    assert!(wheel.is_empty());
}

#[test]
fn batch_tests_test_empty_batch_operations() {
    let mut wheel = default_wheel();
    wheel.insert_batch(vec![], vec![]).expect("empty insert_batch should succeed");
    assert_eq!(wheel.cancel_batch(&[]), 0);
    assert_eq!(wheel.postpone_batch(vec![]), 0);
}

#[test]
fn test_insert_batch_length_mismatch() {
    let mut wheel = default_wheel();
    let mut handles = Vec::new();
    let mut tasks = Vec::new();
    for i in 0..3 {
        handles.push(wheel.allocate_handle());
        if i < 2 {
            tasks.push(oneshot(100));
        }
    }

    let result = wheel.insert_batch(handles, tasks);
    assert!(result.is_err());
    if let Err(TimerError::BatchLengthMismatch { handles_len, tasks_len }) = result {
        assert_eq!(handles_len, 3);
        assert_eq!(tasks_len, 2);
    } else {
        panic!("Expected BatchLengthMismatch error");
    }
    assert!(wheel.is_empty(), "Nothing is registered on a mismatch");
}

// Periodic tasks.

#[test]
fn periodic_tests_test_periodic_task_basic() {
    let mut wheel = default_wheel();
    let task_id = insert_task(&mut wheel, periodic(50, 50));

    assert_eq!(fired_count(&mut wheel, task_id, 5), 1, "Should receive first notification");
    assert!(!wheel.is_empty(), "Periodic task should be reinserted");
    assert!(wheel.task_location(task_id).is_some(), "Task should still be in index");

    assert_eq!(fired_count(&mut wheel, task_id, 5), 1, "Should receive second notification");
    assert!(!wheel.is_empty(), "Periodic task should still be in the wheel");

    assert!(wheel.cancel(task_id), "Should be able to cancel periodic task");
    assert!(wheel.is_empty(), "Wheel should be empty after cancellation");
}

#[test]
fn periodic_tests_test_periodic_task_cancel() {
    let mut wheel = default_wheel();
    let task_id = insert_task(&mut wheel, periodic(100, 100));

    assert!(wheel.cancel(task_id), "Should successfully cancel");
    assert!(wheel.is_empty(), "Wheel should be empty");
    for _ in 0..20 {
        assert!(wheel.advance().is_empty(), "No tasks should expire after cancellation");
    }
}

#[test]
fn periodic_tests_test_periodic_task_multiple_triggers() {
    let mut wheel = default_wheel();
    let task_id = insert_task(&mut wheel, periodic(30, 30));
    let trigger_count = fired_count(&mut wheel, task_id, 100);
    assert!(trigger_count >= 3, "Should trigger at least 3 times, got {}", trigger_count);
    wheel.cancel(task_id);
}

#[test]
fn periodic_tests_test_periodic_task_cross_layer() {
    let mut wheel = default_wheel();
    let task_id = insert_task(
        &mut wheel,
        TimerTask::new_periodic(Duration::from_secs(10), Duration::from_secs(10), Some(0), None),
    );
    assert_eq!(wheel.task_location(task_id).unwrap().level, 1, "Long interval task should be in L1");

    assert_eq!(fired_count(&mut wheel, task_id, 1001), 1, "Should receive notification");
    assert!(wheel.task_location(task_id).is_some(), "Task should be reinserted");
    assert_eq!(wheel.task_location(task_id).unwrap().level, 1, "Reinserted task should still be in L1");

    wheel.cancel(task_id);
}

#[test]
fn periodic_tests_test_periodic_task_batch_cancel() {
    let mut wheel = default_wheel();
    let mut task_ids = Vec::new();
    for i in 0..5u64 {
        task_ids.push(insert_task(&mut wheel, periodic(100 + i * 10, 100)));
    }
    assert_eq!(wheel.cancel_batch(&task_ids), 5, "Should cancel all 5 tasks");
    assert!(wheel.is_empty(), "Wheel should be empty");
}

#[test]
fn periodic_tests_test_periodic_task_with_initial_delay() {
    let mut wheel = default_wheel();
    let task_id = insert_task(&mut wheel, periodic(100, 50));
    assert_eq!(fired_count(&mut wheel, task_id, 10), 1, "Should receive first notification after initial delay");
    assert_eq!(fired_count(&mut wheel, task_id, 5), 1, "Should receive second notification after interval");
    wheel.cancel(task_id);
}

#[test]
fn test_periodic_task_postpone() {
    let mut wheel = default_wheel();
    let task_id = insert_task(&mut wheel, periodic(50, 50));

    assert!(wheel.postpone(task_id, Duration::from_millis(100), None), "Should postpone periodic task");
    assert_eq!(fired_count(&mut wheel, task_id, 5), 0, "Should not receive notification before postponed time");
    assert_eq!(fired_count(&mut wheel, task_id, 5), 1, "Should receive notification at postponed time");
    assert_eq!(fired_count(&mut wheel, task_id, 5), 1, "Should receive second notification after interval");

    wheel.cancel(task_id);
}

#[test]
fn test_periodic_task_postpone_cross_layer() {
    let mut wheel = default_wheel();
    let task_id = insert_task(&mut wheel, periodic(100, 100));
    assert_eq!(wheel.task_location(task_id).unwrap().level, 0);

    assert!(wheel.postpone(task_id, Duration::from_secs(10), None));
    assert_eq!(wheel.task_location(task_id).unwrap().level, 1);

    assert!(wheel.postpone(task_id, Duration::from_millis(200), None));
    assert_eq!(wheel.task_location(task_id).unwrap().level, 0);

    assert!(fired_count(&mut wheel, task_id, 20) >= 1, "Should receive notification");
    wheel.cancel(task_id);
}

#[test]
fn test_periodic_task_batch_insert() {
    let mut wheel = default_wheel();
    let handles = wheel.allocate_handles(10);
    let task_ids: Vec<_> = handles.iter().map(|h| h.task_id()).collect();
    let tasks: Vec<TimerTask<u32>> = (0..10u64).map(|i| periodic(100 + i * 10, 50)).collect();

    wheel.insert_batch(handles, tasks).expect("insert_batch should succeed");
    assert_eq!(wheel.len(), 10, "All tasks should be in index");

    for _ in 0..200 {
        let _expired = wheel.advance();
    }
    assert_eq!(wheel.len(), 10, "All periodic tasks should still be in wheel");

    assert_eq!(wheel.cancel_batch(&task_ids), 10, "Should cancel all periodic tasks");
    assert!(wheel.is_empty());
}

#[test]
fn test_periodic_task_batch_postpone() {
    let mut wheel = default_wheel();
    let mut task_ids = Vec::new();
    for _ in 0..5 {
        task_ids.push(insert_task(&mut wheel, periodic(50, 50)));
    }

    let updates: Vec<_> = task_ids.iter().map(|&id| (id, Duration::from_millis(150))).collect();
    assert_eq!(wheel.postpone_batch(updates), 5, "Should postpone all 5 periodic tasks");

    for _ in 0..5 {
        assert!(wheel.advance().is_empty(), "Tasks should not trigger before postponed time");
    }
    let mut total_triggered = 0;
    for _ in 0..10 {
        total_triggered += wheel.advance().len();
    }
    assert_eq!(total_triggered, 5, "All 5 tasks should trigger at postponed time");

    wheel.cancel_batch(&task_ids);
}

#[test]
fn periodic_tests_test_mixed_oneshot_and_periodic_tasks() {
    let mut wheel = default_wheel();
    let mut oneshot_ids = Vec::new();
    for i in 0..5u64 {
        oneshot_ids.push(insert_task(&mut wheel, oneshot(100 + i * 10)));
    }
    let mut periodic_ids = Vec::new();
    for _ in 0..5 {
        periodic_ids.push(insert_task(&mut wheel, periodic(100, 100)));
    }
    assert_eq!(wheel.len(), 10, "Should have 10 tasks total");

    let mut total_expired = 0;
    for _ in 0..15 {
        total_expired += wheel.advance().len();
    }
    assert_eq!(total_expired, 10, "Should have triggered oneshot and periodic tasks");
    assert_eq!(wheel.len(), 5, "Only periodic tasks should remain");

    for id in &oneshot_ids {
        assert!(wheel.task_location(*id).is_none(), "Oneshot task should be removed");
    }
    for id in &periodic_ids {
        assert!(wheel.task_location(*id).is_some(), "Periodic task should still be present");
    }

    wheel.cancel_batch(&periodic_ids);
    assert!(wheel.is_empty());
}

#[test]
fn test_periodic_task_postpone_with_callback() {
    let mut wheel = default_wheel();
    let task_id = insert_task(&mut wheel, TimerTask::new_periodic(Duration::from_millis(50), Duration::from_millis(50), Some(1), None));

    assert!(wheel.postpone(task_id, Duration::from_millis(100), Some(2)));

    let mut fired_callbacks = Vec::new();
    for _ in 0..10 {
        for e in wheel.advance() {
            if e.id == task_id {
                fired_callbacks.push(e.callback);
            }
        }
    }
    assert_eq!(fired_callbacks, vec![Some(2)], "Should receive notification with new callback");

    wheel.cancel(task_id);
}

// Postponement.

#[test]
fn postpone_tests_test_postpone_single_task() {
    let mut wheel = default_wheel();
    let task_id = insert_task(&mut wheel, oneshot(100));

    assert!(wheel.postpone(task_id, Duration::from_millis(200), None));
    assert!(!wheel.is_empty());

    for _ in 0..10 {
        assert!(wheel.advance().is_empty());
    }
    let mut triggered = false;
    for _ in 0..10 {
        let expired = wheel.advance();
        if !expired.is_empty() {
            assert_eq!(expired.len(), 1);
            assert_eq!(expired[0].id, task_id);
            triggered = true;
            break;
        }
    }
    assert!(triggered);
}

#[test]
fn postpone_tests_test_postpone_with_new_callback() {
    let mut wheel = default_wheel();
    let task_id = insert_task(&mut wheel, TimerTask::new_oneshot(Duration::from_millis(100), Some(1)));

    assert!(wheel.postpone(task_id, Duration::from_millis(50), Some(2)));

    let mut triggered = false;
    for i in 0..5 {
        let expired = wheel.advance();
        if !expired.is_empty() {
            assert_eq!(expired.len(), 1, "On the {}th advance, there should be 1 task triggered", i + 1);
            assert_eq!(expired[0].id, task_id);
            assert_eq!(expired[0].callback, Some(2));
            triggered = true;
            break;
        }
    }
    assert!(triggered, "Task should be triggered within 5 ticks");
}

#[test]
fn postpone_tests_test_postpone_nonexistent_task() {
    let mut wheel = default_wheel();
    let fake_task_id = TaskId::new(u64::MAX);
    assert!(!wheel.postpone(fake_task_id, Duration::from_millis(100), None));
}

#[test]
fn postpone_tests_test_postpone_batch() {
    let mut wheel = default_wheel();
    let mut task_ids = Vec::new();
    for _ in 0..5 {
        task_ids.push(insert_task(&mut wheel, oneshot(50)));
    }

    let updates: Vec<_> = task_ids.iter().map(|&id| (id, Duration::from_millis(150))).collect();
    assert_eq!(wheel.postpone_batch(updates), 5);

    for _ in 0..5 {
        assert!(wheel.advance().is_empty(), "The first 5 ticks should not have tasks triggered");
    }
    let mut total_triggered = 0;
    for _ in 0..10 {
        total_triggered += wheel.advance().len();
    }
    assert_eq!(total_triggered, 5, "There should be 5 tasks triggered on the 15th tick");
}

#[test]
fn postpone_tests_test_postpone_batch_partial() {
    let mut wheel = default_wheel();
    let mut task_ids = Vec::new();
    for _ in 0..10 {
        task_ids.push(insert_task(&mut wheel, oneshot(50)));
    }

    let fake_task_id = TaskId::new(u64::MAX);
    let mut updates: Vec<_> = task_ids[0..5].iter().map(|&id| (id, Duration::from_millis(150))).collect();
    updates.push((fake_task_id, Duration::from_millis(150)));
    assert_eq!(wheel.postpone_batch(updates), 5, "There should be 5 tasks successfully postponed (fake_task_id failed)");

    let mut triggered_at_50ms = 0;
    for _ in 0..5 {
        triggered_at_50ms += wheel.advance().len();
    }
    assert_eq!(triggered_at_50ms, 5);

    let mut triggered_at_150ms = 0;
    for _ in 0..10 {
        triggered_at_150ms += wheel.advance().len();
    }
    assert_eq!(triggered_at_150ms, 5);
}

#[test]
fn postpone_tests_test_postpone_same_task_multiple_times() {
    let mut wheel = default_wheel();
    let task_id = insert_task(&mut wheel, oneshot(100));

    assert!(wheel.postpone(task_id, Duration::from_millis(200), None), "First postpone should succeed");
    assert!(wheel.postpone(task_id, Duration::from_millis(300), None), "Second postpone should succeed");
    assert!(wheel.postpone(task_id, Duration::from_millis(50), None), "Third postpone should succeed");

    let mut triggered = false;
    for _ in 0..5 {
        let expired = wheel.advance();
        if !expired.is_empty() {
            assert_eq!(expired.len(), 1);
            assert_eq!(expired[0].id, task_id);
            triggered = true;
            break;
        }
    }
    assert!(triggered, "Task should be triggered at the last postpone time");
}

#[test]
fn postpone_tests_test_cancel_after_postpone() {
    let mut wheel = default_wheel();
    let task_id = insert_task(&mut wheel, oneshot(100));

    assert!(wheel.postpone(task_id, Duration::from_millis(200), None), "Postpone should succeed");
    assert!(wheel.cancel(task_id), "Cancel should succeed");
    for _ in 0..20 {
        assert!(wheel.advance().is_empty(), "Cancelled task should not trigger");
    }
    assert!(wheel.is_empty(), "Wheel should be empty");
}

#[test]
fn postpone_tests_test_cross_layer_postpone() {
    let mut wheel = default_wheel();
    let task_id = insert_task(&mut wheel, oneshot(100));
    assert_eq!(wheel.task_location(task_id).unwrap().level, 0);

    assert!(wheel.postpone(task_id, Duration::from_secs(10), None));
    assert_eq!(wheel.task_location(task_id).unwrap().level, 1);

    assert!(wheel.postpone(task_id, Duration::from_millis(200), None));
    assert_eq!(wheel.task_location(task_id).unwrap().level, 0);
}
