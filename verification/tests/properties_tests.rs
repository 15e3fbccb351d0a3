use kestrel_timer::config::{BatchConfig, WheelConfig};
use kestrel_timer::duration::{duration_is_zero, duration_millis};
use kestrel_timer::task::{TaskId, TaskLocation, TaskNotification, TaskType, TimerTask};
use kestrel_timer::text::u64_to_decimal;
use kestrel_timer::wheel::Wheel;
use std::time::Duration;

fn default_wheel() -> Wheel<u32> {
    Wheel::new(WheelConfig::default(), BatchConfig::default())
}

fn insert_oneshot(wheel: &mut Wheel<u32>, ms: u64) -> TaskId {
    let handle = wheel.allocate_handle();
    let id = handle.task_id();
    wheel.insert(handle, TimerTask::new_oneshot(Duration::from_millis(ms), Some(0)));
    id
}

#[test]
fn cancelling_twice_finds_nothing_the_second_time() {
    let mut wheel = default_wheel();
    let id = insert_oneshot(&mut wheel, 100);
    assert!(wheel.cancel(id));
    assert!(!wheel.cancel(id));
    assert!(wheel.is_empty());
}

#[test]
fn insert_then_cancel_restores_the_other_tasks() {
    let mut wheel = default_wheel();
    let keep = insert_oneshot(&mut wheel, 300);
    let keep_location = wheel.task_location(keep).unwrap();
    let id = insert_oneshot(&mut wheel, 300);
    assert_eq!(wheel.len(), 2);
    assert!(wheel.cancel(id));
    assert_eq!(wheel.len(), 1);
    let after = wheel.task_location(keep).unwrap();
    assert_eq!((after.level, after.slot_index), (keep_location.level, keep_location.slot_index));
}

#[test]
fn allocated_handles_are_consecutive_and_distinct() {
    let mut wheel = default_wheel();
    let a = wheel.allocate_handle().task_id();
    let b = wheel.allocate_handle().task_id();
    assert_ne!(a, b);
    assert_eq!(b.as_u64(), a.as_u64() + 1);
    let many = wheel.allocate_handles(3);
    let ids: Vec<u64> = many.iter().map(|h| h.task_id().as_u64()).collect();
    assert_eq!(ids, vec![b.as_u64() + 1, b.as_u64() + 2, b.as_u64() + 3]);
    assert!(wheel.is_empty());
}

#[test]
fn postponed_task_can_still_be_cancelled() {
    let mut wheel = default_wheel();
    let id = insert_oneshot(&mut wheel, 100);
    assert!(wheel.postpone(id, Duration::from_millis(400), None));
    assert_eq!(wheel.len(), 1);
    assert!(wheel.cancel(id));
}

#[test]
fn cancel_batch_of_one_matches_cancel() {
    let mut wheel = default_wheel();
    let id = insert_oneshot(&mut wheel, 100);
    assert_eq!(wheel.cancel_batch(&[id]), 1);
    assert_eq!(wheel.cancel_batch(&[id]), 0);
    let other = insert_oneshot(&mut wheel, 100);
    assert_eq!(wheel.cancel_batch(&[other, other]), 1, "a number listed twice counts once");
}

#[test]
fn task_fires_on_the_tick_its_delay_gives() {
    let mut wheel = default_wheel();
    let id = insert_oneshot(&mut wheel, 70);
    for tick in 1..=7u64 {
        let fired = wheel.advance();
        assert_eq!(wheel.current_tick(), tick);
        assert_eq!(fired.iter().any(|e| e.id == id), tick == 7);
    }
    assert!(wheel.task_location(id).is_none());
}

#[test]
fn long_delay_is_demoted_then_fires_after_its_l1_tick() {
    let config = WheelConfig::builder()
        .l0_tick_duration(Duration::from_millis(10))
        .l0_slot_count(8)
        .l1_tick_duration(Duration::from_millis(40))
        .l1_slot_count(4)
        .build()
        .unwrap();
    let mut wheel: Wheel<u32> = Wheel::new(config, BatchConfig::default());
    // 200 ms is beyond L0's 80 ms: 5 L1 ticks, one full L1 turn of 4 slots.
    assert_eq!(wheel.determine_layer(Duration::from_millis(200)), (1, 5, 1));
    let id = insert_oneshot(&mut wheel, 200);
    let mut fired_at = None;
    for _ in 0..40 {
        if wheel.advance().iter().any(|e| e.id == id) {
            fired_at = Some(wheel.current_tick());
            break;
        }
    }
    assert_eq!(fired_at, Some(21));
}

#[test]
fn expired_entries_carry_their_task() {
    let mut wheel = default_wheel();
    let handle = wheel.allocate_handle();
    let id = handle.task_id();
    wheel.insert(handle, TimerTask::new_periodic(Duration::from_millis(20), Duration::from_millis(30), Some(9), None));
    wheel.advance();
    let fired = wheel.advance();
    assert_eq!(fired.len(), 1);
    assert_eq!(fired[0].id, id);
    assert_eq!(fired[0].callback, Some(9));
    assert_eq!(fired[0].delay, Duration::from_millis(20));
    assert!(fired[0].task_type.is_periodic());
    let again = wheel.task_location(id).unwrap();
    assert_eq!(again.level, 0);
    assert_eq!(again.slot_index, 5);
}

#[test]
fn timer_task_accessors() {
    let t: TimerTask<u8> = TimerTask::new_periodic(Duration::from_millis(5), Duration::from_millis(7), Some(1), Some(16));
    assert_eq!(t.get_delay(), Duration::from_millis(5));
    assert_eq!(t.get_interval(), Some(Duration::from_millis(7)));
    assert_eq!(t.get_task_type(), TaskType::Periodic { interval: Duration::from_millis(7), buffer_size: Some(16) });
    let mut o: TimerTask<u8> = TimerTask::new_oneshot(Duration::from_millis(5), Some(3));
    assert_eq!(o.get_interval(), None);
    assert_eq!(o.take_callback(), Some(3));
    assert_eq!(o.take_callback(), None);
    let (delay, kind, cb) = o.into_parts();
    assert_eq!((delay, kind, cb), (Duration::from_millis(5), TaskType::OneShot, None));
}

#[test]
fn task_notification_accessors() {
    let id = TaskId::new(42);
    assert_eq!(id.as_u64(), 42);
    let a = TaskNotification::OneShot(id);
    let b = TaskNotification::Periodic(id);
    assert_eq!(a.task_id(), id);
    assert_eq!(b.task_id(), id);
    assert!(a.is_oneshot() && !a.is_periodic());
    assert!(b.is_periodic() && !b.is_oneshot());
    let loc = TaskLocation::new(1, 2, 3);
    assert_eq!((loc.level, loc.slot_index, loc.vec_index), (1, 2, 3));
}

#[test]
fn duration_helpers() {
    assert_eq!(duration_millis(Duration::from_micros(2500)), 2);
    assert_eq!(duration_millis(Duration::from_secs(3)), 3000);
    assert!(duration_is_zero(Duration::ZERO));
    assert!(!duration_is_zero(Duration::from_nanos(1)));
}

#[test]
fn decimal_rendering() {
    assert_eq!(u64_to_decimal(0), "0");
    assert_eq!(u64_to_decimal(15), "15");
    assert_eq!(u64_to_decimal(u64::MAX), "18446744073709551615");
}

/// Advances until `id` fires, at most `limit` times; the L0 tick it fired on.
fn fire_tick(wheel: &mut Wheel<u32>, id: TaskId, limit: usize) -> Option<u64> {
    for _ in 0..limit {
        if wheel.advance().iter().any(|e| e.id == id) {
            return Some(wheel.current_tick());
        }
    }
    None
}

#[test]
fn l1_task_moves_down_at_its_l1_deadline() {
    let mut wheel = default_wheel();
    let ten = insert_oneshot(&mut wheel, 10_000);
    let sixty_five = insert_oneshot(&mut wheel, 65_000);
    assert_eq!(fire_tick(&mut wheel, ten, 2000), Some(1001));
    assert_eq!(fire_tick(&mut wheel, sixty_five, 10_000), Some(6501));
}

#[test]
fn l1_delay_of_whole_turns_fires_on_its_own_turn() {
    // 64 s is 64 L1 ticks, one whole turn of 64 slots: the task moves down on
    // the first sweep of its slot and fires at 64 s, not a turn later.
    let mut wheel = default_wheel();
    let id = insert_oneshot(&mut wheel, 64_000);
    assert_eq!(wheel.determine_layer_ns(64_000_000_000), (1, 64, 0));
    assert_eq!(fire_tick(&mut wheel, id, 20_000), Some(6_401));
    let mut wheel = default_wheel();
    let id = insert_oneshot(&mut wheel, 128_000);
    assert_eq!(wheel.determine_layer_ns(128_000_000_000), (1, 128, 1));
    assert_eq!(fire_tick(&mut wheel, id, 20_000), Some(12_801));
}

#[test]
fn first_task_number_is_one() {
    let mut wheel = default_wheel();
    assert_eq!(wheel.allocate_handle().task_id().as_u64(), 1);
    assert_eq!(wheel.allocate_handle().task_id().as_u64(), 2);
}

#[test]
fn config_fits_wheel_checks() {
    assert!(WheelConfig::default().fits_wheel());
    let smaller_l1 = WheelConfig {
        l0_tick_duration: Duration::from_millis(20),
        l0_slot_count: 8,
        l1_tick_duration: Duration::from_millis(10),
        l1_slot_count: 8,
    };
    assert!(!smaller_l1.fits_wheel());
    let bad_slots = WheelConfig { l0_slot_count: 6, ..WheelConfig::default() };
    assert!(!bad_slots.fits_wheel());
    let wheel = default_wheel();
    assert_eq!(wheel.next_task_id(), 1);
}

#[test]
fn batch_postpone_keeps_the_latest_given_callback() {
    let mut wheel = default_wheel();
    let handle = wheel.allocate_handle();
    let id = handle.task_id();
    wheel.insert(handle, TimerTask::new_oneshot(Duration::from_millis(50), Some(1)));
    let other = insert_oneshot(&mut wheel, 50);
    let updates = vec![
        (id, Duration::from_millis(100), Some(5)),
        (other, Duration::from_millis(30), None),
        (id, Duration::from_millis(200), None),
    ];
    assert_eq!(wheel.postpone_batch_with_callbacks(updates), 3);
    let mut fired = Vec::new();
    for _ in 0..20 {
        for e in wheel.advance() {
            fired.push((wheel.current_tick(), e.id, e.callback));
        }
    }
    assert_eq!(fired, vec![(3, other, Some(0)), (20, id, Some(5))]);
}

#[test]
fn a_slot_fires_first_task_then_the_rest_from_the_back() {
    let mut wheel = default_wheel();
    let a = insert_oneshot(&mut wheel, 10);
    let b = insert_oneshot(&mut wheel, 10);
    let c = insert_oneshot(&mut wheel, 10);
    let d = insert_oneshot(&mut wheel, 10);
    let order: Vec<TaskId> = wheel.advance().iter().map(|e| e.id).collect();
    assert_eq!(order, vec![a, d, c, b]);
}

fn fired_ids_per_tick(wheel: &mut Wheel<u32>, ticks: usize) -> Vec<Vec<u64>> {
    (0..ticks).map(|_| wheel.advance().iter().map(|e| e.id.as_u64()).collect()).collect()
}

#[test]
fn cancel_batch_matches_cancels_one_by_one() {
    let delays = [30u64, 70, 70, 150, 20_000, 90_000];
    // A batch above the small batch threshold, with a repeat and an unknown number.
    let mut batch = Wheel::new(WheelConfig::default(), BatchConfig { small_batch_threshold: 2 });
    let mut single = Wheel::new(WheelConfig::default(), BatchConfig { small_batch_threshold: 2 });
    let ids: Vec<TaskId> = delays.iter().map(|&ms| insert_oneshot(&mut batch, ms)).collect();
    for &ms in delays.iter() {
        insert_oneshot(&mut single, ms);
    }
    let list = vec![ids[1], ids[4], ids[1], TaskId::new(999), ids[0]];
    let count = batch.cancel_batch(&list);
    let singles = list.iter().filter(|&&id| single.cancel(id)).count();
    assert_eq!(count, singles);
    assert_eq!(count, 3);
    assert_eq!(batch.len(), single.len());
    for id in [ids[2], ids[3], ids[5]] {
        let a = batch.task_location(id).unwrap();
        let b = single.task_location(id).unwrap();
        assert_eq!((a.level, a.slot_index), (b.level, b.slot_index));
    }
    assert_eq!(fired_ids_per_tick(&mut batch, 10_000), fired_ids_per_tick(&mut single, 10_000));
}

#[test]
fn insert_batch_matches_inserts_one_by_one() {
    let delays = [10u64, 10, 640, 5_120, 64_000, 65_000, 130_000];
    let mut batch = default_wheel();
    let mut single = default_wheel();
    let handles = batch.allocate_handles(delays.len());
    let tasks: Vec<TimerTask<u32>> =
        delays.iter().map(|&ms| TimerTask::new_oneshot(Duration::from_millis(ms), Some(0))).collect();
    assert!(batch.insert_batch(handles, tasks).is_ok());
    for &ms in delays.iter() {
        insert_oneshot(&mut single, ms);
    }
    assert_eq!(batch.len(), single.len());
    for n in 1..=delays.len() as u64 {
        let a = batch.task_location(TaskId::new(n)).unwrap();
        let b = single.task_location(TaskId::new(n)).unwrap();
        assert_eq!((a.level, a.slot_index), (b.level, b.slot_index));
    }
    assert_eq!(fired_ids_per_tick(&mut batch, 14_000), fired_ids_per_tick(&mut single, 14_000));
}

#[test]
fn sub_millisecond_ticks_run_on_the_wheel() {
    // L0: 8 slots of 500 us; L1: 4 slots of 2 ms (four L0 ticks).
    let config = WheelConfig {
        l0_tick_duration: Duration::from_micros(500),
        l0_slot_count: 8,
        l1_tick_duration: Duration::from_millis(2),
        l1_slot_count: 4,
    };
    assert!(config.fits_wheel());
    let mut wheel: Wheel<u32> = Wheel::new(config, BatchConfig::default());
    assert_eq!(wheel.determine_layer(Duration::from_micros(1500)), (0, 3, 0));
    assert_eq!(wheel.determine_layer(Duration::from_millis(6)), (1, 3, 0));
    let short = wheel.allocate_handle();
    let short_id = short.task_id();
    wheel.insert(short, TimerTask::new_oneshot(Duration::from_micros(1500), Some(0)));
    let long = wheel.allocate_handle();
    let long_id = long.task_id();
    wheel.insert(long, TimerTask::new_oneshot(Duration::from_millis(6), Some(0)));
    assert_eq!(fire_tick(&mut wheel, short_id, 100), Some(3));
    assert_eq!(fire_tick(&mut wheel, long_id, 100), Some(13));
    // 2.5 ms and 5 ms: a whole multiple, though not one in whole milliseconds.
    let uneven_ms = WheelConfig {
        l0_tick_duration: Duration::from_micros(2500),
        l0_slot_count: 8,
        l1_tick_duration: Duration::from_millis(5),
        l1_slot_count: 4,
    };
    assert!(uneven_ms.fits_wheel());
}

#[test]
fn postponed_task_into_l1_fires_after_its_l1_deadline() {
    let mut wheel = default_wheel();
    let id = insert_oneshot(&mut wheel, 100);
    assert!(wheel.postpone(id, Duration::from_millis(65_000), None));
    assert_eq!(wheel.task_location(id).unwrap().level, 1);
    assert_eq!(fire_tick(&mut wheel, id, 10_000), Some(6501));
}

#[test]
fn periodic_l1_task_fires_every_interval() {
    let mut wheel = default_wheel();
    let handle = wheel.allocate_handle();
    let id = handle.task_id();
    wheel.insert(
        handle,
        TimerTask::new_periodic(Duration::from_millis(10), Duration::from_millis(70_000), Some(0), None),
    );
    assert_eq!(fire_tick(&mut wheel, id, 10), Some(1));
    assert_eq!(wheel.task_location(id).unwrap().level, 1);
    assert_eq!(fire_tick(&mut wheel, id, 20_000), Some(7001));
    assert_eq!(fire_tick(&mut wheel, id, 20_000), Some(14001));
}

#[test]
fn a_hundred_allocations_are_increasing_from_one() {
    let mut wheel = default_wheel();
    let ids: Vec<u64> = (0..100).map(|_| wheel.allocate_handle().task_id().as_u64()).collect();
    assert_eq!(ids, (1..=100).collect::<Vec<u64>>());
}
