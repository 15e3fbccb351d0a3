use kestrel_timer::config::{BatchConfig, ServiceConfig, TimerConfig, WheelConfig};
use kestrel_timer::TimerError;
use std::time::Duration;

#[test]
fn test_wheel_config_default() {
    let config = WheelConfig::default();
    assert_eq!(config.l0_tick_duration, Duration::from_millis(10));
    assert_eq!(config.l0_slot_count, 512);
    assert_eq!(config.l1_tick_duration, Duration::from_secs(1));
    assert_eq!(config.l1_slot_count, 64);
}

#[test]
fn test_wheel_config_builder() {
    let config = WheelConfig::builder()
        .l0_tick_duration(Duration::from_millis(20))
        .l0_slot_count(1024)
        .l1_tick_duration(Duration::from_secs(2))
        .l1_slot_count(128)
        .build()
        .unwrap();

    assert_eq!(config.l0_tick_duration, Duration::from_millis(20));
    assert_eq!(config.l0_slot_count, 1024);
    assert_eq!(config.l1_tick_duration, Duration::from_secs(2));
    assert_eq!(config.l1_slot_count, 128);
}

#[test]
fn test_wheel_config_validation_zero_tick() {
    let result = WheelConfig::builder()
        .l0_tick_duration(Duration::ZERO)
        .build();

    assert!(result.is_err());
}

#[test]
fn test_wheel_config_validation_invalid_slot_count() {
    let result = WheelConfig::builder()
        .l0_slot_count(100)
        .build();

    assert!(result.is_err());
}

#[test]
fn test_service_config_default() {
    let config = ServiceConfig::default();
    assert_eq!(config.command_channel_capacity, 512);
    assert_eq!(config.timeout_channel_capacity, 1000);
}

#[test]
fn test_service_config_builder() {
    let config = ServiceConfig::builder()
        .command_channel_capacity(1024)
        .timeout_channel_capacity(2000)
        .build()
        .unwrap();

    assert_eq!(config.command_channel_capacity, 1024);
    assert_eq!(config.timeout_channel_capacity, 2000);
}

#[test]
fn test_batch_config_default() {
    let config = BatchConfig::default();
    assert_eq!(config.small_batch_threshold, 10);
}

#[test]
fn test_timer_config_default() {
    let config = TimerConfig::default();
    assert_eq!(config.wheel.l0_slot_count, 512);
    assert_eq!(config.service.command_channel_capacity, 512);
    assert_eq!(config.batch.small_batch_threshold, 10);
}

#[test]
fn test_timer_config_builder() {
    let config = TimerConfig::builder()
        .command_channel_capacity(1024)
        .timeout_channel_capacity(2000)
        .small_batch_threshold(20)
        .build()
        .unwrap();

    assert_eq!(config.service.command_channel_capacity, 1024);
    assert_eq!(config.service.timeout_channel_capacity, 2000);
    assert_eq!(config.batch.small_batch_threshold, 20);
}

#[test]
fn config_errors_name_the_field_and_reason() {
    let zero_l0 = WheelConfig::builder().l0_tick_duration(Duration::ZERO).build();
    assert_eq!(
        zero_l0.unwrap_err(),
        TimerError::InvalidConfiguration {
            field: "l0_tick_duration".to_string(),
            reason: "L0 layer tick duration must be greater than 0".to_string(),
        }
    );
    let zero_l1_slots = WheelConfig::builder().l1_slot_count(0).build();
    assert_eq!(
        zero_l1_slots.unwrap_err(),
        TimerError::InvalidSlotCount {
            slot_count: 0,
            reason: "L1 layer slot count must be greater than 0",
        }
    );
    let not_multiple = WheelConfig::builder()
        .l0_tick_duration(Duration::from_millis(10))
        .l1_tick_duration(Duration::from_millis(15))
        .build();
    assert_eq!(
        not_multiple.unwrap_err(),
        TimerError::InvalidConfiguration {
            field: "l1_tick_duration".to_string(),
            reason: "L1 tick duration (15 ms) must be an integer multiple of L0 tick duration (10 ms)".to_string(),
        }
    );
    let zero_command = ServiceConfig::builder().command_channel_capacity(0).build();
    assert_eq!(
        zero_command.unwrap_err(),
        TimerError::InvalidConfiguration {
            field: "command_channel_capacity".to_string(),
            reason: "command channel capacity must be greater than 0".to_string(),
        }
    );
    let zero_timeout = TimerConfig::builder().timeout_channel_capacity(0).build();
    assert_eq!(
        zero_timeout.unwrap_err(),
        TimerError::InvalidConfiguration {
            field: "timeout_channel_capacity".to_string(),
            reason: "timeout channel capacity must be greater than 0".to_string(),
        }
    );
}

#[test]
fn multiple_rule_compares_exact_tick_lengths() {
    // 500 us divides 1 s exactly: the configuration is valid.
    let fine = WheelConfig::builder().l0_tick_duration(Duration::from_micros(500)).build();
    let fine = fine.unwrap();
    assert_eq!(fine.l0_tick_duration, Duration::from_micros(500));
    assert_eq!(fine.l1_tick_duration, Duration::from_secs(1));
    // 4 ms is not a whole multiple of 1.5 ms, though 4 is one of 1.
    let uneven = WheelConfig::builder()
        .l0_tick_duration(Duration::from_micros(1500))
        .l1_tick_duration(Duration::from_millis(4))
        .build();
    assert_eq!(
        uneven.unwrap_err(),
        TimerError::InvalidConfiguration {
            field: "l1_tick_duration".to_string(),
            reason: "L1 tick duration (4 ms) must be an integer multiple of L0 tick duration (1 ms)".to_string(),
        }
    );
    // 4.5 ms is three times 1.5 ms.
    let even = WheelConfig::builder()
        .l0_tick_duration(Duration::from_micros(1500))
        .l1_tick_duration(Duration::from_micros(4500))
        .build();
    assert!(even.is_ok());
    // The wheel runs every configuration that builds, sub-millisecond ticks too.
    assert!(fine.fits_wheel());
}

#[test]
fn error_messages_read_as_displayed() {
    let slots = TimerError::InvalidSlotCount { slot_count: 6, reason: "L0 layer slot count must be power of 2" };
    assert_eq!(slots.message(), "Invalid slot count 6: L0 layer slot count must be power of 2");
    let config = TimerError::InvalidConfiguration {
        field: "l0_tick_duration".to_string(),
        reason: "L0 layer tick duration must be greater than 0".to_string(),
    };
    assert_eq!(
        config.message(),
        "Configuration validation failed (l0_tick_duration): L0 layer tick duration must be greater than 0"
    );
    assert_eq!(
        TimerError::RegisterFailed.message(),
        "Registration failed: internal channel is full or closed"
    );
    let mismatch = TimerError::BatchLengthMismatch { handles_len: 12, tasks_len: 3 };
    assert_eq!(mismatch.message(), "Batch length mismatch: 12 handles but 3 tasks");
}

#[test]
fn small_batch_threshold_changes_only_the_batch_part() {
    let base = TimerConfig::builder().command_channel_capacity(64).build().unwrap();
    for threshold in [0usize, 1, 10, 1000] {
        let config = TimerConfig::builder()
            .command_channel_capacity(64)
            .small_batch_threshold(threshold)
            .build()
            .unwrap();
        assert_eq!(config.batch.small_batch_threshold, threshold);
        assert_eq!(config.service.command_channel_capacity, base.service.command_channel_capacity);
        assert_eq!(config.service.timeout_channel_capacity, base.service.timeout_channel_capacity);
        assert_eq!(config.wheel.l0_tick_duration, base.wheel.l0_tick_duration);
        assert_eq!(config.wheel.l0_slot_count, base.wheel.l0_slot_count);
        assert_eq!(config.wheel.l1_tick_duration, base.wheel.l1_tick_duration);
        assert_eq!(config.wheel.l1_slot_count, base.wheel.l1_slot_count);
    }
    let failing = TimerConfig::builder().timeout_channel_capacity(0).small_batch_threshold(3).build();
    assert!(failing.is_err());
}
