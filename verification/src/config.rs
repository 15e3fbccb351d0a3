//! Configuration of the timing wheel, the service and batch handling, with
//! builders that validate what they build.
use crate::duration::{
    duration_as_nanos, duration_from_millis, duration_is_zero, duration_millis, duration_nanos,
    is_zero_duration, lemma_from_millis_roundtrip, millis_of,
};
use crate::error::TimerError;
use crate::text::{decimal, u64_to_decimal};
use std::time::Duration;
use vstd::arithmetic::power2::is_pow2;
use vstd::prelude::*;
use vstd::string::StringExecFns;

verus! {

/// A slot count that the wheel accepts: a power of two (so never zero).
pub open spec fn valid_slot_count(n: usize) -> bool {
    is_pow2(n as int)
}

/// Whether `n` is a power of two, as `usize::is_power_of_two` reports.
pub fn is_power_of_two(n: usize) -> (r: bool)
    ensures
        r == valid_slot_count(n),
{
    if n == 0 {
        proof {
            reveal(is_pow2);
        }
        return false;
    }
    let mut m = n;
    while m > 1
        invariant
            m >= 1,
            is_pow2(n as int) == is_pow2(m as int),
        decreases m,
    {
        proof {
            reveal(is_pow2);
        }
        if m % 2 != 0 {
            return false;
        }
        m = m / 2;
    }
    proof {
        reveal(is_pow2);
    }
    true
}

/// Parameters of the two-layer timing wheel.
#[derive(Debug, Clone, Copy)]
pub struct WheelConfig {
    /// Tick length of the lower layer (L0).
    pub l0_tick_duration: Duration,
    /// Number of L0 slots; a power of two.
    pub l0_slot_count: usize,
    /// Tick length of the upper layer (L1).
    pub l1_tick_duration: Duration,
    /// Number of L1 slots; a power of two.
    pub l1_slot_count: usize,
}

impl WheelConfig {
    /// The rules that `WheelConfigBuilder::build` enforces: both ticks non-zero, both
    /// slot counts powers of two, and the L1 tick a whole multiple of the L0 tick.
    pub open spec fn spec_valid(self) -> bool {
        &&& !is_zero_duration(self.l0_tick_duration)
        &&& valid_slot_count(self.l0_slot_count)
        &&& !is_zero_duration(self.l1_tick_duration)
        &&& valid_slot_count(self.l1_slot_count)
        &&& duration_nanos(self.l1_tick_duration) % duration_nanos(self.l0_tick_duration) == 0
    }

    /// A builder holding the default parameters.
    pub fn builder() -> (b: WheelConfigBuilder)
        ensures
            b.spec_is_default(),
    {
        WheelConfigBuilder::default()
    }
}

impl Default for WheelConfig {
    /// L0: 512 slots of 10 ms; L1: 64 slots of 1 s.
    fn default() -> (c: Self)
        ensures
            duration_nanos(c.l0_tick_duration) == 10_000_000,
            c.l0_slot_count == 512,
            duration_nanos(c.l1_tick_duration) == 1_000_000_000,
            c.l1_slot_count == 64,
            c.spec_valid(),
    {
        let c = WheelConfig {
            l0_tick_duration: duration_from_millis(10),
            l0_slot_count: 512,
            l1_tick_duration: duration_from_millis(1000),
            l1_slot_count: 64,
        };
        proof {
            lemma_from_millis_roundtrip(10, c.l0_tick_duration);
            lemma_from_millis_roundtrip(1000, c.l1_tick_duration);
            reveal_with_fuel(is_pow2, 11);
            assert(is_pow2(512));
            assert(is_pow2(64));
        }
        c
    }
}

/// Builder for `WheelConfig`; `build` validates.
#[derive(Debug, Clone, Copy)]
pub struct WheelConfigBuilder {
    l0_tick_duration: Duration,
    l0_slot_count: usize,
    l1_tick_duration: Duration,
    l1_slot_count: usize,
}

impl Default for WheelConfigBuilder {
    /// The same parameters as `WheelConfig::default`.
    fn default() -> (b: Self)
        ensures
            b.spec_is_default(),
    {
        let c = WheelConfig::default();
        WheelConfigBuilder {
            l0_tick_duration: c.l0_tick_duration,
            l0_slot_count: c.l0_slot_count,
            l1_tick_duration: c.l1_tick_duration,
            l1_slot_count: c.l1_slot_count,
        }
    }
}

impl WheelConfigBuilder {
    pub closed spec fn spec_l0_tick(self) -> Duration {
        self.l0_tick_duration
    }

    pub closed spec fn spec_l0_slots(self) -> usize {
        self.l0_slot_count
    }

    pub closed spec fn spec_l1_tick(self) -> Duration {
        self.l1_tick_duration
    }

    pub closed spec fn spec_l1_slots(self) -> usize {
        self.l1_slot_count
    }

    /// Holds the default parameters.
    pub open spec fn spec_is_default(self) -> bool {
        &&& duration_nanos(self.spec_l0_tick()) == 10_000_000
        &&& self.spec_l0_slots() == 512
        &&& duration_nanos(self.spec_l1_tick()) == 1_000_000_000
        &&& self.spec_l1_slots() == 64
    }

    /// The configuration this builder describes, before validation.
    pub open spec fn spec_config(self) -> WheelConfig {
        WheelConfig {
            l0_tick_duration: self.spec_l0_tick(),
            l0_slot_count: self.spec_l0_slots(),
            l1_tick_duration: self.spec_l1_tick(),
            l1_slot_count: self.spec_l1_slots(),
        }
    }

    /// Sets the L0 tick length.
    pub fn l0_tick_duration(self, duration: Duration) -> (b: Self)
        ensures
            b.spec_l0_tick() == duration,
            b.spec_l0_slots() == self.spec_l0_slots(),
            b.spec_l1_tick() == self.spec_l1_tick(),
            b.spec_l1_slots() == self.spec_l1_slots(),
    {
        WheelConfigBuilder { l0_tick_duration: duration, ..self }
    }

    /// Sets the L0 slot count.
    pub fn l0_slot_count(self, count: usize) -> (b: Self)
        ensures
            b.spec_l0_tick() == self.spec_l0_tick(),
            b.spec_l0_slots() == count,
            b.spec_l1_tick() == self.spec_l1_tick(),
            b.spec_l1_slots() == self.spec_l1_slots(),
    {
        WheelConfigBuilder { l0_slot_count: count, ..self }
    }

    /// Sets the L1 tick length.
    pub fn l1_tick_duration(self, duration: Duration) -> (b: Self)
        ensures
            b.spec_l0_tick() == self.spec_l0_tick(),
            b.spec_l0_slots() == self.spec_l0_slots(),
            b.spec_l1_tick() == duration,
            b.spec_l1_slots() == self.spec_l1_slots(),
    {
        WheelConfigBuilder { l1_tick_duration: duration, ..self }
    }

    /// Sets the L1 slot count.
    pub fn l1_slot_count(self, count: usize) -> (b: Self)
        ensures
            b.spec_l0_tick() == self.spec_l0_tick(),
            b.spec_l0_slots() == self.spec_l0_slots(),
            b.spec_l1_tick() == self.spec_l1_tick(),
            b.spec_l1_slots() == count,
    {
        WheelConfigBuilder { l1_slot_count: count, ..self }
    }

    /// Validates and builds. The rules are checked in order, and the first one
    /// broken decides the error: L0 tick non-zero, L0 slot count non-zero, L0 slot
    /// count a power of two, the same three for L1, and the L1 tick a whole multiple
    /// of the L0 tick. The error message gives both ticks in whole milliseconds.
    pub fn build(self) -> (r: Result<WheelConfig, TimerError>)
        ensures
            r is Ok <==> self.spec_config().spec_valid(),
            r is Ok <==> (duration_nanos(self.spec_l0_tick()) > 0 && is_pow2(self.spec_l0_slots() as int)
                && duration_nanos(self.spec_l1_tick()) > 0 && is_pow2(self.spec_l1_slots() as int)
                && duration_nanos(self.spec_l1_tick()) % duration_nanos(self.spec_l0_tick()) == 0),
            r matches Err(e) ==> match e {
                TimerError::InvalidSlotCount { slot_count, .. } => duration_nanos(self.spec_l0_tick()) > 0
                    && if !is_pow2(self.spec_l0_slots() as int) {
                    slot_count == self.spec_l0_slots()
                } else {
                    duration_nanos(self.spec_l1_tick()) > 0 && !is_pow2(self.spec_l1_slots() as int)
                        && slot_count == self.spec_l1_slots()
                },
                TimerError::InvalidConfiguration { field, .. } => if duration_nanos(self.spec_l0_tick()) == 0 {
                    field@ == "l0_tick_duration"@
                } else {
                    &&& is_pow2(self.spec_l0_slots() as int)
                    &&& field@ == "l1_tick_duration"@
                    &&& (duration_nanos(self.spec_l1_tick()) == 0 || (is_pow2(self.spec_l1_slots() as int)
                        && duration_nanos(self.spec_l1_tick()) % duration_nanos(self.spec_l0_tick()) != 0))
                },
                _ => false,
            },
            r is Ok ==> r->Ok_0 == self.spec_config(),
            r matches Err(e) ==> wheel_build_error(self, e),
    {
        proof {
            law_valid_wheel_config_is_the_documented_rules(self.spec_config());
            reveal(is_pow2);
            reveal_strlit("l0_tick_duration");
            reveal_strlit("l1_tick_duration");
        }
        if duration_is_zero(self.l0_tick_duration) {
            return Err(
                TimerError::InvalidConfiguration {
                    field: "l0_tick_duration".to_owned(),
                    reason: "L0 layer tick duration must be greater than 0".to_owned(),
                },
            );
        }
        if self.l0_slot_count == 0 {
            return Err(
                TimerError::InvalidSlotCount {
                    slot_count: self.l0_slot_count,
                    reason: "L0 layer slot count must be greater than 0",
                },
            );
        }
        if !is_power_of_two(self.l0_slot_count) {
            return Err(
                TimerError::InvalidSlotCount {
                    slot_count: self.l0_slot_count,
                    reason: "L0 layer slot count must be power of 2",
                },
            );
        }
        if duration_is_zero(self.l1_tick_duration) {
            return Err(
                TimerError::InvalidConfiguration {
                    field: "l1_tick_duration".to_owned(),
                    reason: "L1 layer tick duration must be greater than 0".to_owned(),
                },
            );
        }
        if self.l1_slot_count == 0 {
            return Err(
                TimerError::InvalidSlotCount {
                    slot_count: self.l1_slot_count,
                    reason: "L1 layer slot count must be greater than 0",
                },
            );
        }
        if !is_power_of_two(self.l1_slot_count) {
            return Err(
                TimerError::InvalidSlotCount {
                    slot_count: self.l1_slot_count,
                    reason: "L1 layer slot count must be power of 2",
                },
            );
        }
        let l0_ns = duration_as_nanos(self.l0_tick_duration);
        let l1_ns = duration_as_nanos(self.l1_tick_duration);
        if l1_ns % l0_ns != 0 {
            let l0_ms = duration_millis(self.l0_tick_duration);
            let l1_ms = duration_millis(self.l1_tick_duration);
            return Err(
                TimerError::InvalidConfiguration {
                    field: "l1_tick_duration".to_owned(),
                    reason: render_multiple_reason(l1_ms, l0_ms),
                },
            );
        }
        Ok(
            WheelConfig {
                l0_tick_duration: self.l0_tick_duration,
                l0_slot_count: self.l0_slot_count,
                l1_tick_duration: self.l1_tick_duration,
                l1_slot_count: self.l1_slot_count,
            },
        )
    }
}

/// The error that `WheelConfigBuilder::build` reports for a builder whose
/// configuration breaks a rule: the first broken rule, in the order the rules
/// are checked, decides it.
pub open spec fn wheel_build_error(b: WheelConfigBuilder, e: TimerError) -> bool {
    if is_zero_duration(b.spec_l0_tick()) {
        e matches TimerError::InvalidConfiguration { field, reason } && field@
            == "l0_tick_duration"@ && reason@ == "L0 layer tick duration must be greater than 0"@
    } else if b.spec_l0_slots() == 0 {
        e matches TimerError::InvalidSlotCount { slot_count, reason } && slot_count == 0
            && reason@ == "L0 layer slot count must be greater than 0"@
    } else if !valid_slot_count(b.spec_l0_slots()) {
        e matches TimerError::InvalidSlotCount { slot_count, reason } && slot_count
            == b.spec_l0_slots() && reason@ == "L0 layer slot count must be power of 2"@
    } else if is_zero_duration(b.spec_l1_tick()) {
        e matches TimerError::InvalidConfiguration { field, reason } && field@
            == "l1_tick_duration"@ && reason@ == "L1 layer tick duration must be greater than 0"@
    } else if b.spec_l1_slots() == 0 {
        e matches TimerError::InvalidSlotCount { slot_count, reason } && slot_count == 0
            && reason@ == "L1 layer slot count must be greater than 0"@
    } else if !valid_slot_count(b.spec_l1_slots()) {
        e matches TimerError::InvalidSlotCount { slot_count, reason } && slot_count
            == b.spec_l1_slots() && reason@ == "L1 layer slot count must be power of 2"@
    } else {
        e matches TimerError::InvalidConfiguration { field, reason } && field@
            == "l1_tick_duration"@ && reason@ == multiple_reason(
            millis_of(b.spec_l1_tick()),
            millis_of(b.spec_l0_tick()),
        )
    }
}

/// The error that `ServiceConfigBuilder::build` reports for a zero capacity.
pub open spec fn service_build_error(b: ServiceConfigBuilder, e: TimerError) -> bool {
    if b.spec_command() == 0 {
        e matches TimerError::InvalidConfiguration { field, reason } && field@
            == "command_channel_capacity"@ && reason@
            == "command channel capacity must be greater than 0"@
    } else {
        e matches TimerError::InvalidConfiguration { field, reason } && field@
            == "timeout_channel_capacity"@ && reason@
            == "timeout channel capacity must be greater than 0"@
    }
}

/// The message for an L1 tick that is not a whole multiple of the L0 tick.
pub open spec fn multiple_reason(l1_ms: u64, l0_ms: u64) -> Seq<char> {
    "L1 tick duration ("@ + decimal(l1_ms as nat) + " ms) must be an integer multiple of L0 tick duration ("@
        + decimal(l0_ms as nat) + " ms)"@
}

fn render_multiple_reason(l1_ms: u64, l0_ms: u64) -> (s: String)
    ensures
        s@ == multiple_reason(l1_ms, l0_ms),
{
    let mut s = String::from_str("L1 tick duration (");
    let a = u64_to_decimal(l1_ms);
    s.append(a.as_str());
    s.append(" ms) must be an integer multiple of L0 tick duration (");
    let b = u64_to_decimal(l0_ms);
    s.append(b.as_str());
    s.append(" ms)");
    s
}

/// Capacities of the service's channels.
#[derive(Debug, Clone, Copy)]
pub struct ServiceConfig {
    /// Capacity of the command channel.
    pub command_channel_capacity: usize,
    /// Capacity of the timeout notification channel.
    pub timeout_channel_capacity: usize,
}

impl Default for ServiceConfig {
    /// 512 commands, 1000 notifications.
    fn default() -> (c: Self)
        ensures
            c.command_channel_capacity == 512,
            c.timeout_channel_capacity == 1000,
    {
        ServiceConfig { command_channel_capacity: 512, timeout_channel_capacity: 1000 }
    }
}

impl ServiceConfig {
    /// A builder holding the default capacities.
    pub fn builder() -> (b: ServiceConfigBuilder)
        ensures
            b.spec_command() == 512,
            b.spec_timeout() == 1000,
    {
        ServiceConfigBuilder::default()
    }
}

/// Builder for `ServiceConfig`; `build` validates.
#[derive(Debug, Clone, Copy)]
pub struct ServiceConfigBuilder {
    command_channel_capacity: usize,
    timeout_channel_capacity: usize,
}

impl Default for ServiceConfigBuilder {
    /// The same capacities as `ServiceConfig::default`.
    fn default() -> (b: Self)
        ensures
            b.spec_command() == 512,
            b.spec_timeout() == 1000,
    {
        let config = ServiceConfig::default();
        ServiceConfigBuilder {
            command_channel_capacity: config.command_channel_capacity,
            timeout_channel_capacity: config.timeout_channel_capacity,
        }
    }
}

impl ServiceConfigBuilder {
    pub closed spec fn spec_command(self) -> usize {
        self.command_channel_capacity
    }

    pub closed spec fn spec_timeout(self) -> usize {
        self.timeout_channel_capacity
    }

    /// Sets the command channel capacity.
    pub fn command_channel_capacity(self, capacity: usize) -> (b: Self)
        ensures
            b.spec_command() == capacity,
            b.spec_timeout() == self.spec_timeout(),
    {
        ServiceConfigBuilder { command_channel_capacity: capacity, ..self }
    }

    /// Sets the timeout channel capacity.
    pub fn timeout_channel_capacity(self, capacity: usize) -> (b: Self)
        ensures
            b.spec_command() == self.spec_command(),
            b.spec_timeout() == capacity,
    {
        ServiceConfigBuilder { timeout_channel_capacity: capacity, ..self }
    }

    /// Validates and builds: both capacities must be non-zero, the command
    /// capacity being checked first.
    pub fn build(self) -> (r: Result<ServiceConfig, TimerError>)
        ensures
            r is Ok <==> (self.spec_command() > 0 && self.spec_timeout() > 0),
            r matches Ok(c) ==> c.command_channel_capacity == self.spec_command()
                && c.timeout_channel_capacity == self.spec_timeout(),
            r matches Err(e) ==> service_build_error(self, e),
    {
        if self.command_channel_capacity == 0 {
            return Err(
                TimerError::InvalidConfiguration {
                    field: "command_channel_capacity".to_owned(),
                    reason: "command channel capacity must be greater than 0".to_owned(),
                },
            );
        }
        if self.timeout_channel_capacity == 0 {
            return Err(
                TimerError::InvalidConfiguration {
                    field: "timeout_channel_capacity".to_owned(),
                    reason: "timeout channel capacity must be greater than 0".to_owned(),
                },
            );
        }
        Ok(
            ServiceConfig {
                command_channel_capacity: self.command_channel_capacity,
                timeout_channel_capacity: self.timeout_channel_capacity,
            },
        )
    }
}

/// Batch processing parameters.
#[derive(Debug, Clone, Copy)]
pub struct BatchConfig {
    /// Batches of at most this many cancellations are handled one by one,
    /// larger ones grouped by slot.
    pub small_batch_threshold: usize,
}

impl Default for BatchConfig {
    /// A threshold of 10.
    fn default() -> (c: Self)
        ensures
            c.small_batch_threshold == 10,
    {
        BatchConfig { small_batch_threshold: 10 }
    }
}

/// The whole configuration: wheel, service and batch parameters.
#[derive(Debug, Clone, Copy)]
pub struct TimerConfig {
    pub wheel: WheelConfig,
    pub service: ServiceConfig,
    pub batch: BatchConfig,
}

impl Default for TimerConfig {
    /// Every part at its default.
    fn default() -> (c: Self)
        ensures
            duration_nanos(c.wheel.l0_tick_duration) == 10_000_000,
            c.wheel.l0_slot_count == 512,
            duration_nanos(c.wheel.l1_tick_duration) == 1_000_000_000,
            c.wheel.l1_slot_count == 64,
            c.wheel.spec_valid(),
            c.service.command_channel_capacity == 512,
            c.service.timeout_channel_capacity == 1000,
            c.batch.small_batch_threshold == 10,
    {
        TimerConfig {
            wheel: WheelConfig::default(),
            service: ServiceConfig::default(),
            batch: BatchConfig::default(),
        }
    }
}

impl TimerConfig {
    /// A builder holding the default parameters.
    pub fn builder() -> (b: TimerConfigBuilder)
        ensures
            b.spec_wheel().spec_is_default(),
            b.spec_service().spec_command() == 512,
            b.spec_service().spec_timeout() == 1000,
            b.spec_batch().small_batch_threshold == 10,
    {
        TimerConfigBuilder::default()
    }
}

/// The default wheel parameters pass validation.
pub proof fn lemma_default_wheel_valid(b: WheelConfigBuilder)
    requires
        b.spec_is_default(),
    ensures
        b.spec_config().spec_valid(),
{
    reveal_with_fuel(is_pow2, 11);
    assert(is_pow2(512));
    assert(is_pow2(64));
}

/// Builder for `TimerConfig`: the wheel part stays at its defaults, the service
/// and batch parts can be set.
#[derive(Debug)]
pub struct TimerConfigBuilder {
    wheel_builder: WheelConfigBuilder,
    service_builder: ServiceConfigBuilder,
    batch_config: BatchConfig,
}

impl TimerConfigBuilder {
    /// The wheel part is the default one, which validation accepts.
    #[verifier::type_invariant]
    spec fn wheel_part_default(self) -> bool {
        &&& self.wheel_builder.spec_is_default()
        &&& self.wheel_builder.spec_config().spec_valid()
    }
}

impl Default for TimerConfigBuilder {
    fn default() -> (b: Self)
        ensures
            b.spec_wheel().spec_is_default(),
            b.spec_service().spec_command() == 512,
            b.spec_service().spec_timeout() == 1000,
            b.spec_batch().small_batch_threshold == 10,
    {
        let wheel_builder = WheelConfigBuilder::default();
        proof {
            lemma_default_wheel_valid(wheel_builder);
        }
        TimerConfigBuilder {
            wheel_builder,
            service_builder: ServiceConfigBuilder::default(),
            batch_config: BatchConfig::default(),
        }
    }
}

impl TimerConfigBuilder {
    pub closed spec fn spec_wheel(self) -> WheelConfigBuilder {
        self.wheel_builder
    }

    pub closed spec fn spec_service(self) -> ServiceConfigBuilder {
        self.service_builder
    }

    pub closed spec fn spec_batch(self) -> BatchConfig {
        self.batch_config
    }

    /// Sets the command channel capacity.
    pub fn command_channel_capacity(self, capacity: usize) -> (b: Self)
        ensures
            b.spec_wheel() == self.spec_wheel(),
            b.spec_service().spec_command() == capacity,
            b.spec_service().spec_timeout() == self.spec_service().spec_timeout(),
            b.spec_batch() == self.spec_batch(),
    {
        proof {
            use_type_invariant(&self);
        }
        TimerConfigBuilder {
            service_builder: self.service_builder.command_channel_capacity(capacity),
            ..self
        }
    }

    /// Sets the timeout channel capacity.
    pub fn timeout_channel_capacity(self, capacity: usize) -> (b: Self)
        ensures
            b.spec_wheel() == self.spec_wheel(),
            b.spec_service().spec_command() == self.spec_service().spec_command(),
            b.spec_service().spec_timeout() == capacity,
            b.spec_batch() == self.spec_batch(),
    {
        proof {
            use_type_invariant(&self);
        }
        TimerConfigBuilder {
            service_builder: self.service_builder.timeout_channel_capacity(capacity),
            ..self
        }
    }

    /// Sets the small batch threshold.
    pub fn small_batch_threshold(self, threshold: usize) -> (b: Self)
        ensures
            b.spec_wheel() == self.spec_wheel(),
            b.spec_service() == self.spec_service(),
            b.spec_batch().small_batch_threshold == threshold,
    {
        proof {
            use_type_invariant(&self);
        }
        TimerConfigBuilder { batch_config: BatchConfig { small_batch_threshold: threshold }, ..self }
    }

    /// Whether `build` succeeds: the wheel part, always the default, passes, so
    /// it does when both channel capacities are non-zero.
    pub open spec fn spec_builds(self) -> bool {
        self.spec_service().spec_command() > 0 && self.spec_service().spec_timeout() > 0
    }

    /// The configuration that `build` returns when it succeeds.
    pub open spec fn spec_built(self) -> TimerConfig {
        TimerConfig {
            wheel: self.spec_wheel().spec_config(),
            service: ServiceConfig {
                command_channel_capacity: self.spec_service().spec_command(),
                timeout_channel_capacity: self.spec_service().spec_timeout(),
            },
            batch: self.spec_batch(),
        }
    }

    /// Builds the wheel part, then the service part; the first error is returned.
    /// The wheel part is the default one, so only the service part can fail.
    pub fn build(self) -> (r: Result<TimerConfig, TimerError>)
        ensures
            r is Ok <==> self.spec_builds(),
            r matches Ok(c) ==> c == self.spec_built(),
            r matches Err(e) ==> service_build_error(self.spec_service(), e),
    {
        proof {
            use_type_invariant(&self);
        }
        let wheel = match self.wheel_builder.build() {
            Ok(w) => w,
            Err(e) => return Err(e),
        };
        let service = match self.service_builder.build() {
            Ok(s) => s,
            Err(e) => return Err(e),
        };
        Ok(TimerConfig { wheel, service, batch: self.batch_config })
    }
}

/// Setting the small batch threshold changes only the batch part of what the
/// builder builds: it builds exactly when it did before, the same wheel and
/// service configuration with the new threshold, or fails with the same error.
pub proof fn law_small_batch_threshold_changes_only_the_batch(
    b: TimerConfigBuilder,
    b2: TimerConfigBuilder,
    threshold: usize,
)
    requires
        b2.spec_wheel() == b.spec_wheel(),
        b2.spec_service() == b.spec_service(),
        b2.spec_batch().small_batch_threshold == threshold,
    ensures
        b2.spec_builds() == b.spec_builds(),
        b2.spec_built() == (TimerConfig {
            batch: BatchConfig { small_batch_threshold: threshold },
            ..b.spec_built()
        }),
        forall|e: TimerError| service_build_error(b2.spec_service(), e) == service_build_error(b.spec_service(), e),
{
}

/// A wheel configuration is valid exactly when both ticks are non-zero, both
/// slot counts are powers of two (so non-zero), and the L1 tick is a whole
/// multiple of the L0 tick.
pub proof fn law_valid_wheel_config_is_the_documented_rules(c: WheelConfig)
    ensures
        c.spec_valid() <==> (duration_nanos(c.l0_tick_duration) > 0 && is_pow2(c.l0_slot_count as int)
            && duration_nanos(c.l1_tick_duration) > 0 && is_pow2(c.l1_slot_count as int)
            && duration_nanos(c.l1_tick_duration) % duration_nanos(c.l0_tick_duration) == 0),
{
}

} // verus!
