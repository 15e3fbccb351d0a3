//! The hierarchical timing wheel.
//!
//! Time is counted in nanoseconds. L0 has fine ticks and covers
//! `l0_slot_count * l0_tick`; longer
//! delays go to L1, whose coarse ticks advance once every `l1_tick / l0_tick`
//! L0 ticks, with a count of full L1 turns (`rounds`) for delays beyond one turn.
//! When an L1 task comes due it moves down to L0, and L0 tasks fire. A task
//! index maps each scheduled task to its place, so cancellation and
//! postponement find a task directly.
use crate::config::{is_power_of_two, valid_slot_count, BatchConfig, WheelConfig};
use crate::duration::{duration_as_nanos, duration_is_zero, duration_nanos, duration_span_nanos, nanos_of};
use crate::error::TimerError;
use crate::index::TaskIndex;
use crate::task::{TaskHandle, TaskId, TaskLocation, TaskType, TimerTask, WheelEntry};
use std::time::Duration;
use vstd::arithmetic::power2::{is_pow2, is_pow2_equiv, lemma2_to64, lemma_pow2_strictly_increases, pow2};
use vstd::arithmetic::power::pow;
use vstd::bits::{lemma_u64_low_bits_mask_is_mod, low_bits_mask};
use vstd::prelude::*;

verus! {

/// The longest delay, interval or tick length, in nanoseconds, that the
/// wheel takes (2^62 ns, some 146 years). A bound of this library's choosing,
/// a little below the `u64` limit, so that tick arithmetic stays in `u64`.
pub const MAX_SPAN_NS: u64 = 0x4000_0000_0000_0000;

/// The highest L0 tick the wheel advances from (2^62 ticks), a bound of this
/// library's choosing a little below the `u64` limit, for the same reason.
pub const MAX_TICK: u64 = 0x4000_0000_0000_0000;

/// Ticks for a delay at a given tick length: whole ticks, at least one.
pub open spec fn ticks_for(delay_ns: u64, tick_ns: u64) -> u64 {
    if delay_ns / tick_ns >= 1 {
        (delay_ns / tick_ns) as u64
    } else {
        1
    }
}

/// Layer, ticks and rounds for a delay, given the wheel's parameters. A task of
/// `t` L1 ticks waits `(t - 1) / turn` full turns of the L1 layer (`turn` =
/// `l1_capacity_ticks`) before the sweep of its slot demotes it, so a delay of a
/// whole number of turns comes due on its own turn.
pub open spec fn layer_for(
    delay_ns: u64,
    l0_tick_ns: u64,
    l0_capacity_ns: u64,
    l1_tick_ns: u64,
    l1_capacity_ticks: u64,
) -> (u8, u64, u32) {
    if delay_ns < l0_capacity_ns {
        (0, ticks_for(delay_ns, l0_tick_ns), 0)
    } else {
        let t = ticks_for(delay_ns, l1_tick_ns);
        if t < l1_capacity_ticks {
            (1, t, 0)
        } else {
            (1, t, ((((t - 1) as u64) / l1_capacity_ticks) % 0x1_0000_0000) as u32)
        }
    }
}

/// A delay's ticks are its whole ticks, at least one: `t` ticks of `tick`
/// never overshoot the delay (unless `t` is the minimum of one), and one more
/// would.
pub proof fn law_ticks_are_whole_ticks(delay: u64, tick: u64)
    requires
        tick >= 1,
    ensures
        ticks_for(delay, tick) >= 1,
        ticks_for(delay, tick) == 1 || ticks_for(delay, tick) * tick <= delay,
        delay < (ticks_for(delay, tick) + 1) * tick,
{
    let q = delay / tick;
    assert(q * tick <= delay < (q + 1) * tick) by (nonlinear_arith)
        requires
            tick >= 1,
            q == delay / tick,
    ;
    if q == 0 {
        assert(ticks_for(delay, tick) == 1);
        assert(delay < (1 + 1) * tick) by (nonlinear_arith)
            requires
                delay < (q + 1) * tick,
                q == 0,
                tick >= 1,
        ;
    } else {
        assert(ticks_for(delay, tick) == q);
    }
}

/// Delays below the L0 span stay in L0 with no rounds; longer ones go to L1,
/// where a task of `t` L1 ticks waits `rounds` full turns with
/// `rounds * turn < t <= (rounds + 1) * turn` (when the turns fit in 32 bits).
pub proof fn law_layer_placement(
    delay: u64,
    l0_tick: u64,
    l0_capacity: u64,
    l1_tick: u64,
    turn: u64,
)
    requires
        turn >= 1,
    ensures
        ({
            let (level, ticks, rounds) = layer_for(delay, l0_tick, l0_capacity, l1_tick, turn);
            &&& (level == 0) <==> delay < l0_capacity
            &&& level == 0 ==> ticks == ticks_for(delay, l0_tick) && rounds == 0
            &&& level == 1 ==> ticks == ticks_for(delay, l1_tick)
            &&& (level == 1 && ticks >= 1 && (ticks - 1) / (turn as int) < 0x1_0000_0000) ==> rounds * turn < ticks <= (rounds
                + 1) * turn
        }),
{
    let (level, ticks, rounds) = layer_for(delay, l0_tick, l0_capacity, l1_tick, turn);
    if level == 1 && ticks >= 1 && (ticks - 1) / (turn as int) < 0x1_0000_0000 {
        let q = (ticks - 1) / (turn as int);
        vstd::arithmetic::div_mod::lemma_fundamental_div_mod(ticks - 1, turn as int);
        if ticks < turn {
            assert(rounds == 0);
        } else {
            assert(rounds == q);
        }
        assert(q * turn <= ticks - 1 < (q + 1) * turn) by (nonlinear_arith)
            requires
                turn >= 1,
                q == (ticks - 1) / (turn as int),
                ticks >= 1,
        ;
        if ticks < turn {
            assert(q == 0) by (nonlinear_arith)
                requires
                    q * turn <= ticks - 1,
                    ticks < turn,
                    turn >= 1,
                    q >= 0,
            ;
        }
    }
}

/// `tick & mask` for a power-of-two slot count `mask + 1`: the tick's slot.
fn slot_for(tick: u64, mask: usize) -> (slot: usize)
    requires
        valid_slot_count((mask + 1) as usize),
        mask + 1 <= usize::MAX,
    ensures
        slot == tick as int % (mask as int + 1),
{
    proof {
        let n = (mask + 1) as int;
        is_pow2_equiv(n);
        reveal(is_pow2);
        let k = choose|i: nat| pow(2, i) == n;
        assert(pow2(k) == n);
        lemma2_to64();
        if k >= 64 {
            if k > 64 {
                lemma_pow2_strictly_increases(64, k);
            }
            assert(false);
        }
        lemma_u64_low_bits_mask_is_mod(tick, k);
        assert(low_bits_mask(k) == mask);
    }
    (tick & (mask as u64)) as usize
}

/// One layer: its slots, its tick counter and its tick length.
struct WheelLayer<C> {
    slots: Vec<Vec<WheelEntry<C>>>,
    current_tick: u64,
    slot_count: usize,
    tick_duration: Duration,
    tick_duration_ns: u64,
    slot_mask: usize,
}

impl<C> WheelLayer<C> {
    spec fn wf(&self) -> bool {
        &&& self.slots@.len() == self.slot_count
        &&& valid_slot_count(self.slot_count)
        &&& self.slot_mask + 1 == self.slot_count
        &&& self.tick_duration_ns == nanos_of(self.tick_duration)
        &&& self.tick_duration_ns > 0
    }

    fn new(slot_count: usize, tick_duration: Duration) -> (l: Self)
        requires
            valid_slot_count(slot_count),
            nanos_of(tick_duration) > 0,
        ensures
            l.wf(),
            l.slot_count == slot_count,
            l.tick_duration == tick_duration,
            l.current_tick == 0,
            forall|s: int| 0 <= s < slot_count ==> (#[trigger] l.slots@[s])@.len() == 0,
    {
        proof {
            reveal(is_pow2);
        }
        let mut slots: Vec<Vec<WheelEntry<C>>> = Vec::with_capacity(slot_count);
        let mut i: usize = 0;
        while i < slot_count
            invariant
                i <= slot_count,
                slots@.len() == i,
                forall|s: int| 0 <= s < i ==> (#[trigger] slots@[s])@.len() == 0,
            decreases slot_count - i,
        {
            slots.push(Vec::with_capacity(4));
            i += 1;
        }
        let tick_duration_ns = duration_span_nanos(tick_duration);
        WheelLayer {
            slots,
            current_tick: 0,
            slot_count,
            tick_duration,
            tick_duration_ns,
            slot_mask: slot_count - 1,
        }
    }

    fn delay_to_ticks(&self, delay: Duration) -> (t: u64)
        requires
            self.wf(),
        ensures
            t == ticks_for(nanos_of(delay), self.tick_duration_ns),
    {
        let ticks = duration_span_nanos(delay) / self.tick_duration_ns;
        if ticks >= 1 {
            ticks
        } else {
            1
        }
    }
}

/// The two-layer timing wheel. `C` is the type of the tasks' callbacks, which
/// the wheel only carries.
pub struct Wheel<C> {
    l0: WheelLayer<C>,
    l1: WheelLayer<C>,
    l1_tick_ratio: u64,
    task_index: TaskIndex,
    batch_config: BatchConfig,
    l0_capacity_ns: u64,
    l1_capacity_ticks: u64,
    next_task_id: u64,
}

impl WheelConfig {
    /// A configuration the wheel can run: one that `WheelConfigBuilder::build`
    /// accepts, with an L1 tick of at most `MAX_SPAN_NS` and an L0 span (slot
    /// count times tick) that fits in `u64`.
    pub open spec fn spec_fits_wheel(self) -> bool {
        &&& self.spec_valid()
        &&& nanos_of(self.l1_tick_duration) <= MAX_SPAN_NS
        &&& self.l0_slot_count * nanos_of(self.l0_tick_duration) <= u64::MAX
    }

    /// In a configuration the wheel can run, both ticks are counted exactly in
    /// nanoseconds, and the L1 tick is a whole multiple of the L0 tick.
    pub proof fn lemma_fits_wheel_ticks(self)
        requires
            self.spec_fits_wheel(),
        ensures
            nanos_of(self.l0_tick_duration) == duration_nanos(self.l0_tick_duration),
            nanos_of(self.l1_tick_duration) == duration_nanos(self.l1_tick_duration),
            nanos_of(self.l0_tick_duration) > 0,
            nanos_of(self.l1_tick_duration) % nanos_of(self.l0_tick_duration) == 0,
            nanos_of(self.l1_tick_duration) >= nanos_of(self.l0_tick_duration),
            nanos_of(self.l1_tick_duration) <= MAX_SPAN_NS,
    {
        let a = duration_nanos(self.l0_tick_duration) as int;
        let b = duration_nanos(self.l1_tick_duration) as int;
        assert(b <= MAX_SPAN_NS);
        assert(a <= b) by (nonlinear_arith)
            requires
                a > 0,
                b > 0,
                b % a == 0,
        {
            vstd::arithmetic::div_mod::lemma_fundamental_div_mod(b, a);
            assert(b == a * (b / a));
            if b / a <= 0 {
                assert(a * (b / a) <= 0);
            }
        }
    }

    /// The wheel runs exactly the configurations with non-zero ticks, power-of-two
    /// slot counts, an L1 tick that is a whole multiple of the L0 tick, an L1 tick
    /// of at most `MAX_SPAN_NS` and an L0 span that fits in `u64`.
    pub proof fn law_fits_wheel_is_the_documented_rules(self)
        ensures
            self.spec_fits_wheel() <==> (duration_nanos(self.l0_tick_duration) > 0 && is_pow2(self.l0_slot_count as int)
                && duration_nanos(self.l1_tick_duration) > 0 && is_pow2(self.l1_slot_count as int)
                && duration_nanos(self.l1_tick_duration) % duration_nanos(self.l0_tick_duration) == 0
                && duration_nanos(self.l1_tick_duration) <= MAX_SPAN_NS
                && self.l0_slot_count * duration_nanos(self.l0_tick_duration) <= u64::MAX),
    {
        crate::config::law_valid_wheel_config_is_the_documented_rules(self);
        if self.spec_fits_wheel() {
            self.lemma_fits_wheel_ticks();
        }
        let a = duration_nanos(self.l0_tick_duration) as int;
        let b = duration_nanos(self.l1_tick_duration) as int;
        let n = self.l0_slot_count as int;
        if a > 0 && b > 0 && is_pow2(n) && b % a == 0 && b <= MAX_SPAN_NS && n * a <= u64::MAX {
            assert(a <= b) by (nonlinear_arith)
                requires
                    a > 0,
                    b > 0,
                    b % a == 0,
            {
                vstd::arithmetic::div_mod::lemma_fundamental_div_mod(b, a);
                if b / a <= 0 {
                    assert(a * (b / a) <= 0);
                }
            }
            assert(nanos_of(self.l0_tick_duration) == a);
            assert(nanos_of(self.l1_tick_duration) == b);
        }
    }

    /// Whether the wheel can run this configuration (`spec_fits_wheel`).
    pub fn fits_wheel(&self) -> (r: bool)
        ensures
            r == self.spec_fits_wheel(),
            r <==> (duration_nanos(self.l0_tick_duration) > 0 && is_pow2(self.l0_slot_count as int)
                && duration_nanos(self.l1_tick_duration) > 0 && is_pow2(self.l1_slot_count as int)
                && duration_nanos(self.l1_tick_duration) % duration_nanos(self.l0_tick_duration) == 0
                && duration_nanos(self.l1_tick_duration) <= MAX_SPAN_NS
                && self.l0_slot_count * duration_nanos(self.l0_tick_duration) <= u64::MAX),
    {
        proof {
            self.law_fits_wheel_is_the_documented_rules();
        }
        if duration_is_zero(self.l0_tick_duration) || duration_is_zero(self.l1_tick_duration) {
            return false;
        }
        if !is_power_of_two(self.l0_slot_count) || !is_power_of_two(self.l1_slot_count) {
            return false;
        }
        if duration_as_nanos(self.l1_tick_duration) % duration_as_nanos(self.l0_tick_duration) != 0 {
            return false;
        }
        let l0_ns = duration_span_nanos(self.l0_tick_duration);
        let l1_ns = duration_span_nanos(self.l1_tick_duration);
        if l1_ns > MAX_SPAN_NS {
            return false;
        }
        match (self.l0_slot_count as u64).checked_mul(l0_ns) {
            Some(_) => true,
            None => false,
        }
    }
}

impl<C> Wheel<C> {
    /// The slots of a layer (0 = L0, anything else = L1).
    pub closed spec fn spec_slots(self, level: u8) -> Seq<Vec<WheelEntry<C>>> {
        if level == 0 {
            self.l0.slots@
        } else {
            self.l1.slots@
        }
    }

    /// The tasks in slot `s` of a layer, in order.
    pub open spec fn spec_slot(self, level: u8, s: int) -> Seq<WheelEntry<C>> {
        self.spec_slots(level)[s]@
    }

    pub closed spec fn spec_slot_count(self, level: u8) -> nat {
        if level == 0 {
            self.l0.slot_count as nat
        } else {
            self.l1.slot_count as nat
        }
    }

    /// The tick counter of a layer.
    pub closed spec fn spec_current(self, level: u8) -> u64 {
        if level == 0 {
            self.l0.current_tick
        } else {
            self.l1.current_tick
        }
    }

    /// Nanoseconds per tick of a layer.
    pub closed spec fn spec_tick_ns(self, level: u8) -> u64 {
        if level == 0 {
            self.l0.tick_duration_ns
        } else {
            self.l1.tick_duration_ns
        }
    }

    pub closed spec fn spec_tick_duration(self, level: u8) -> Duration {
        if level == 0 {
            self.l0.tick_duration
        } else {
            self.l1.tick_duration
        }
    }

    /// L0 ticks per L1 tick.
    pub closed spec fn spec_ratio(self) -> u64 {
        self.l1_tick_ratio
    }

    /// Nanoseconds that L0 covers.
    pub closed spec fn spec_l0_capacity_ns(self) -> u64 {
        self.l0_capacity_ns
    }

    /// Ticks in one turn of L1.
    pub closed spec fn spec_l1_capacity_ticks(self) -> u64 {
        self.l1_capacity_ticks
    }

    /// Task number to location, for every scheduled task.
    pub closed spec fn spec_index(self) -> Map<u64, TaskLocation> {
        self.task_index@
    }

    /// The number the next allocated handle gets.
    pub closed spec fn spec_next_id(self) -> u64 {
        self.next_task_id
    }

    pub closed spec fn spec_batch(self) -> BatchConfig {
        self.batch_config
    }

    /// The scheduled tasks' numbers.
    pub open spec fn spec_scheduled(self) -> Set<u64> {
        self.spec_index().dom()
    }

    /// A location that holds a task.
    pub open spec fn spec_valid_loc(self, loc: TaskLocation) -> bool {
        &&& loc.level <= 1
        &&& loc.slot_index < self.spec_slots(loc.level).len()
        &&& loc.vec_index < self.spec_slot(loc.level, loc.slot_index as int).len()
    }

    /// The task at a location.
    pub open spec fn spec_entry_at(self, loc: TaskLocation) -> WheelEntry<C> {
        self.spec_slot(loc.level, loc.slot_index as int)[loc.vec_index as int]
    }

    /// The scheduled task with number `id`.
    pub open spec fn spec_task(self, id: u64) -> WheelEntry<C> {
        self.spec_entry_at(self.spec_index()[id])
    }

    /// Layer, ticks and rounds that this wheel gives a delay of `delay_ns`.
    pub open spec fn spec_layer_for(self, delay_ns: u64) -> (u8, u64, u32) {
        layer_for(
            delay_ns,
            self.spec_tick_ns(0),
            self.spec_l0_capacity_ns(),
            self.spec_tick_ns(1),
            self.spec_l1_capacity_ticks(),
        )
    }

    /// Bounds that keep the tick arithmetic of a task in range.
    pub open spec fn spec_entry_ok(self, level: u8, e: WheelEntry<C>) -> bool {
        &&& (level == 1 ==> e.deadline_tick * self.spec_ratio() <= 2 * MAX_TICK as int)
        &&& (e.task_type matches TaskType::Periodic { interval, .. } ==> nanos_of(interval)
            <= MAX_SPAN_NS)
    }

    /// The task at position `j` of slot `s` of layer `l` is indexed under its
    /// number with exactly that location.
    pub open spec fn spec_at_home(self, l: u8, s: int, j: int) -> bool {
        let e = self.spec_slot(l, s)[j];
        &&& self.spec_index().contains_key(e.id@)
        &&& self.spec_index()[e.id@] == (TaskLocation {
            level: l,
            slot_index: s as usize,
            vec_index: j as usize,
        })
        &&& self.spec_entry_ok(l, e)
    }

    /// Everything but the slots, the index, the tick counters and the next
    /// handle number is the same in `self` and `other`.
    pub closed spec fn spec_same_params(self, other: Self) -> bool {
        &&& self.l0.slot_count == other.l0.slot_count
        &&& self.l1.slot_count == other.l1.slot_count
        &&& self.l0.slot_mask == other.l0.slot_mask
        &&& self.l1.slot_mask == other.l1.slot_mask
        &&& self.l0.tick_duration == other.l0.tick_duration
        &&& self.l1.tick_duration == other.l1.tick_duration
        &&& self.l0.tick_duration_ns == other.l0.tick_duration_ns
        &&& self.l1.tick_duration_ns == other.l1.tick_duration_ns
        &&& self.l1_tick_ratio == other.l1_tick_ratio
        &&& self.l0_capacity_ns == other.l0_capacity_ns
        &&& self.l1_capacity_ticks == other.l1_capacity_ticks
        &&& self.batch_config == other.batch_config
    }

    /// The wheel's invariant: both layers well formed, the tick ratio and
    /// capacities consistent with the tick lengths, L1's counter the number of
    /// whole L1 ticks in L0's, and the index exactly the places of the tasks in
    /// the slots (so every task number occurs once), all below the next handle
    /// number.
    pub closed spec fn wf(self) -> bool {
        &&& self.wf_loose()
        &&& self.l1.current_tick == self.l0.current_tick / self.l1_tick_ratio
    }

    /// A well-formed wheel schedules finitely many tasks.
    pub proof fn lemma_scheduled_finite(self)
        requires
            self.wf(),
        ensures
            self.spec_scheduled().finite(),
    {
    }

    /// What the invariant says of the parameters, the counters and each task's
    /// place.
    pub proof fn lemma_wf_facts(self)
        requires
            self.wf(),
        ensures
            1 <= self.spec_slot_count(0) <= usize::MAX,
            1 <= self.spec_slot_count(1) <= usize::MAX,
            self.spec_tick_ns(0) >= 1,
            self.spec_ratio() >= 1,
            self.spec_tick_ns(1) == self.spec_ratio() * self.spec_tick_ns(0),
            self.spec_l0_capacity_ns() == self.spec_slot_count(0) * self.spec_tick_ns(0),
            self.spec_l1_capacity_ticks() == self.spec_slot_count(1),
            self.spec_current(0) <= MAX_TICK,
            self.spec_current(1) == self.spec_current(0) / self.spec_ratio(),
            self.spec_next_id() >= 1,
            forall|n: u64| #[trigger] self.spec_scheduled().contains(n) ==> {
                &&& self.spec_index()[n].level <= 1
                &&& self.spec_index()[n].slot_index < self.spec_slot_count(self.spec_index()[n].level)
                &&& self.spec_task(n).id@ == n
                &&& self.spec_entry_ok(self.spec_index()[n].level, self.spec_task(n))
            },
    {
        reveal(is_pow2);
        assert forall|n: u64| #[trigger] self.spec_scheduled().contains(n) implies {
            &&& self.spec_index()[n].level <= 1
            &&& self.spec_index()[n].slot_index < self.spec_slot_count(self.spec_index()[n].level)
            &&& self.spec_task(n).id@ == n
            &&& self.spec_entry_ok(self.spec_index()[n].level, self.spec_task(n))
        } by {
            assert(self.task_index@.contains_key(n));
            let loc = self.task_index@[n];
            assert(self.spec_at_home(loc.level, loc.slot_index as int, loc.vec_index as int));
        }
    }

    /// Wheels with the same parameters have the same slot counts, tick lengths,
    /// ratio and capacities.
    pub proof fn lemma_same_params(self, other: Self)
        requires
            self.spec_same_params(other),
        ensures
            self.spec_slot_count(0) == other.spec_slot_count(0),
            self.spec_slot_count(1) == other.spec_slot_count(1),
            self.spec_tick_ns(0) == other.spec_tick_ns(0),
            self.spec_tick_ns(1) == other.spec_tick_ns(1),
            self.spec_ratio() == other.spec_ratio(),
            self.spec_l0_capacity_ns() == other.spec_l0_capacity_ns(),
            self.spec_l1_capacity_ticks() == other.spec_l1_capacity_ticks(),
    {
    }

    /// The invariant with L1's counter only bounded by L0's (`l1 * ratio <= l0`),
    /// as it is in the middle of an advance.
    pub closed spec fn wf_loose(self) -> bool {
        &&& self.l0.wf()
        &&& self.l1.wf()
        &&& self.l1_tick_ratio >= 1
        &&& self.l1.tick_duration_ns == self.l1_tick_ratio * self.l0.tick_duration_ns
        &&& self.l1.tick_duration_ns <= MAX_SPAN_NS
        &&& self.l0_capacity_ns == self.l0.slot_count * self.l0.tick_duration_ns
        &&& self.l1_capacity_ticks == self.l1.slot_count
        &&& self.l0.current_tick <= MAX_TICK
        &&& self.l1.current_tick * self.l1_tick_ratio <= self.l0.current_tick
        &&& self.task_index@.dom().finite()
        &&& self.next_task_id >= 1
        &&& forall|id: u64| #[trigger]
            self.task_index@.contains_key(id) ==> {
                &&& self.spec_valid_loc(self.task_index@[id])
                &&& self.spec_entry_at(self.task_index@[id]).id@ == id
                &&& id < self.next_task_id
            }
        &&& forall|l: u8, s: int, j: int|
            l <= 1 && 0 <= s < self.spec_slots(l).len() && 0 <= j < self.spec_slot(l, s).len()
                ==> #[trigger] self.spec_at_home(l, s, j)
    }

    /// A wheel with the given configuration: both layers empty, both tick
    /// counters at zero.
    pub fn new(config: WheelConfig, batch_config: BatchConfig) -> (w: Self)
        requires
            config.spec_fits_wheel(),
        ensures
            w.wf(),
            w.spec_scheduled() =~= Set::<u64>::empty(),
            w.spec_current(0) == 0,
            w.spec_current(1) == 0,
            w.spec_slot_count(0) == config.l0_slot_count,
            w.spec_slot_count(1) == config.l1_slot_count,
            w.spec_tick_duration(0) == config.l0_tick_duration,
            w.spec_tick_duration(1) == config.l1_tick_duration,
            w.spec_tick_ns(0) == nanos_of(config.l0_tick_duration),
            w.spec_tick_ns(1) == nanos_of(config.l1_tick_duration),
            w.spec_ratio() == nanos_of(config.l1_tick_duration) / nanos_of(config.l0_tick_duration),
            w.spec_l0_capacity_ns() == config.l0_slot_count * nanos_of(config.l0_tick_duration),
            w.spec_l1_capacity_ticks() == config.l1_slot_count,
            w.spec_batch() == batch_config,
            w.spec_next_id() == 1,
            forall|l: u8, s: int| l <= 1 && 0 <= s < w.spec_slot_count(l) ==> (#[trigger] w.spec_slot(l, s)).len() == 0,
    {
        proof {
            config.lemma_fits_wheel_ticks();
        }
        let l0 = WheelLayer::new(config.l0_slot_count, config.l0_tick_duration);
        let l1 = WheelLayer::new(config.l1_slot_count, config.l1_tick_duration);
        let l1_tick_ratio = l1.tick_duration_ns / l0.tick_duration_ns;
        proof {
            assert(l1.tick_duration_ns == l1_tick_ratio * l0.tick_duration_ns) by (nonlinear_arith)
                requires
                    l1.tick_duration_ns % l0.tick_duration_ns == 0,
                    l0.tick_duration_ns > 0,
                    l1_tick_ratio == l1.tick_duration_ns / l0.tick_duration_ns,
            ;
            assert(l1_tick_ratio >= 1) by (nonlinear_arith)
                requires
                    l1.tick_duration_ns >= l0.tick_duration_ns,
                    l0.tick_duration_ns > 0,
                    l1_tick_ratio == l1.tick_duration_ns / l0.tick_duration_ns,
            ;
        }
        let l0_capacity_ns = (l0.slot_count as u64) * l0.tick_duration_ns;
        let l1_capacity_ticks = l1.slot_count as u64;
        let w = Wheel {
            l0,
            l1,
            l1_tick_ratio,
            task_index: TaskIndex::new(),
            batch_config,
            l0_capacity_ns,
            l1_capacity_ticks,
            next_task_id: 1,
        };
        assert(w.task_index@ =~= Map::empty());
        w
    }

    /// The L0 tick counter.
    pub fn current_tick(&self) -> (t: u64)
        ensures
            t == self.spec_current(0),
    {
        self.l0.current_tick
    }

    /// The L0 tick length.
    pub fn tick_duration(&self) -> (d: Duration)
        ensures
            d == self.spec_tick_duration(0),
    {
        self.l0.tick_duration
    }

    /// The number of L0 slots.
    pub fn slot_count(&self) -> (n: usize)
        ensures
            n == self.spec_slot_count(0),
    {
        self.l0.slot_count
    }

    /// The number the next allocated handle gets.
    pub fn next_task_id(&self) -> (n: u64)
        ensures
            n == self.spec_next_id(),
    {
        self.next_task_id
    }

    /// The number of L1 slots.
    pub fn l1_slot_count(&self) -> (n: usize)
        ensures
            n == self.spec_slot_count(1),
    {
        self.l1.slot_count
    }

    /// L0 ticks for a delay: whole ticks, at least one.
    pub fn delay_to_ticks(&self, delay: Duration) -> (t: u64)
        requires
            self.wf(),
        ensures
            t == ticks_for(nanos_of(delay), self.spec_tick_ns(0)),
    {
        self.l0.delay_to_ticks(delay)
    }

    /// L0 ticks per L1 tick.
    pub fn l1_tick_ratio(&self) -> (r: u64)
        ensures
            r == self.spec_ratio(),
    {
        self.l1_tick_ratio
    }

    /// Whether no task is scheduled.
    pub fn is_empty(&self) -> (r: bool)
        ensures
            r == (self.spec_scheduled() =~= Set::<u64>::empty()),
    {
        self.task_index.is_empty()
    }

    /// The number of scheduled tasks.
    pub fn len(&self) -> (n: usize)
        ensures
            n == self.spec_scheduled().len(),
    {
        self.task_index.len()
    }

    /// Where the task `id` is scheduled, if it is.
    pub fn task_location(&self, id: TaskId) -> (r: Option<TaskLocation>)
        ensures
            r == (if self.spec_index().contains_key(id@) {
                Some(self.spec_index()[id@])
            } else {
                None
            }),
    {
        self.task_index.get(id.as_u64())
    }

    /// Layer (0 or 1), ticks and rounds for a delay of `delay_ns` nanoseconds:
    /// L0 below the L0 span, else L1, with rounds for delays beyond one L1 turn.
    pub fn determine_layer_ns(&self, delay_ns: u64) -> (r: (u8, u64, u32))
        requires
            self.wf(),
        ensures
            r == self.spec_layer_for(delay_ns),
    {
        self.layer_of_ns(delay_ns)
    }

    /// The same, under the loose invariant.
    fn layer_of_ns(&self, delay_ns: u64) -> (r: (u8, u64, u32))
        requires
            self.wf_loose(),
        ensures
            r == self.spec_layer_for(delay_ns),
    {
        if delay_ns < self.l0_capacity_ns {
            let t = delay_ns / self.l0.tick_duration_ns;
            let l0_ticks = if t >= 1 {
                t
            } else {
                1
            };
            return (0, l0_ticks, 0);
        }
        let t = delay_ns / self.l1.tick_duration_ns;
        let l1_ticks = if t >= 1 {
            t
        } else {
            1
        };
        if l1_ticks < self.l1_capacity_ticks {
            (1, l1_ticks, 0)
        } else {
            let rounds = (((l1_ticks - 1) / self.l1_capacity_ticks) % 0x1_0000_0000u64) as u32;
            (1, l1_ticks, rounds)
        }
    }

    /// Layer, ticks and rounds for `delay`, from its nanoseconds.
    pub fn determine_layer(&self, delay: Duration) -> (r: (u8, u64, u32))
        requires
            self.wf(),
        ensures
            r == self.spec_layer_for(nanos_of(delay)),
    {
        self.determine_layer_ns(duration_span_nanos(delay))
    }
}


impl<C> Wheel<C> {
    /// Slots other than slot `s` of layer `level` are the same in both wheels.
    pub open spec fn spec_other_slots_same(self, other: Self, level: u8, s: int) -> bool {
        forall|l: u8, t: int|
            l <= 1 && 0 <= t < self.spec_slots(l).len() && !(l == level && t == s) ==> #[trigger] self.spec_slot(l, t)
                == other.spec_slot(l, t)
    }

    /// Same parameters, tick counters and next handle number.
    pub open spec fn spec_same_frame(self, other: Self) -> bool {
        &&& self.spec_same_params(other)
        &&& self.spec_current(0) == other.spec_current(0)
        &&& self.spec_current(1) == other.spec_current(1)
        &&& self.spec_next_id() == other.spec_next_id()
    }

    /// Appends `entry` to slot `slot` of layer `level` and indexes it there.
    fn push_entry(&mut self, level: u8, slot: usize, entry: WheelEntry<C>) -> (vec_index: usize)
        requires
            old(self).wf_loose(),
            level <= 1,
            slot < old(self).spec_slot_count(level),
            !old(self).spec_index().contains_key(entry.id@),
            entry.id@ < old(self).spec_next_id(),
            old(self).spec_entry_ok(level, entry),
        ensures
            final(self).wf_loose(),
            vec_index == old(self).spec_slot(level, slot as int).len(),
            final(self).spec_index() == old(self).spec_index().insert(
                entry.id@,
                TaskLocation { level, slot_index: slot, vec_index },
            ),
            final(self).spec_slot(level, slot as int) == old(self).spec_slot(level, slot as int).push(entry),
            final(self).spec_other_slots_same(*old(self), level, slot as int),
            final(self).spec_same_frame(*old(self)),
            final(self).spec_slots(0).len() == old(self).spec_slots(0).len(),
            final(self).spec_slots(1).len() == old(self).spec_slots(1).len(),
            final(self).spec_task(entry.id@) == entry,
            forall|i: u64| #[trigger] old(self).spec_index().contains_key(i) ==> final(self).spec_task(i) == old(self).spec_task(i),
    {
        let id = entry.id.as_u64();
        let vec_index;
        if level == 0 {
            vec_index = self.l0.slots[slot].len();
            self.l0.slots[slot].push(entry);
        } else {
            vec_index = self.l1.slots[slot].len();
            self.l1.slots[slot].push(entry);
        }
        self.task_index.insert(id, TaskLocation::new(level, slot, vec_index));
        proof {
            let o = *old(self);
            assert forall|i: u64| #[trigger] self.task_index@.contains_key(i) implies {
                &&& self.spec_valid_loc(self.task_index@[i])
                &&& self.spec_entry_at(self.task_index@[i]).id@ == i
                &&& i < self.next_task_id
                &&& (i != id ==> self.spec_task(i) == o.spec_task(i))
            } by {
                if i != id {
                    let loc = o.task_index@[i];
                    assert(o.spec_valid_loc(loc));
                    if loc.level == level && loc.slot_index == slot {
                        assert(self.spec_slot(level, slot as int)[loc.vec_index as int] == o.spec_slot(level, slot as int)[loc.vec_index as int]);
                    } else {
                        assert(self.spec_slot(loc.level, loc.slot_index as int) == o.spec_slot(loc.level, loc.slot_index as int));
                    }
                }
            }
            assert forall|l: u8, s: int, j: int|
                l <= 1 && 0 <= s < self.spec_slots(l).len() && 0 <= j < self.spec_slot(l, s).len()
                implies #[trigger] self.spec_at_home(l, s, j) by {
                if l == level && s == slot && j == vec_index {
                } else if l == level && s == slot {
                    assert(self.spec_slot(l, s)[j] == o.spec_slot(l, s)[j]);
                    assert(o.spec_at_home(l, s, j));
                } else {
                    assert(self.spec_slot(l, s) == o.spec_slot(l, s));
                    assert(o.spec_at_home(l, s, j));
                }
            }
        }
        vec_index
    }

    /// Removes the task at position `pos` of slot `slot` of layer `level` by
    /// swapping the slot's last task into its place, and updates the index.
    fn remove_at(&mut self, level: u8, slot: usize, pos: usize) -> (e: WheelEntry<C>)
        requires
            old(self).wf_loose(),
            level <= 1,
            slot < old(self).spec_slot_count(level),
            pos < old(self).spec_slot(level, slot as int).len(),
        ensures
            final(self).wf_loose(),
            e == old(self).spec_slot(level, slot as int)[pos as int],
            old(self).spec_index().contains_key(e.id@),
            old(self).spec_index()[e.id@] == (TaskLocation { level, slot_index: slot, vec_index: pos }),
            final(self).spec_slot(level, slot as int) == old(self).spec_slot(level, slot as int).update(
                pos as int,
                old(self).spec_slot(level, slot as int).last(),
            ).drop_last(),
            final(self).spec_index() == (if pos + 1 == old(self).spec_slot(level, slot as int).len() {
                old(self).spec_index().remove(e.id@)
            } else {
                old(self).spec_index().remove(e.id@).insert(
                    old(self).spec_slot(level, slot as int).last().id@,
                    TaskLocation { level, slot_index: slot, vec_index: pos },
                )
            }),
            final(self).spec_other_slots_same(*old(self), level, slot as int),
            final(self).spec_same_frame(*old(self)),
            final(self).spec_slots(0).len() == old(self).spec_slots(0).len(),
            final(self).spec_slots(1).len() == old(self).spec_slots(1).len(),
            final(self).spec_scheduled() == old(self).spec_scheduled().remove(e.id@),
            forall|i: u64| #[trigger] final(self).spec_index().contains_key(i) ==> {
                &&& final(self).spec_task(i) == old(self).spec_task(i)
                &&& final(self).spec_index()[i].level == old(self).spec_index()[i].level
                &&& final(self).spec_index()[i].slot_index == old(self).spec_index()[i].slot_index
            },
    {
        proof {
            assert(old(self).spec_at_home(level, slot as int, pos as int));
        }
        let e = if level == 0 {
            self.l0.slots[slot].swap_remove(pos)
        } else {
            self.l1.slots[slot].swap_remove(pos)
        };
        let id = e.id.as_u64();
        self.task_index.remove(id);
        let len = if level == 0 {
            self.l0.slots[slot].len()
        } else {
            self.l1.slots[slot].len()
        };
        let ghost mid = self.task_index@;
        if pos < len {
            let moved = if level == 0 {
                self.l0.slots[slot][pos].id.as_u64()
            } else {
                self.l1.slots[slot][pos].id.as_u64()
            };
            self.task_index.insert(moved, TaskLocation::new(level, slot, pos));
        }
        proof {
            let o = *old(self);
            let os = o.spec_slot(level, slot as int);
            let last = os.last();
            assert(o.spec_at_home(level, slot as int, os.len() - 1));
            assert forall|i: u64| #[trigger] self.task_index@.contains_key(i) implies {
                &&& self.spec_valid_loc(self.task_index@[i])
                &&& self.spec_entry_at(self.task_index@[i]).id@ == i
                &&& i < self.next_task_id
                &&& self.spec_task(i) == o.spec_task(i)
                &&& self.spec_index()[i].level == o.spec_index()[i].level
                &&& self.spec_index()[i].slot_index == o.spec_index()[i].slot_index
            } by {
                assert(o.task_index@.contains_key(i));
                let loc = o.task_index@[i];
                assert(o.spec_valid_loc(loc));
                if loc.level == level && loc.slot_index == slot {
                    assert(o.spec_at_home(level, slot as int, loc.vec_index as int));
                    if loc.vec_index as int == os.len() - 1 && pos < len {
                        assert(i == last.id@);
                    } else {
                        assert(self.spec_slot(level, slot as int)[loc.vec_index as int] == os[loc.vec_index as int]);
                    }
                } else {
                    assert(self.spec_slot(loc.level, loc.slot_index as int) == o.spec_slot(loc.level, loc.slot_index as int));
                }
            }
            assert forall|l: u8, s: int, j: int|
                l <= 1 && 0 <= s < self.spec_slots(l).len() && 0 <= j < self.spec_slot(l, s).len()
                implies #[trigger] self.spec_at_home(l, s, j) by {
                if l == level && s == slot {
                    if j == pos {
                        assert(self.spec_slot(l, s)[j] == last);
                    } else {
                        assert(self.spec_slot(l, s)[j] == os[j]);
                        assert(o.spec_at_home(l, s, j));
                    }
                } else {
                    assert(self.spec_slot(l, s) == o.spec_slot(l, s));
                    assert(o.spec_at_home(l, s, j));
                }
            }
            assert(self.spec_scheduled() =~= o.spec_scheduled().remove(id));
        }
        e
    }
}


/// The delay and, for a periodic task, the interval are within `MAX_SPAN_NS`.
pub open spec fn task_fits<C>(task: TimerTask<C>) -> bool {
    &&& nanos_of(task.spec_delay()) <= MAX_SPAN_NS
    &&& (task.spec_task_type() matches TaskType::Periodic { interval, .. } ==> nanos_of(interval)
        <= MAX_SPAN_NS)
}

/// A task fits the wheel exactly when its delay is at most `MAX_SPAN_NS` and,
/// for a periodic task, so is its interval, however the two compare.
pub proof fn law_task_fits_is_the_span_bound<C>(task: TimerTask<C>)
    ensures
        task_fits(task) <==> (duration_nanos(task.spec_delay()) <= MAX_SPAN_NS && (task.spec_task_type() matches TaskType::Periodic {
            interval,
            ..
        } ==> duration_nanos(interval) <= MAX_SPAN_NS)),
{
}

/// Whether `task` is within the spans the wheel takes (`task_fits`).
pub fn task_fits_wheel<C>(task: &TimerTask<C>) -> (r: bool)
    ensures
        r == task_fits(*task),
        r <==> (duration_nanos(task.spec_delay()) <= MAX_SPAN_NS && (task.spec_task_type() matches TaskType::Periodic {
            interval,
            ..
        } ==> duration_nanos(interval) <= MAX_SPAN_NS)),
{
    proof {
        law_task_fits_is_the_span_bound(*task);
    }
    if duration_span_nanos(task.get_delay()) > MAX_SPAN_NS {
        return false;
    }
    match task.get_task_type() {
        TaskType::OneShot => true,
        TaskType::Periodic { interval, .. } => duration_span_nanos(interval) <= MAX_SPAN_NS,
    }
}

proof fn lemma_l1_deadline_bound(l0cur: int, l1cur: int, ratio: int, l0ns: int, l1ns: int, delay_ns: int, t: int)
    requires
        0 <= l1cur,
        l1cur * ratio <= l0cur,
        ratio >= 1,
        l0ns >= 1,
        l1ns == ratio * l0ns,
        l1ns <= MAX_SPAN_NS,
        0 <= delay_ns <= MAX_SPAN_NS,
        0 <= l0cur <= MAX_TICK,
        t == (if delay_ns / l1ns >= 1 { delay_ns / l1ns } else { 1 }),
    ensures
        (l1cur + t) * ratio <= 2 * MAX_TICK,
{
    if delay_ns / l1ns >= 1 {
        assert(t * ratio <= delay_ns) by (nonlinear_arith)
            requires
                t == delay_ns / l1ns,
                l1ns == ratio * l0ns,
                l0ns >= 1,
                ratio >= 1,
                delay_ns >= 0,
        ;
    } else {
        assert(ratio <= l1ns) by (nonlinear_arith)
            requires
                l1ns == ratio * l0ns,
                l0ns >= 1,
                ratio >= 1,
        ;
    }
    assert((l1cur + t) * ratio == l1cur * ratio + t * ratio) by (nonlinear_arith);
}

impl<C> Wheel<C> {
    /// The slot a task scheduled now with a delay of `delay_ns` goes to.
    pub open spec fn spec_target(self, delay_ns: u64) -> (u8, u64, u32, usize) {
        let (level, ticks, rounds) = self.spec_layer_for(delay_ns);
        let deadline = (self.spec_current(level) + ticks) as u64;
        (level, deadline, rounds, (deadline as int % self.spec_slot_count(level) as int) as usize)
    }

    /// The entry a task gets when scheduled now.
    pub open spec fn spec_scheduled_entry(
        self,
        id: TaskId,
        task_type: TaskType,
        delay: Duration,
        callback: Option<C>,
    ) -> WheelEntry<C> {
        let (level, deadline, rounds, slot) = self.spec_target(nanos_of(delay));
        WheelEntry { id, task_type, delay, deadline_tick: deadline, rounds, callback }
    }

    /// Schedules a task from now: layer, ticks and rounds from its delay, the
    /// deadline the layer's current tick plus the ticks, the slot the deadline's.
    fn schedule(
        &mut self,
        id: TaskId,
        task_type: TaskType,
        delay: Duration,
        callback: Option<C>,
    ) -> (loc: TaskLocation)
        requires
            old(self).wf_loose(),
            !old(self).spec_index().contains_key(id@),
            id@ < old(self).spec_next_id(),
            nanos_of(delay) <= MAX_SPAN_NS,
            task_type matches TaskType::Periodic { interval, .. } ==> nanos_of(interval) <= MAX_SPAN_NS,
        ensures
            final(self).wf_loose(),
            ({
                let (level, deadline, rounds, slot) = old(self).spec_target(nanos_of(delay));
                &&& loc == (TaskLocation {
                    level,
                    slot_index: slot,
                    vec_index: old(self).spec_slot(level, slot as int).len() as usize,
                })
                &&& final(self).spec_slot(level, slot as int) == old(self).spec_slot(level, slot as int).push(
                    old(self).spec_scheduled_entry(id, task_type, delay, callback),
                )
                &&& final(self).spec_other_slots_same(*old(self), level, slot as int)
            }),
            final(self).spec_index() == old(self).spec_index().insert(id@, loc),
            final(self).spec_same_frame(*old(self)),
            final(self).spec_slots(0).len() == old(self).spec_slots(0).len(),
            final(self).spec_slots(1).len() == old(self).spec_slots(1).len(),
            final(self).spec_task(id@) == old(self).spec_scheduled_entry(id, task_type, delay, callback),
            forall|i: u64| #[trigger] old(self).spec_index().contains_key(i) ==> final(self).spec_task(i) == old(self).spec_task(i),
    {
        let (level, ticks, rounds) = self.layer_of_ns(duration_span_nanos(delay));
        proof {
            assert(ticks <= MAX_SPAN_NS) by (nonlinear_arith)
                requires
                    ticks == ticks_for(nanos_of(delay), self.spec_tick_ns(level)),
                    self.spec_tick_ns(level) >= 1,
                    nanos_of(delay) <= MAX_SPAN_NS,
            ;
            assert(self.l1.current_tick <= self.l0.current_tick) by (nonlinear_arith)
                requires
                    self.l1.current_tick * self.l1_tick_ratio <= self.l0.current_tick,
                    self.l1_tick_ratio >= 1,
            ;
        }
        let (current_tick, slot_mask) = if level == 0 {
            (self.l0.current_tick, self.l0.slot_mask)
        } else {
            (self.l1.current_tick, self.l1.slot_mask)
        };
        let total_ticks = current_tick + ticks;
        let slot_index = slot_for(total_ticks, slot_mask);
        let entry = WheelEntry { id, task_type, delay, deadline_tick: total_ticks, rounds, callback };
        proof {
            if level == 1 {
                lemma_l1_deadline_bound(
                    self.l0.current_tick as int,
                    self.l1.current_tick as int,
                    self.l1_tick_ratio as int,
                    self.l0.tick_duration_ns as int,
                    self.l1.tick_duration_ns as int,
                    nanos_of(delay) as int,
                    ticks as int,
                );
            }
        }
        let vec_index = self.push_entry(level, slot_index, entry);
        let loc = TaskLocation::new(level, slot_index, vec_index);
        proof {
            assert(self.spec_task(id@) == entry);
        }
        loc
    }
}


/// The reverse of a vector, by popping it into a new one.
fn reversed<T>(v: Vec<T>) -> (r: Vec<T>)
    ensures
        r@ == v@.reverse(),
{
    let mut v = v;
    let mut r: Vec<T> = Vec::new();
    let ghost orig = v@;
    while v.len() > 0
        invariant
            v@ == orig.subrange(0, v@.len() as int),
            r@ == orig.subrange(v@.len() as int, orig.len() as int).reverse(),
            v@.len() <= orig.len(),
        decreases v@.len(),
    {
        let x = v.pop().unwrap();
        r.push(x);
        proof {
            assert(r@ =~= orig.subrange(v@.len() as int, orig.len() as int).reverse());
            assert(v@ =~= orig.subrange(0, v@.len() as int));
        }
    }
    assert(orig.subrange(0, orig.len() as int) =~= orig);
    r
}

/// How many of `ids` are in `scheduled`, counting repeats.
pub open spec fn count_scheduled(ids: Seq<TaskId>, scheduled: Set<u64>) -> nat
    decreases ids.len(),
{
    if ids.len() == 0 {
        0
    } else {
        count_scheduled(ids.drop_last(), scheduled) + if scheduled.contains(ids.last()@) {
            1nat
        } else {
            0nat
        }
    }
}

/// The task numbers of a list of identifiers.
pub open spec fn id_set(ids: Seq<TaskId>) -> Set<u64> {
    Set::new(|n: u64| exists|i: int| 0 <= i < ids.len() && (#[trigger] ids[i])@ == n)
}

impl<C> Wheel<C> {
    /// Tasks other than those numbered in `ids` are where they were (layer and
    /// slot) and as they were.
    pub open spec fn spec_others_same(self, old: Self, ids: Set<u64>) -> bool {
        forall|i: u64|
            #[trigger] self.spec_index().contains_key(i) && !ids.contains(i) ==> {
                &&& old.spec_index().contains_key(i)
                &&& self.spec_task(i) == old.spec_task(i)
                &&& self.spec_index()[i].level == old.spec_index()[i].level
                &&& self.spec_index()[i].slot_index == old.spec_index()[i].slot_index
            }
    }

    /// `self` is `old` after `allocate_handle` handed out `h`: `h` has the next
    /// number, which no task has, and only the next number moved on.
    pub open spec fn spec_allocated(self, old: Self, h: TaskHandle) -> bool {
        &&& self.wf()
        &&& h.spec_id()@ == old.spec_next_id()
        &&& !old.spec_scheduled().contains(h.spec_id()@)
        &&& self.spec_next_id() == old.spec_next_id() + 1
        &&& self.spec_index() == old.spec_index()
        &&& self.spec_same_params(old)
        &&& self.spec_current(0) == old.spec_current(0)
        &&& self.spec_current(1) == old.spec_current(1)
        &&& forall|l: u8, s: int| #[trigger] self.spec_slot(l, s) == old.spec_slot(l, s)
        &&& self.spec_slots(0).len() == old.spec_slots(0).len()
        &&& self.spec_slots(1).len() == old.spec_slots(1).len()
    }

    /// Hands out the next task number; nothing else changes.
    pub fn allocate_handle(&mut self) -> (h: TaskHandle)
        requires
            old(self).wf(),
            old(self).spec_next_id() < u64::MAX,
        ensures
            final(self).spec_allocated(*old(self), h),
    {
        let id = TaskId::new(self.next_task_id);
        self.next_task_id = self.next_task_id + 1;
        proof {
            let o = *old(self);
            assert forall|l: u8, s: int, j: int|
                l <= 1 && 0 <= s < self.spec_slots(l).len() && 0 <= j < self.spec_slot(l, s).len()
                implies #[trigger] self.spec_at_home(l, s, j) by {
                assert(o.spec_at_home(l, s, j));
            }
        }
        TaskHandle::new(id)
    }

    /// Hands out `count` consecutive task numbers, starting at the next one.
    pub fn allocate_handles(&mut self, count: usize) -> (hs: Vec<TaskHandle>)
        requires
            old(self).wf(),
            old(self).spec_next_id() + count <= u64::MAX,
        ensures
            final(self).wf(),
            hs@.len() == count,
            forall|i: int| 0 <= i < count ==> (#[trigger] hs@[i]).spec_id()@ == old(self).spec_next_id() + i,
            final(self).spec_next_id() == old(self).spec_next_id() + count,
            final(self).spec_index() == old(self).spec_index(),
            final(self).spec_same_params(*old(self)),
            final(self).spec_current(0) == old(self).spec_current(0),
            final(self).spec_current(1) == old(self).spec_current(1),
            forall|l: u8, s: int| #[trigger] final(self).spec_slot(l, s) == old(self).spec_slot(l, s),
            final(self).spec_slots(0).len() == old(self).spec_slots(0).len(),
            final(self).spec_slots(1).len() == old(self).spec_slots(1).len(),
    {
        let mut hs: Vec<TaskHandle> = Vec::with_capacity(count);
        let mut i: usize = 0;
        while i < count
            invariant
                i <= count,
                self.wf(),
                self.spec_next_id() == old(self).spec_next_id() + i,
                old(self).spec_next_id() + count <= u64::MAX,
                hs@.len() == i,
                forall|k: int| 0 <= k < i ==> (#[trigger] hs@[k]).spec_id()@ == old(self).spec_next_id() + k,
                self.spec_index() == old(self).spec_index(),
                self.spec_same_params(*old(self)),
                self.spec_current(0) == old(self).spec_current(0),
                self.spec_current(1) == old(self).spec_current(1),
                forall|l: u8, s: int| #[trigger] self.spec_slot(l, s) == old(self).spec_slot(l, s),
                self.spec_slots(0).len() == old(self).spec_slots(0).len(),
                self.spec_slots(1).len() == old(self).spec_slots(1).len(),
            decreases count - i,
        {
            let h = self.allocate_handle();
            hs.push(h);
            i += 1;
        }
        hs
    }

    /// `self` is `old` after `insert(handle, task)`: the task is scheduled under
    /// the handle's number, in the layer and slot its delay gives from now, and
    /// every other task is where and as it was.
    pub open spec fn spec_inserted(self, old: Self, handle: TaskHandle, task: TimerTask<C>) -> bool {
        let id = handle.spec_id()@;
        let (level, deadline, rounds, slot) = old.spec_target(nanos_of(task.spec_delay()));
        &&& self.wf()
        &&& self.spec_index() == old.spec_index().insert(id, self.spec_index()[id])
        &&& self.spec_index()[id].level == level
        &&& self.spec_index()[id].slot_index == slot
        &&& self.spec_task(id) == old.spec_scheduled_entry(
            handle.spec_id(),
            task.spec_task_type(),
            task.spec_delay(),
            task.spec_callback(),
        )
        &&& self.spec_others_same(old, set![id])
        &&& forall|i: u64| #[trigger] old.spec_index().contains_key(i) ==> {
            &&& self.spec_task(i) == old.spec_task(i)
            &&& self.spec_index()[i] == old.spec_index()[i]
        }
        &&& self.spec_same_frame(old)
    }

    /// Registers `task` under the handle's number, scheduled from now.
    pub fn insert(&mut self, handle: TaskHandle, task: TimerTask<C>)
        requires
            old(self).wf(),
            !old(self).spec_scheduled().contains(handle.spec_id()@),
            handle.spec_id()@ < old(self).spec_next_id(),
            task_fits(task),
        ensures
            final(self).spec_inserted(*old(self), handle, task),
    {
        let id = handle.task_id();
        let (delay, task_type, callback) = task.into_parts();
        let loc = self.schedule(id, task_type, delay, callback);
        proof {
            let o = *old(self);
            assert forall|i: u64| #[trigger] self.spec_index().contains_key(i) && !set![id@].contains(i) implies {
                &&& o.spec_index().contains_key(i)
                &&& self.spec_task(i) == o.spec_task(i)
                &&& self.spec_index()[i].level == o.spec_index()[i].level
                &&& self.spec_index()[i].slot_index == o.spec_index()[i].slot_index
            } by {
                let oloc = o.spec_index()[i];
                assert(o.spec_valid_loc(oloc));
                if oloc.level == loc.level && oloc.slot_index == loc.slot_index {
                    assert(self.spec_slot(loc.level, loc.slot_index as int)[oloc.vec_index as int]
                        == o.spec_slot(loc.level, loc.slot_index as int)[oloc.vec_index as int]);
                } else {
                    assert(self.spec_slot(oloc.level, oloc.slot_index as int) == o.spec_slot(oloc.level, oloc.slot_index as int));
                }
            }
        }
    }

    /// `self` is `old` after `cancel(id)` returned `r`: `r` tells whether the
    /// task was scheduled, it no longer is, and nothing else changed.
    pub open spec fn spec_cancelled(self, old: Self, id: TaskId, r: bool) -> bool {
        &&& self.wf()
        &&& r == old.spec_scheduled().contains(id@)
        &&& self.spec_scheduled() == old.spec_scheduled().remove(id@)
        &&& self.spec_others_same(old, set![id@])
        &&& self.spec_same_frame(old)
        &&& self.spec_slots(0).len() == old.spec_slots(0).len()
        &&& self.spec_slots(1).len() == old.spec_slots(1).len()
    }

    /// Cancels the task `task_id`: true if it was scheduled, and then it no
    /// longer is; nothing else changes.
    pub fn cancel(&mut self, task_id: TaskId) -> (r: bool)
        requires
            old(self).wf(),
        ensures
            final(self).spec_cancelled(*old(self), task_id, r),
    {
        let location = match self.task_index.get(task_id.as_u64()) {
            Some(loc) => loc,
            None => {
                proof {
                    assert(self.spec_scheduled() =~= old(self).spec_scheduled().remove(task_id@));
                }
                return false;
            },
        };
        let slot_len = if location.level == 0 {
            self.l0.slots[location.slot_index].len()
        } else {
            self.l1.slots[location.slot_index].len()
        };
        proof {
            assert(self.task_index@.contains_key(task_id@));
            assert(self.spec_valid_loc(location));
        }
        if location.vec_index >= slot_len {
            return false;
        }
        let found = if location.level == 0 {
            self.l0.slots[location.slot_index][location.vec_index].id
        } else {
            self.l1.slots[location.slot_index][location.vec_index].id
        };
        proof {
            TaskId::lemma_view_eq(found, task_id);
        }
        if found != task_id {
            return false;
        }
        let _removed = self.remove_at(location.level, location.slot_index, location.vec_index);
        true
    }

    /// `self` is `old` after `postpone(id, new_delay, new_callback)` returned
    /// `r`: `r` tells whether the task was scheduled; if it was, it is scheduled
    /// again from now with the new delay (and the new callback, if one was
    /// given); the set of scheduled tasks and every other task are unchanged.
    pub open spec fn spec_postponed(
        self,
        old: Self,
        id: TaskId,
        new_delay: Duration,
        new_callback: Option<C>,
        r: bool,
    ) -> bool {
        let (level, deadline, rounds, slot) = old.spec_target(nanos_of(new_delay));
        &&& self.wf()
        &&& r == old.spec_scheduled().contains(id@)
        &&& self.spec_scheduled() == old.spec_scheduled()
        &&& r ==> self.spec_task(id@) == old.spec_scheduled_entry(
            id,
            old.spec_task(id@).task_type,
            new_delay,
            if new_callback is Some { new_callback } else { old.spec_task(id@).callback },
        )
        &&& r ==> self.spec_index()[id@].level == level && self.spec_index()[id@].slot_index == slot
        &&& self.spec_others_same(old, set![id@])
        &&& self.spec_same_frame(old)
        &&& self.spec_slots(0).len() == old.spec_slots(0).len()
        &&& self.spec_slots(1).len() == old.spec_slots(1).len()
    }

    /// Reschedules the task `task_id` from now with `new_delay`, keeping its
    /// number and kind and, when `new_callback` is `None`, its callback: true if
    /// it was scheduled.
    pub fn postpone(&mut self, task_id: TaskId, new_delay: Duration, new_callback: Option<C>) -> (r: bool)
        requires
            old(self).wf(),
            old(self).spec_scheduled().contains(task_id@) ==> nanos_of(new_delay) <= MAX_SPAN_NS,
        ensures
            final(self).spec_postponed(*old(self), task_id, new_delay, new_callback, r),
    {
        let location = match self.task_index.get(task_id.as_u64()) {
            Some(loc) => loc,
            None => return false,
        };
        let slot_len = if location.level == 0 {
            self.l0.slots[location.slot_index].len()
        } else {
            self.l1.slots[location.slot_index].len()
        };
        proof {
            assert(self.task_index@.contains_key(task_id@));
            assert(self.spec_valid_loc(location));
        }
        if location.vec_index >= slot_len {
            return false;
        }
        let found = if location.level == 0 {
            self.l0.slots[location.slot_index][location.vec_index].id
        } else {
            self.l1.slots[location.slot_index][location.vec_index].id
        };
        proof {
            TaskId::lemma_view_eq(found, task_id);
        }
        if found != task_id {
            return false;
        }
        proof {
            assert(old(self).spec_at_home(location.level, location.slot_index as int, location.vec_index as int));
        }
        let removed = self.remove_at(location.level, location.slot_index, location.vec_index);
        let ghost mid = *self;
        let WheelEntry { id, task_type, delay: _, deadline_tick: _, rounds: _, callback } = removed;
        let callback = match new_callback {
            Some(cb) => Some(cb),
            None => callback,
        };
        let loc = self.schedule(id, task_type, new_delay, callback);
        proof {
            let o = *old(self);
            assert(self.spec_scheduled() =~= o.spec_scheduled());
            assert forall|i: u64| #[trigger] self.spec_index().contains_key(i) && !set![task_id@].contains(i) implies {
                &&& o.spec_index().contains_key(i)
                &&& self.spec_task(i) == o.spec_task(i)
                &&& self.spec_index()[i].level == o.spec_index()[i].level
                &&& self.spec_index()[i].slot_index == o.spec_index()[i].slot_index
            } by {
                assert(mid.spec_index().contains_key(i));
                let mloc = mid.spec_index()[i];
                assert(mid.spec_valid_loc(mloc));
                if mloc.level == loc.level && mloc.slot_index == loc.slot_index {
                    assert(self.spec_slot(loc.level, loc.slot_index as int)[mloc.vec_index as int]
                        == mid.spec_slot(loc.level, loc.slot_index as int)[mloc.vec_index as int]);
                } else {
                    assert(self.spec_slot(mloc.level, mloc.slot_index as int) == mid.spec_slot(mloc.level, mloc.slot_index as int));
                }
            }
        }
        true
    }
}


/// The numbers of a list of entries.
pub open spec fn entry_ids<C>(es: Seq<WheelEntry<C>>) -> Set<u64> {
    Set::new(|n: u64| exists|i: int| 0 <= i < es.len() && (#[trigger] es[i]).id@ == n)
}

/// `b` is a clone of the callback `a`: none for none, and for some callback
/// one that its `clone` can return.
pub open spec fn callback_cloned<C: Clone>(a: Option<C>, b: Option<C>) -> bool {
    match a {
        None => b is None,
        Some(x) => b is Some && cloned::<C>(x, b->0),
    }
}

/// The interval of a periodic task kind.
pub open spec fn interval_of(k: TaskType) -> Duration {
    match k {
        TaskType::Periodic { interval, .. } => interval,
        TaskType::OneShot => arbitrary(),
    }
}

impl<C> Wheel<C> {
    /// The numbers of the tasks in slot `slot` of layer `level`.
    pub open spec fn spec_slot_ids(self, level: u8, slot: int) -> Set<u64> {
        Set::new(
            |n: u64|
                self.spec_index().contains_key(n) && self.spec_index()[n].level == level
                    && self.spec_index()[n].slot_index == slot,
        )
    }

    /// The L0 slot that a task due in L1 moves to: that of the L0 tick its L1
    /// deadline stands for, or of the next L0 tick if that one has passed.
    pub open spec fn spec_demote_slot(self, e: WheelEntry<C>) -> int {
        let due = e.deadline_tick * self.spec_ratio();
        let target = if due > self.spec_current(0) {
            due
        } else {
            self.spec_current(0) + 1
        };
        target % (self.spec_slot_count(0) as int)
    }

    /// One fewer round for the task at `pos` of L1 slot `slot`.
    fn decrement_rounds(&mut self, slot: usize, pos: usize)
        requires
            old(self).wf_loose(),
            slot < old(self).spec_slot_count(1),
            pos < old(self).spec_slot(1, slot as int).len(),
            old(self).spec_slot(1, slot as int)[pos as int].rounds > 0,
        ensures
            final(self).wf_loose(),
            final(self).spec_index() == old(self).spec_index(),
            final(self).spec_slot(1, slot as int) == old(self).spec_slot(1, slot as int).update(
                pos as int,
                WheelEntry {
                    rounds: (old(self).spec_slot(1, slot as int)[pos as int].rounds - 1) as u32,
                    ..old(self).spec_slot(1, slot as int)[pos as int]
                },
            ),
            final(self).spec_other_slots_same(*old(self), 1, slot as int),
            final(self).spec_same_frame(*old(self)),
            final(self).spec_slots(0).len() == old(self).spec_slots(0).len(),
            final(self).spec_slots(1).len() == old(self).spec_slots(1).len(),
    {
        let r = self.l1.slots[slot][pos].rounds;
        self.l1.slots[slot][pos].rounds = r - 1;
        proof {
            let o = *old(self);
            assert forall|i: u64| #[trigger] self.task_index@.contains_key(i) implies {
                &&& self.spec_valid_loc(self.task_index@[i])
                &&& self.spec_entry_at(self.task_index@[i]).id@ == i
                &&& i < self.next_task_id
            } by {
                let loc = o.task_index@[i];
                assert(o.spec_valid_loc(loc));
                if loc.level == 1 && loc.slot_index == slot {
                } else {
                    assert(self.spec_slot(loc.level, loc.slot_index as int) == o.spec_slot(loc.level, loc.slot_index as int));
                }
            }
            assert forall|l: u8, s: int, j: int|
                l <= 1 && 0 <= s < self.spec_slots(l).len() && 0 <= j < self.spec_slot(l, s).len()
                implies #[trigger] self.spec_at_home(l, s, j) by {
                assert(o.spec_at_home(l, s, j));
                if l == 1 && s == slot {
                } else {
                    assert(self.spec_slot(l, s) == o.spec_slot(l, s));
                }
            }
        }
    }
}

impl<C: Clone> Wheel<C> {
    /// Takes every task out of L0 slot `slot`, repeatedly removing the slot's
    /// first task; returns them, and the periodic ones' number, kind, interval
    /// and a clone of their callback, for rescheduling.
    fn fire_l0_slot(&mut self, slot: usize) -> (r: (
        Vec<WheelEntry<C>>,
        Vec<(TaskId, TaskType, Duration, Option<C>)>,
    ))
        requires
            old(self).wf_loose(),
            slot < old(self).spec_slot_count(0),
        ensures
            final(self).wf_loose(),
            final(self).spec_same_frame(*old(self)),
            final(self).spec_slots(0).len() == old(self).spec_slots(0).len(),
            final(self).spec_slots(1).len() == old(self).spec_slots(1).len(),
            final(self).spec_slot(0, slot as int).len() == 0,
            r.0@ == fired_order(old(self).spec_slot(0, slot as int)),
            forall|i: int| 0 <= i < r.0@.len() ==> {
                &&& old(self).spec_slot_ids(0, slot as int).contains((#[trigger] r.0@[i]).id@)
                &&& old(self).spec_task(r.0@[i].id@) == r.0@[i]
            },
            forall|i: int, j: int| 0 <= i < j < r.0@.len() ==> (#[trigger] r.0@[i]).id@ != (#[trigger] r.0@[j]).id@,
            entry_ids(r.0@) == old(self).spec_slot_ids(0, slot as int),
            final(self).spec_scheduled() == old(self).spec_scheduled().difference(old(self).spec_slot_ids(0, slot as int)),
            final(self).spec_others_same(*old(self), old(self).spec_slot_ids(0, slot as int)),
            forall|k: int| 0 <= k < r.1@.len() ==> {
                &&& (#[trigger] r.1@[k]).1 is Periodic
                &&& old(self).spec_slot_ids(0, slot as int).contains(r.1@[k].0@)
                &&& old(self).spec_task(r.1@[k].0@).task_type == r.1@[k].1
                &&& callback_cloned(old(self).spec_task(r.1@[k].0@).callback, r.1@[k].3)
                &&& r.1@[k].2 == interval_of(r.1@[k].1)
                &&& nanos_of(r.1@[k].2) <= MAX_SPAN_NS
                &&& r.1@[k].0@ < old(self).spec_next_id()
            },
            forall|k1: int, k2: int| 0 <= k1 < k2 < r.1@.len() ==> (#[trigger] r.1@[k1]).0@ != (#[trigger] r.1@[k2]).0@,
            forall|i: int| 0 <= i < r.0@.len() && (#[trigger] r.0@[i]).task_type is Periodic ==>
                exists|k: int| 0 <= k < r.1@.len() && (#[trigger] r.1@[k]).0@ == r.0@[i].id@,
    {
        let ghost o = *old(self);
        let ghost ids = o.spec_slot_ids(0, slot as int);
        let mut expired: Vec<WheelEntry<C>> = Vec::new();
        let mut periodic: Vec<(TaskId, TaskType, Duration, Option<C>)> = Vec::new();
        while self.l0.slots[slot].len() > 0
            invariant
                self.wf_loose(),
                self.spec_same_frame(o),
                expired@.len() <= o.spec_slot(0, slot as int).len(),
                self.spec_slot(0, slot as int) == slot_after_removals(o.spec_slot(0, slot as int), expired@.len() as int),
                expired@ == taken_after_removals(o.spec_slot(0, slot as int), expired@.len() as int),
                self.spec_slots(0).len() == o.spec_slots(0).len(),
                self.spec_slots(1).len() == o.spec_slots(1).len(),
                slot < o.spec_slot_count(0),
                ids == o.spec_slot_ids(0, slot as int),
                forall|i: int| 0 <= i < expired@.len() ==> {
                    &&& ids.contains((#[trigger] expired@[i]).id@)
                    &&& o.spec_task(expired@[i].id@) == expired@[i]
                },
                forall|i: int, j: int| 0 <= i < j < expired@.len() ==> (#[trigger] expired@[i]).id@ != (#[trigger] expired@[j]).id@,
                entry_ids(expired@).subset_of(ids),
                self.spec_scheduled() == o.spec_scheduled().difference(entry_ids(expired@)),
                self.spec_others_same(o, entry_ids(expired@)),
                forall|k: int| 0 <= k < periodic@.len() ==> {
                    &&& (#[trigger] periodic@[k]).1 is Periodic
                    &&& ids.contains(periodic@[k].0@)
                    &&& o.spec_task(periodic@[k].0@).task_type == periodic@[k].1
                    &&& callback_cloned(o.spec_task(periodic@[k].0@).callback, periodic@[k].3)
                    &&& periodic@[k].2 == interval_of(periodic@[k].1)
                    &&& nanos_of(periodic@[k].2) <= MAX_SPAN_NS
                    &&& periodic@[k].0@ < o.spec_next_id()
                    &&& entry_ids(expired@).contains(periodic@[k].0@)
                },
                forall|k1: int, k2: int| 0 <= k1 < k2 < periodic@.len() ==> (#[trigger] periodic@[k1]).0@ != (#[trigger] periodic@[k2]).0@,
                forall|i: int| 0 <= i < expired@.len() && (#[trigger] expired@[i]).task_type is Periodic ==>
                    exists|k: int| 0 <= k < periodic@.len() && (#[trigger] periodic@[k]).0@ == expired@[i].id@,
            decreases self.spec_slot(0, slot as int).len(),
        {
            let ghost before = *self;
            let ghost exp_before = expired@;
            let ghost per_before = periodic@;
            proof {
                assert(before.spec_at_home(0, slot as int, 0));
            }
            let ghost slot_before = self.spec_slot(0, slot as int);
            let e = self.remove_at(0, slot, 0);
            proof {
                let s0 = o.spec_slot(0, slot as int);
                let n = s0.len() as int;
                let k = exp_before.len() as int;
                assert(e == slot_before[0]);
                if k == 0 {
                    assert(e == s0[0]);
                } else {
                    assert(e == s0[n - k]);
                }
                assert(self.spec_slot(0, slot as int) =~= slot_after_removals(s0, k + 1));
                assert(exp_before.push(e) =~= taken_after_removals(s0, k + 1));
            }
            let is_periodic = e.task_type.is_periodic();
            proof {
                assert(before.spec_index()[e.id@].level == 0);
                assert(!entry_ids(exp_before).contains(e.id@));
                assert(o.spec_index().contains_key(e.id@));
                assert(before.spec_task(e.id@) == e);
                assert(ids.contains(e.id@));
                assert(o.spec_task(e.id@) == e);
                assert(o.spec_at_home(0, slot as int, o.spec_index()[e.id@].vec_index as int));
            }
            if is_periodic {
                let interval = match e.task_type {
                    TaskType::Periodic { interval, .. } => interval,
                    TaskType::OneShot => e.delay,
                };
                let cb = e.callback.clone();
                periodic.push((e.id, e.task_type, interval, cb));
            }
            expired.push(e);
            proof {
                assert(entry_ids(expired@) =~= entry_ids(exp_before).insert(e.id@)) by {
                    assert forall|n: u64| entry_ids(expired@).contains(n) implies entry_ids(exp_before).insert(e.id@).contains(n) by {
                        let i = choose|i: int| 0 <= i < expired@.len() && (#[trigger] expired@[i]).id@ == n;
                        if i < exp_before.len() {
                            assert(exp_before[i] == expired@[i]);
                        }
                    }
                    assert forall|n: u64| entry_ids(exp_before).insert(e.id@).contains(n) implies entry_ids(expired@).contains(n) by {
                        if n == e.id@ {
                            assert(expired@[exp_before.len() as int] == e);
                        } else {
                            let i = choose|i: int| 0 <= i < exp_before.len() && (#[trigger] exp_before[i]).id@ == n;
                            assert(expired@[i] == exp_before[i]);
                        }
                    }
                }
                assert(self.spec_scheduled() =~= o.spec_scheduled().difference(entry_ids(expired@)));
                assert forall|i: int| 0 <= i < expired@.len() && (#[trigger] expired@[i]).task_type is Periodic implies
                    exists|k: int| 0 <= k < periodic@.len() && (#[trigger] periodic@[k]).0@ == expired@[i].id@ by {
                    if i < exp_before.len() {
                        assert(expired@[i] == exp_before[i]);
                        let k = choose|k: int| 0 <= k < per_before.len() && (#[trigger] per_before[k]).0@ == exp_before[i].id@;
                        assert(periodic@[k] == per_before[k]);
                    } else {
                        assert(periodic@[per_before.len() as int].0@ == e.id@);
                    }
                }
                assert forall|i: u64| #[trigger] self.spec_index().contains_key(i) && !entry_ids(expired@).contains(i) implies {
                    &&& o.spec_index().contains_key(i)
                    &&& self.spec_task(i) == o.spec_task(i)
                    &&& self.spec_index()[i].level == o.spec_index()[i].level
                    &&& self.spec_index()[i].slot_index == o.spec_index()[i].slot_index
                } by {
                    assert(before.spec_index().contains_key(i));
                }
            }
        }
        proof {
            assert(ids =~= entry_ids(expired@)) by {
                assert forall|n: u64| ids.contains(n) implies entry_ids(expired@).contains(n) by {
                    if !entry_ids(expired@).contains(n) {
                        assert(o.spec_index().contains_key(n));
                        assert(self.spec_index().contains_key(n));
                        let loc = self.spec_index()[n];
                        assert(self.spec_valid_loc(loc));
                    }
                }
            }
        }
        (expired, periodic)
    }
}


/// The order in which the tasks of a slot holding `s` fire: the first, then
/// the others from the last back to the second (each removal moves the slot's
/// last task to the front).
pub open spec fn fired_order<C>(s: Seq<WheelEntry<C>>) -> Seq<WheelEntry<C>> {
    if s.len() == 0 {
        s
    } else {
        seq![s[0]] + s.subrange(1, s.len() as int).reverse()
    }
}

/// What slot `s0` holds, and what has been taken from it, after `k` of its
/// tasks were removed from the front.
spec fn slot_after_removals<C>(s0: Seq<WheelEntry<C>>, k: int) -> Seq<WheelEntry<C>> {
    if k == 0 {
        s0
    } else if k < s0.len() {
        seq![s0[s0.len() - k]] + s0.subrange(1, s0.len() - k)
    } else {
        Seq::empty()
    }
}

spec fn taken_after_removals<C>(s0: Seq<WheelEntry<C>>, k: int) -> Seq<WheelEntry<C>> {
    if k == 0 {
        Seq::empty()
    } else {
        seq![s0[0]] + s0.subrange(s0.len() - k + 1, s0.len() as int).reverse()
    }
}

/// A task with one round fewer.
pub open spec fn one_round_less<C>(e: WheelEntry<C>) -> WheelEntry<C> {
    WheelEntry { rounds: (e.rounds - 1) as u32, ..e }
}

impl<C> Wheel<C> {
    /// Walks L1 slot `slot`: a task with rounds left loses one and stays; a task
    /// with none is taken out (the slot's last task takes its place and is
    /// looked at next). Returns the tasks taken out, in order.
    fn sweep_l1_slot(&mut self, slot: usize) -> (due: Vec<WheelEntry<C>>)
        requires
            old(self).wf_loose(),
            slot < old(self).spec_slot_count(1),
        ensures
            final(self).wf_loose(),
            final(self).spec_same_frame(*old(self)),
            final(self).spec_slots(0).len() == old(self).spec_slots(0).len(),
            final(self).spec_slots(1).len() == old(self).spec_slots(1).len(),
            forall|k: int| 0 <= k < due@.len() ==> {
                &&& old(self).spec_slot_ids(1, slot as int).contains((#[trigger] due@[k]).id@)
                &&& old(self).spec_task(due@[k].id@) == due@[k]
                &&& due@[k].rounds == 0
            },
            forall|k1: int, k2: int| 0 <= k1 < k2 < due@.len() ==> (#[trigger] due@[k1]).id@ != (#[trigger] due@[k2]).id@,
            final(self).spec_scheduled() == old(self).spec_scheduled().difference(entry_ids(due@)),
            final(self).spec_others_same(*old(self), old(self).spec_slot_ids(1, slot as int)),
            forall|n: u64| #[trigger] old(self).spec_slot_ids(1, slot as int).contains(n) ==> {
                if old(self).spec_task(n).rounds > 0 {
                    &&& final(self).spec_index().contains_key(n)
                    &&& final(self).spec_index()[n].level == 1
                    &&& final(self).spec_index()[n].slot_index == slot
                    &&& final(self).spec_task(n) == one_round_less(old(self).spec_task(n))
                } else {
                    entry_ids(due@).contains(n)
                }
            },
    {
        let ghost o = *old(self);
        let ghost ids = o.spec_slot_ids(1, slot as int);
        let mut due: Vec<WheelEntry<C>> = Vec::new();
        let mut i: usize = 0;
        proof {
            assert forall|j: int| 0 <= j < self.spec_slot(1, slot as int).len() implies {
                let e = #[trigger] self.spec_slot(1, slot as int)[j];
                &&& ids.contains(e.id@)
                &&& e == o.spec_task(e.id@)
            } by {
                assert(self.spec_slot(1, slot as int) == o.spec_slot(1, slot as int));
                assert(slot < o.spec_slots(1).len());
                assert(o.spec_at_home(1, slot as int, j));
                let e = o.spec_slot(1, slot as int)[j];
                assert(o.spec_index()[e.id@].level == 1);
                assert(o.spec_index()[e.id@].slot_index == slot);
                assert(ids.contains(e.id@));
                assert(o.spec_slots(1)[slot as int].len() == o.spec_slot(1, slot as int).len());
                assert(o.spec_index()[e.id@].vec_index == j);
                assert(o.spec_task(e.id@) == e);
                assert(self.spec_slot(1, slot as int)[j] == e);
            }
            assert(entry_ids(due@) =~= Set::<u64>::empty());
            assert(self.spec_scheduled() =~= o.spec_scheduled().difference(entry_ids(due@)));
        }
        while i < self.l1.slots[slot].len()
            invariant
                self.wf_loose(),
                self.spec_same_frame(o),
                self.spec_slots(0).len() == o.spec_slots(0).len(),
                self.spec_slots(1).len() == o.spec_slots(1).len(),
                slot < o.spec_slot_count(1),
                ids == o.spec_slot_ids(1, slot as int),
                i <= self.spec_slot(1, slot as int).len(),
                forall|j: int| 0 <= j < i ==> {
                    let e = #[trigger] self.spec_slot(1, slot as int)[j];
                    &&& ids.contains(e.id@)
                    &&& o.spec_task(e.id@).rounds > 0
                    &&& e == one_round_less(o.spec_task(e.id@))
                },
                forall|j: int| i <= j < self.spec_slot(1, slot as int).len() ==> {
                    let e = #[trigger] self.spec_slot(1, slot as int)[j];
                    &&& ids.contains(e.id@)
                    &&& e == o.spec_task(e.id@)
                },
                forall|k: int| 0 <= k < due@.len() ==> {
                    &&& ids.contains((#[trigger] due@[k]).id@)
                    &&& o.spec_task(due@[k].id@) == due@[k]
                    &&& due@[k].rounds == 0
                },
                forall|k1: int, k2: int| 0 <= k1 < k2 < due@.len() ==> (#[trigger] due@[k1]).id@ != (#[trigger] due@[k2]).id@,
                entry_ids(due@).subset_of(ids),
                self.spec_scheduled() == o.spec_scheduled().difference(entry_ids(due@)),
                self.spec_others_same(o, ids),
                forall|n: u64| #[trigger] self.spec_index().contains_key(n) && ids.contains(n) ==> {
                    &&& self.spec_index()[n].level == 1
                    &&& self.spec_index()[n].slot_index == slot
                },
            decreases self.spec_slot(1, slot as int).len() - i,
        {
            let ghost before = *self;
            let ghost due_before = due@;
            proof {
                assert(before.spec_at_home(1, slot as int, i as int));
            }
            let rounds = self.l1.slots[slot][i].rounds;
            if rounds > 0 {
                self.decrement_rounds(slot, i);
                proof {
                    assert forall|n: u64| #[trigger] self.spec_index().contains_key(n) && !ids.contains(n) implies {
                        &&& o.spec_index().contains_key(n)
                        &&& self.spec_task(n) == o.spec_task(n)
                        &&& self.spec_index()[n].level == o.spec_index()[n].level
                        &&& self.spec_index()[n].slot_index == o.spec_index()[n].slot_index
                    } by {
                        let loc = self.spec_index()[n];
                        assert(before.spec_valid_loc(loc));
                        if loc.level == 1 && loc.slot_index == slot {
                            assert(before.spec_at_home(1, slot as int, loc.vec_index as int));
                            assert(ids.contains(before.spec_slot(1, slot as int)[loc.vec_index as int].id@));
                        } else {
                            assert(self.spec_slot(loc.level, loc.slot_index as int) == before.spec_slot(loc.level, loc.slot_index as int));
                        }
                    }
                    assert forall|j: int| 0 <= j < i + 1 implies {
                        let e = #[trigger] self.spec_slot(1, slot as int)[j];
                        &&& ids.contains(e.id@)
                        &&& o.spec_task(e.id@).rounds > 0
                        &&& e == one_round_less(o.spec_task(e.id@))
                    } by {
                        if j < i {
                            assert(self.spec_slot(1, slot as int)[j] == before.spec_slot(1, slot as int)[j]);
                        }
                    }
                    assert forall|j: int| i + 1 <= j < self.spec_slot(1, slot as int).len() implies {
                        let e = #[trigger] self.spec_slot(1, slot as int)[j];
                        &&& ids.contains(e.id@)
                        &&& e == o.spec_task(e.id@)
                    } by {
                        assert(self.spec_slot(1, slot as int)[j] == before.spec_slot(1, slot as int)[j]);
                    }
                }
                i += 1;
            } else {
                let e = self.remove_at(1, slot, i);
                proof {
                    assert(!entry_ids(due_before).contains(e.id@));
                }
                due.push(e);
                proof {
                    assert(entry_ids(due@) =~= entry_ids(due_before).insert(e.id@)) by {
                        assert forall|n: u64| entry_ids(due@).contains(n) implies entry_ids(due_before).insert(e.id@).contains(n) by {
                            let k = choose|k: int| 0 <= k < due@.len() && (#[trigger] due@[k]).id@ == n;
                            if k < due_before.len() {
                                assert(due_before[k] == due@[k]);
                            }
                        }
                        assert forall|n: u64| entry_ids(due_before).insert(e.id@).contains(n) implies entry_ids(due@).contains(n) by {
                            if n == e.id@ {
                                assert(due@[due_before.len() as int] == e);
                            } else {
                                let k = choose|k: int| 0 <= k < due_before.len() && (#[trigger] due_before[k]).id@ == n;
                                assert(due@[k] == due_before[k]);
                            }
                        }
                    }
                    assert(self.spec_scheduled() =~= o.spec_scheduled().difference(entry_ids(due@)));
                    assert forall|n: u64| #[trigger] self.spec_index().contains_key(n) && !ids.contains(n) implies {
                        &&& o.spec_index().contains_key(n)
                        &&& self.spec_task(n) == o.spec_task(n)
                        &&& self.spec_index()[n].level == o.spec_index()[n].level
                        &&& self.spec_index()[n].slot_index == o.spec_index()[n].slot_index
                    } by {
                        assert(before.spec_index().contains_key(n));
                    }
                    assert forall|n: u64| #[trigger] self.spec_index().contains_key(n) && ids.contains(n) implies {
                        &&& self.spec_index()[n].level == 1
                        &&& self.spec_index()[n].slot_index == slot
                    } by {
                        assert(before.spec_index().contains_key(n));
                    }
                    let bs = before.spec_slot(1, slot as int);
                    assert forall|j: int| 0 <= j < i implies {
                        let e = #[trigger] self.spec_slot(1, slot as int)[j];
                        &&& ids.contains(e.id@)
                        &&& o.spec_task(e.id@).rounds > 0
                        &&& e == one_round_less(o.spec_task(e.id@))
                    } by {
                        assert(self.spec_slot(1, slot as int)[j] == bs[j]);
                    }
                    assert forall|j: int| i <= j < self.spec_slot(1, slot as int).len() implies {
                        let e = #[trigger] self.spec_slot(1, slot as int)[j];
                        &&& ids.contains(e.id@)
                        &&& e == o.spec_task(e.id@)
                    } by {
                        if j == i {
                            assert(self.spec_slot(1, slot as int)[j] == bs[bs.len() - 1]);
                        } else {
                            assert(self.spec_slot(1, slot as int)[j] == bs[j]);
                        }
                    }
                }
            }
        }
        proof {
            assert forall|n: u64| #[trigger] o.spec_slot_ids(1, slot as int).contains(n) implies {
                if o.spec_task(n).rounds > 0 {
                    &&& self.spec_index().contains_key(n)
                    &&& self.spec_index()[n].level == 1
                    &&& self.spec_index()[n].slot_index == slot
                    &&& self.spec_task(n) == one_round_less(o.spec_task(n))
                } else {
                    entry_ids(due@).contains(n)
                }
            } by {
                if !entry_ids(due@).contains(n) {
                    assert(self.spec_index().contains_key(n));
                    let loc = self.spec_index()[n];
                    assert(self.spec_valid_loc(loc));
                    assert(self.spec_at_home(1, slot as int, loc.vec_index as int));
                }
            }
        }
        due
    }
}


proof fn lemma_tick_step(c: int, ratio: int)
    requires
        c >= 0,
        ratio >= 1,
    ensures
        (c + 1) % ratio == 0 ==> (c + 1) / ratio == c / ratio + 1,
        (c + 1) % ratio != 0 ==> (c + 1) / ratio == c / ratio,
        (c / ratio) * ratio <= c,
        ((c + 1) / ratio) * ratio <= c + 1,
{
    assert(((c + 1) / ratio) * ratio <= c + 1) by (nonlinear_arith)
        requires
            c >= 0,
            ratio >= 1,
    ;
    assert((c / ratio) * ratio <= c) by (nonlinear_arith)
        requires
            c >= 0,
            ratio >= 1,
    ;
    assert((c + 1) % ratio == 0 ==> (c + 1) / ratio == c / ratio + 1) by (nonlinear_arith)
        requires
            c >= 0,
            ratio >= 1,
    ;
    assert((c + 1) % ratio != 0 ==> (c + 1) / ratio == c / ratio) by (nonlinear_arith)
        requires
            c >= 0,
            ratio >= 1,
    ;
}

impl<C> Wheel<C> {
    /// Moves tasks that came due in L1 to L0: a task due at L1 tick `d` goes to
    /// L0 tick `d * ratio` if that is still ahead, else to the next L0 tick.
    fn demote_tasks(&mut self, tasks: Vec<WheelEntry<C>>)
        requires
            old(self).wf_loose(),
            forall|k: int| 0 <= k < tasks@.len() ==> {
                &&& !old(self).spec_scheduled().contains((#[trigger] tasks@[k]).id@)
                &&& tasks@[k].id@ < old(self).spec_next_id()
                &&& old(self).spec_entry_ok(1, tasks@[k])
            },
            forall|k1: int, k2: int| 0 <= k1 < k2 < tasks@.len() ==> (#[trigger] tasks@[k1]).id@ != (#[trigger] tasks@[k2]).id@,
        ensures
            final(self).wf_loose(),
            final(self).spec_same_frame(*old(self)),
            final(self).spec_slots(0).len() == old(self).spec_slots(0).len(),
            final(self).spec_slots(1).len() == old(self).spec_slots(1).len(),
            final(self).spec_scheduled() == old(self).spec_scheduled().union(entry_ids(tasks@)),
            forall|i: u64| #[trigger] old(self).spec_index().contains_key(i) ==> {
                &&& final(self).spec_task(i) == old(self).spec_task(i)
                &&& final(self).spec_index()[i] == old(self).spec_index()[i]
            },
            forall|k: int| 0 <= k < tasks@.len() ==> {
                &&& final(self).spec_task((#[trigger] tasks@[k]).id@) == tasks@[k]
                &&& final(self).spec_index()[tasks@[k].id@].level == 0
                &&& final(self).spec_index()[tasks@[k].id@].slot_index == old(self).spec_demote_slot(tasks@[k])
            },
    {
        let ghost o = *old(self);
        let ghost all = tasks@;
        let mut rem = reversed(tasks);
        let ghost mut done: Seq<WheelEntry<C>> = Seq::empty();
        while rem.len() > 0
            invariant
                self.wf_loose(),
                self.spec_same_frame(o),
                self.spec_slots(0).len() == o.spec_slots(0).len(),
                self.spec_slots(1).len() == o.spec_slots(1).len(),
                all == done + rem@.reverse(),
                forall|k: int| 0 <= k < all.len() ==> {
                    &&& !o.spec_scheduled().contains((#[trigger] all[k]).id@)
                    &&& all[k].id@ < o.spec_next_id()
                    &&& o.spec_entry_ok(1, all[k])
                },
                forall|k1: int, k2: int| 0 <= k1 < k2 < all.len() ==> (#[trigger] all[k1]).id@ != (#[trigger] all[k2]).id@,
                self.spec_scheduled() == o.spec_scheduled().union(entry_ids(done)),
                forall|i: u64| #[trigger] o.spec_index().contains_key(i) ==> {
                    &&& self.spec_task(i) == o.spec_task(i)
                    &&& self.spec_index()[i] == o.spec_index()[i]
                },
                forall|k: int| 0 <= k < done.len() ==> {
                    &&& self.spec_task((#[trigger] done[k]).id@) == done[k]
                    &&& self.spec_index()[done[k].id@].level == 0
                    &&& self.spec_index()[done[k].id@].slot_index == o.spec_demote_slot(done[k])
                },
            decreases rem@.len(),
        {
            let ghost before = *self;
            let ghost rem_before = rem@;
            let task = rem.pop().unwrap();
            proof {
                assert(rem_before.reverse() =~= seq![task] + rem@.reverse());
                assert(all =~= done.push(task) + rem@.reverse());
                assert(all[done.len() as int] == task);
                assert(!entry_ids(done).contains(task.id@)) by {
                    if entry_ids(done).contains(task.id@) {
                        let k = choose|k: int| 0 <= k < done.len() && (#[trigger] done[k]).id@ == task.id@;
                        assert(all[k] == done[k]);
                    }
                }
            }
            let l1_tick_ratio = self.l1_tick_ratio;
            let l0_deadline_tick = task.deadline_tick * l1_tick_ratio;
            let l0_current_tick = self.l0.current_tick;
            let remaining_l0_ticks = if l0_deadline_tick > l0_current_tick {
                l0_deadline_tick - l0_current_tick
            } else {
                1
            };
            let target_l0_tick = l0_current_tick + remaining_l0_ticks;
            let l0_slot_index = slot_for(target_l0_tick, self.l0.slot_mask);
            self.push_entry(0, l0_slot_index, task);
            proof {
                let nd = done.push(task);
                assert(entry_ids(nd) =~= entry_ids(done).insert(task.id@)) by {
                    assert forall|n: u64| entry_ids(nd).contains(n) implies entry_ids(done).insert(task.id@).contains(n) by {
                        let k = choose|k: int| 0 <= k < nd.len() && (#[trigger] nd[k]).id@ == n;
                        if k < done.len() {
                            assert(nd[k] == done[k]);
                        }
                    }
                    assert forall|n: u64| entry_ids(done).insert(task.id@).contains(n) implies entry_ids(nd).contains(n) by {
                        if n == task.id@ {
                            assert(nd[done.len() as int] == task);
                        } else {
                            let k = choose|k: int| 0 <= k < done.len() && (#[trigger] done[k]).id@ == n;
                            assert(nd[k] == done[k]);
                        }
                    }
                }
                assert(self.spec_scheduled() =~= o.spec_scheduled().union(entry_ids(nd)));
                assert forall|k: int| 0 <= k < nd.len() implies {
                    &&& self.spec_task((#[trigger] nd[k]).id@) == nd[k]
                    &&& self.spec_index()[nd[k].id@].level == 0
                    &&& self.spec_index()[nd[k].id@].slot_index == o.spec_demote_slot(nd[k])
                } by {
                    if k < done.len() {
                        assert(nd[k] == done[k]);
                        assert(before.spec_index().contains_key(done[k].id@));
                    }
                }
                assert forall|i: u64| #[trigger] o.spec_index().contains_key(i) implies {
                    &&& self.spec_task(i) == o.spec_task(i)
                    &&& self.spec_index()[i] == o.spec_index()[i]
                } by {
                    assert(before.spec_index().contains_key(i));
                }
                done = nd;
            }
        }
        proof {
            assert(done =~= all);
        }
    }
}

impl<C: Clone> Wheel<C> {
    /// Schedules fired periodic tasks again, one interval from now, under the
    /// same numbers.
    fn reschedule_periodic(&mut self, list: Vec<(TaskId, TaskType, Duration, Option<C>)>)
        requires
            old(self).wf_loose(),
            forall|k: int| 0 <= k < list@.len() ==> {
                &&& !old(self).spec_scheduled().contains((#[trigger] list@[k]).0@)
                &&& list@[k].0@ < old(self).spec_next_id()
                &&& nanos_of(list@[k].2) <= MAX_SPAN_NS
                &&& list@[k].2 == interval_of(list@[k].1)
                &&& list@[k].1 is Periodic
            },
            forall|k1: int, k2: int| 0 <= k1 < k2 < list@.len() ==> (#[trigger] list@[k1]).0@ != (#[trigger] list@[k2]).0@,
        ensures
            final(self).wf_loose(),
            final(self).spec_same_frame(*old(self)),
            final(self).spec_slots(0).len() == old(self).spec_slots(0).len(),
            final(self).spec_slots(1).len() == old(self).spec_slots(1).len(),
            forall|n: u64| #[trigger] final(self).spec_scheduled().contains(n) <==> (old(self).spec_scheduled().contains(n)
                || exists|k: int| 0 <= k < list@.len() && (#[trigger] list@[k]).0@ == n),
            forall|i: u64| #[trigger] old(self).spec_index().contains_key(i) ==> {
                &&& final(self).spec_task(i) == old(self).spec_task(i)
                &&& final(self).spec_index()[i] == old(self).spec_index()[i]
            },
            forall|k: int| 0 <= k < list@.len() ==> {
                &&& final(self).spec_task((#[trigger] list@[k]).0@) == old(self).spec_scheduled_entry(
                    list@[k].0,
                    list@[k].1,
                    list@[k].2,
                    list@[k].3,
                )
                &&& final(self).spec_index()[list@[k].0@].level == old(self).spec_target(nanos_of(list@[k].2)).0
                &&& final(self).spec_index()[list@[k].0@].slot_index == old(self).spec_target(nanos_of(list@[k].2)).3
            },
    {
        let ghost o = *old(self);
        let ghost all = list@;
        let mut rem = reversed(list);
        let ghost mut n_done: int = 0;
        while rem.len() > 0
            invariant
                self.wf_loose(),
                self.spec_same_frame(o),
                self.spec_slots(0).len() == o.spec_slots(0).len(),
                self.spec_slots(1).len() == o.spec_slots(1).len(),
                0 <= n_done <= all.len(),
                rem@.reverse() == all.subrange(n_done, all.len() as int),
                forall|k: int| 0 <= k < all.len() ==> {
                    &&& !o.spec_scheduled().contains((#[trigger] all[k]).0@)
                    &&& all[k].0@ < o.spec_next_id()
                    &&& nanos_of(all[k].2) <= MAX_SPAN_NS
                    &&& all[k].2 == interval_of(all[k].1)
                    &&& all[k].1 is Periodic
                },
                forall|k1: int, k2: int| 0 <= k1 < k2 < all.len() ==> (#[trigger] all[k1]).0@ != (#[trigger] all[k2]).0@,
                forall|n: u64| #[trigger] self.spec_scheduled().contains(n) <==> (o.spec_scheduled().contains(n)
                    || exists|k: int| 0 <= k < n_done && (#[trigger] all[k]).0@ == n),
                forall|i: u64| #[trigger] o.spec_index().contains_key(i) ==> {
                    &&& self.spec_task(i) == o.spec_task(i)
                    &&& self.spec_index()[i] == o.spec_index()[i]
                },
                forall|k: int| 0 <= k < n_done ==> {
                    &&& self.spec_task((#[trigger] all[k]).0@) == o.spec_scheduled_entry(
                        all[k].0,
                        all[k].1,
                        all[k].2,
                        all[k].3,
                    )
                    &&& self.spec_index()[all[k].0@].level == o.spec_target(nanos_of(all[k].2)).0
                    &&& self.spec_index()[all[k].0@].slot_index == o.spec_target(nanos_of(all[k].2)).3
                },
            decreases rem@.len(),
        {
            let ghost before = *self;
            let ghost rem_before = rem@;
            let (id, task_type, interval, callback) = rem.pop().unwrap();
            proof {
                assert(rem_before.reverse() =~= seq![(id, task_type, interval, callback)] + rem@.reverse());
                assert(all[n_done] == (id, task_type, interval, callback)) by {
                    assert(all.subrange(n_done, all.len() as int)[0] == all[n_done]);
                }
                assert(all.subrange(n_done + 1, all.len() as int) =~= all.subrange(n_done, all.len() as int).drop_first());
                assert((seq![(id, task_type, interval, callback)] + rem@.reverse()).drop_first() =~= rem@.reverse());
                assert(rem@.reverse() =~= all.subrange(n_done + 1, all.len() as int));
                assert(!self.spec_scheduled().contains(id@)) by {
                    if self.spec_scheduled().contains(id@) {
                        let k = choose|k: int| 0 <= k < n_done && (#[trigger] all[k]).0@ == id@;
                    }
                }
            }
            proof {
                assert(before.spec_target(nanos_of(interval)) == o.spec_target(nanos_of(interval)));
            }
            self.schedule(id, task_type, interval, callback);
            proof {
                assert forall|n: u64| #[trigger] self.spec_scheduled().contains(n) <==> (o.spec_scheduled().contains(n)
                    || exists|k: int| 0 <= k < n_done + 1 && (#[trigger] all[k]).0@ == n) by {
                    if n == id@ {
                        assert(all[n_done].0@ == n);
                    }
                }
                assert forall|k: int| 0 <= k < n_done + 1 implies {
                    &&& self.spec_task((#[trigger] all[k]).0@) == o.spec_scheduled_entry(
                        all[k].0,
                        all[k].1,
                        all[k].2,
                        all[k].3,
                    )
                    &&& self.spec_index()[all[k].0@].level == o.spec_target(nanos_of(all[k].2)).0
                    &&& self.spec_index()[all[k].0@].slot_index == o.spec_target(nanos_of(all[k].2)).3
                } by {
                    if k < n_done {
                        assert(before.spec_index().contains_key(all[k].0@));
                    }
                }
                assert forall|i: u64| #[trigger] o.spec_index().contains_key(i) implies {
                    &&& self.spec_task(i) == o.spec_task(i)
                    &&& self.spec_index()[i] == o.spec_index()[i]
                } by {
                    assert(before.spec_index().contains_key(i));
                }
                n_done = n_done + 1;
            }
        }
    }
}


impl<C> Wheel<C> {
    /// The L0 slot that the next advance fires.
    pub open spec fn spec_fired_slot(self) -> int {
        (self.spec_current(0) + 1) % (self.spec_slot_count(0) as int)
    }

    /// The next advance also moves L1 one tick.
    pub open spec fn spec_crosses(self) -> bool {
        (self.spec_current(0) + 1) % (self.spec_ratio() as int) == 0
    }

    /// The L1 slot that the next advance sweeps, when it crosses.
    pub open spec fn spec_swept_slot(self) -> int {
        (self.spec_current(1) + 1) % (self.spec_slot_count(1) as int)
    }

    /// Layer, deadline, rounds and slot that a task fired by the next advance
    /// gets when it is scheduled again `delay_ns` on: as `spec_target`, from the
    /// L0 counter one tick on and the L1 counter as it is before that advance
    /// moves it.
    pub open spec fn spec_next_target(self, delay_ns: u64) -> (u8, u64, u32, usize) {
        let (level, ticks, rounds) = self.spec_layer_for(delay_ns);
        let cur = if level == 0 {
            self.spec_current(0) + 1
        } else {
            self.spec_current(1) as int
        };
        let deadline = (cur + ticks) as u64;
        (level, deadline, rounds, (deadline as int % self.spec_slot_count(level) as int) as usize)
    }

    /// The tasks of the L1 slot that the next advance sweeps (none when it
    /// does not cross).
    pub open spec fn spec_swept_ids(self) -> Set<u64> {
        if self.spec_crosses() {
            self.spec_slot_ids(1, self.spec_swept_slot())
        } else {
            Set::empty()
        }
    }
}

impl<C> Wheel<C> {
    /// `self` is `old` after `advance` returned `expired`: the L0 counter moved
    /// one tick (and L1's with it when it crosses a multiple of the ratio); the
    /// tasks of the fired L0 slot are returned, in `fired_order`, periodic ones
    /// scheduled again one interval on, one-shot ones gone; tasks of the swept
    /// L1 slot lose a round or move down to L0; every other task is where and
    /// as it was, and no task is added.
    pub open spec fn spec_advanced(self, old: Self, expired: Seq<WheelEntry<C>>) -> bool {
        &&& self.wf()
        &&& self.spec_current(0) == old.spec_current(0) + 1
        &&& self.spec_current(1) == (old.spec_current(0) + 1) / (old.spec_ratio() as int)
        &&& self.spec_same_params(old)
        &&& self.spec_next_id() == old.spec_next_id()
        &&& expired == fired_order(old.spec_slot(0, old.spec_fired_slot()))
        &&& entry_ids(expired) == old.spec_slot_ids(0, old.spec_fired_slot())
        &&& forall|i: int, j: int| 0 <= i < j < expired.len() ==> (#[trigger] expired[i]).id@ != (#[trigger] expired[j]).id@
        &&& forall|i: int| 0 <= i < expired.len() ==> old.spec_task((#[trigger] expired[i]).id@) == expired[i]
        &&& forall|n: u64| #[trigger] old.spec_slot_ids(0, old.spec_fired_slot()).contains(n) ==> {
            &&& self.spec_scheduled().contains(n) == (old.spec_task(n).task_type is Periodic)
            &&& (old.spec_task(n).task_type is Periodic ==> {
                let tg = old.spec_next_target(nanos_of(interval_of(old.spec_task(n).task_type)));
                &&& self.spec_task(n).id@ == n
                &&& self.spec_task(n).task_type == old.spec_task(n).task_type
                &&& self.spec_task(n).delay == interval_of(old.spec_task(n).task_type)
                &&& self.spec_task(n).deadline_tick == tg.1
                &&& if !(tg.0 == 1 && old.spec_crosses() && tg.3 == old.spec_swept_slot()) {
                    &&& self.spec_index()[n].level == tg.0
                    &&& self.spec_index()[n].slot_index == tg.3
                    &&& self.spec_task(n).rounds == tg.2
                } else if tg.2 > 0 {
                    &&& self.spec_index()[n].level == 1
                    &&& self.spec_index()[n].slot_index == tg.3
                    &&& self.spec_task(n).rounds == tg.2 - 1
                } else {
                    &&& self.spec_index()[n].level == 0
                    &&& self.spec_index()[n].slot_index == self.spec_demote_slot(self.spec_task(n))
                    &&& self.spec_task(n).rounds == 0
                }
            })
        }
        &&& forall|n: u64| #[trigger] old.spec_swept_ids().contains(n) ==> {
            &&& self.spec_scheduled().contains(n)
            &&& if old.spec_task(n).rounds > 0 {
                &&& self.spec_task(n) == one_round_less(old.spec_task(n))
                &&& self.spec_index()[n].level == 1
                &&& self.spec_index()[n].slot_index == old.spec_index()[n].slot_index
            } else {
                &&& self.spec_task(n) == old.spec_task(n)
                &&& self.spec_index()[n].level == 0
                &&& self.spec_index()[n].slot_index == self.spec_demote_slot(old.spec_task(n))
            }
        }
        &&& forall|n: u64| #[trigger] old.spec_scheduled().contains(n)
            && !old.spec_slot_ids(0, old.spec_fired_slot()).contains(n)
            && !old.spec_swept_ids().contains(n) ==> {
            &&& self.spec_scheduled().contains(n)
            &&& self.spec_task(n) == old.spec_task(n)
            &&& self.spec_index()[n].level == old.spec_index()[n].level
            &&& self.spec_index()[n].slot_index == old.spec_index()[n].slot_index
        }
        &&& forall|n: u64| #[trigger] self.spec_scheduled().contains(n) ==> old.spec_scheduled().contains(n)
    }
}

impl<C: Clone> Wheel<C> {
    /// Advances the wheel by one L0 tick. Every task of the L0 slot of the new
    /// tick fires and is returned; periodic ones are scheduled again, one
    /// interval from now, under the same number and with a clone of their
    /// callback, one-shot ones are gone. When
    /// the L0 counter reaches a multiple of the tick ratio, L1 moves one tick:
    /// in the L1 slot of its new tick, tasks with rounds left lose one and stay,
    /// the others move down to L0. Nothing else changes.
    #[verifier::rlimit(80)]
    #[verifier::spinoff_prover]
    pub fn advance(&mut self) -> (expired: Vec<WheelEntry<C>>)
        requires
            old(self).wf(),
            old(self).spec_current(0) < MAX_TICK,
        ensures
            final(self).spec_advanced(*old(self), expired@),
            forall|n: u64| #[trigger] old(self).spec_slot_ids(0, old(self).spec_fired_slot()).contains(n)
                && old(self).spec_task(n).task_type is Periodic ==> callback_cloned(
                old(self).spec_task(n).callback,
                final(self).spec_task(n).callback,
            ),
    {
        let ghost o = *old(self);
        proof {
            lemma_tick_step(self.l0.current_tick as int, self.l1_tick_ratio as int);
        }
        self.l0.current_tick = self.l0.current_tick + 1;
        proof {
            assert forall|l: u8, s: int, j: int|
                l <= 1 && 0 <= s < self.spec_slots(l).len() && 0 <= j < self.spec_slot(l, s).len()
                implies #[trigger] self.spec_at_home(l, s, j) by {
                assert(o.spec_at_home(l, s, j));
            }
            assert forall|i: u64| #[trigger] self.task_index@.contains_key(i) implies {
                &&& self.spec_valid_loc(self.task_index@[i])
                &&& self.spec_entry_at(self.task_index@[i]).id@ == i
                &&& i < self.next_task_id
            } by {
                assert(o.task_index@.contains_key(i));
            }
        }
        let l0_slot_index = slot_for(self.l0.current_tick, self.l0.slot_mask);
        let ghost s0 = *self;
        proof {
            assert(forall|n: u64| s0.spec_index().contains_key(n) ==> s0.spec_task(n) == o.spec_task(n));
            assert(s0.spec_slot_ids(0, l0_slot_index as int) =~= o.spec_slot_ids(0, o.spec_fired_slot()));
        }
        let (expired, periodic) = self.fire_l0_slot(l0_slot_index);
        let ghost s1 = *self;
        self.reschedule_periodic(periodic);
        let ghost s2 = *self;
        let ghost mut swept: Set<u64> = Set::empty();
        let ghost mut l1slot: int = 0;
        proof {
            // fired tasks and the periodic ones among them, up to the L1 step
            assert forall|n: u64| #[trigger] o.spec_slot_ids(0, o.spec_fired_slot()).contains(n) implies {
                &&& s2.spec_scheduled().contains(n) == (o.spec_task(n).task_type is Periodic)
                &&& (o.spec_task(n).task_type is Periodic ==> {
                    let tg = o.spec_next_target(nanos_of(interval_of(o.spec_task(n).task_type)));
                    &&& s2.spec_task(n).id@ == n
                    &&& s2.spec_task(n).task_type == o.spec_task(n).task_type
                    &&& s2.spec_task(n).delay == interval_of(o.spec_task(n).task_type)
                    &&& s2.spec_index()[n].level == tg.0
                    &&& s2.spec_index()[n].slot_index == tg.3
                    &&& s2.spec_task(n).deadline_tick == tg.1
                    &&& s2.spec_task(n).rounds == tg.2
                    &&& callback_cloned(o.spec_task(n).callback, s2.spec_task(n).callback)
                })
            } by {
                assert(entry_ids(expired@).contains(n));
                let i = choose|i: int| 0 <= i < expired@.len() && (#[trigger] expired@[i]).id@ == n;
                assert(s0.spec_task(n) == expired@[i]);
                assert(o.spec_task(n) == expired@[i]);
                assert(!s1.spec_scheduled().contains(n));
                if o.spec_task(n).task_type is Periodic {
                    let k = choose|k: int| 0 <= k < periodic@.len() && (#[trigger] periodic@[k]).0@ == expired@[i].id@;
                    assert(s2.spec_scheduled().contains(n));
                    let span = nanos_of(periodic@[k].2);
                    assert(s1.spec_target(span) == o.spec_next_target(span));
                } else {
                    if s2.spec_scheduled().contains(n) {
                        let k = choose|k: int| 0 <= k < periodic@.len() && (#[trigger] periodic@[k]).0@ == n;
                        assert(o.spec_task(periodic@[k].0@).task_type == periodic@[k].1);
                        assert(false);
                    }
                }
            }
            // tasks that were not fired keep their place and content up to the L1 step
            assert forall|n: u64| #[trigger] o.spec_scheduled().contains(n)
                && !o.spec_slot_ids(0, o.spec_fired_slot()).contains(n) implies {
                &&& s2.spec_scheduled().contains(n)
                &&& s2.spec_task(n) == o.spec_task(n)
                &&& s2.spec_index()[n].level == o.spec_index()[n].level
                &&& s2.spec_index()[n].slot_index == o.spec_index()[n].slot_index
            } by {
                assert(s0.spec_index().contains_key(n));
                assert(s1.spec_index().contains_key(n));
            }
            assert forall|n: u64| #[trigger] s2.spec_scheduled().contains(n) implies o.spec_scheduled().contains(n) by {
                if !o.spec_scheduled().contains(n) {
                    assert(!s1.spec_scheduled().contains(n));
                    let k = choose|k: int| 0 <= k < periodic@.len() && (#[trigger] periodic@[k]).0@ == n;
                }
            }
        }
        if self.l0.current_tick % self.l1_tick_ratio == 0 {
            self.l1.current_tick = self.l1.current_tick + 1;
            proof {
                assert forall|l: u8, s: int, j: int|
                    l <= 1 && 0 <= s < self.spec_slots(l).len() && 0 <= j < self.spec_slot(l, s).len()
                    implies #[trigger] self.spec_at_home(l, s, j) by {
                    assert(s2.spec_at_home(l, s, j));
                }
                assert forall|i: u64| #[trigger] self.task_index@.contains_key(i) implies {
                    &&& self.spec_valid_loc(self.task_index@[i])
                    &&& self.spec_entry_at(self.task_index@[i]).id@ == i
                    &&& i < self.next_task_id
                } by {
                    assert(s2.task_index@.contains_key(i));
                }
            }
            let l1_slot_index = slot_for(self.l1.current_tick, self.l1.slot_mask);
            let ghost s3 = *self;
            proof {
                swept = s3.spec_slot_ids(1, l1_slot_index as int);
                l1slot = l1_slot_index as int;
                assert(forall|n: u64| s3.spec_index().contains_key(n) ==> s3.spec_task(n) == s2.spec_task(n));
            }
            let due = self.sweep_l1_slot(l1_slot_index);
            let ghost s4 = *self;
            proof {
                assert forall|k: int| 0 <= k < due@.len() implies {
                    &&& !self.spec_scheduled().contains((#[trigger] due@[k]).id@)
                    &&& due@[k].id@ < self.spec_next_id()
                    &&& self.spec_entry_ok(1, due@[k])
                } by {
                    let n = due@[k].id@;
                    assert(s3.spec_index().contains_key(n));
                    let loc = s3.spec_index()[n];
                    assert(s3.spec_valid_loc(loc));
                    assert(s3.spec_at_home(loc.level, loc.slot_index as int, loc.vec_index as int));
                    assert(entry_ids(due@).contains(n)) by {
                        assert(due@[k].id@ == n);
                    }
                }
            }
            self.demote_tasks(due);
            proof {
                assert(self.spec_scheduled() =~= s2.spec_scheduled());
                assert forall|n: u64| #[trigger] s2.spec_scheduled().contains(n) && !swept.contains(n) implies {
                    &&& self.spec_task(n) == s2.spec_task(n)
                    &&& self.spec_index()[n].level == s2.spec_index()[n].level
                    &&& self.spec_index()[n].slot_index == s2.spec_index()[n].slot_index
                } by {
                    assert(s3.spec_index().contains_key(n));
                    assert(!entry_ids(due@).contains(n));
                    assert(s4.spec_index().contains_key(n));
                }
                assert forall|n: u64| #[trigger] swept.contains(n) implies {
                    &&& self.spec_scheduled().contains(n)
                    &&& if s2.spec_task(n).rounds > 0 {
                        &&& self.spec_task(n) == one_round_less(s2.spec_task(n))
                        &&& self.spec_index()[n].level == 1
                        &&& self.spec_index()[n].slot_index == l1slot
                    } else {
                        &&& self.spec_task(n) == s2.spec_task(n)
                        &&& self.spec_index()[n].level == 0
                        &&& self.spec_index()[n].slot_index == self.spec_demote_slot(s2.spec_task(n))
                    }
                } by {
                    assert(s3.spec_index().contains_key(n));
                    if s2.spec_task(n).rounds > 0 {
                        assert(s4.spec_index().contains_key(n));
                    } else {
                        assert(entry_ids(due@).contains(n));
                        let k = choose|k: int| 0 <= k < due@.len() && (#[trigger] due@[k]).id@ == n;
                    }
                }
            }
        }
        proof {
            lemma_tick_step(o.l0.current_tick as int, o.l1_tick_ratio as int);
            assert(self.spec_scheduled() =~= s2.spec_scheduled());
            if o.spec_crosses() {
                assert(l1slot == o.spec_swept_slot());
            } else {
                assert(swept =~= Set::<u64>::empty());
                assert(o.spec_swept_ids() =~= Set::<u64>::empty());
            }
            assert forall|n: u64| #[trigger] o.spec_scheduled().contains(n)
                && !o.spec_slot_ids(0, o.spec_fired_slot()).contains(n) implies
                (swept.contains(n) == o.spec_swept_ids().contains(n)) by {
                if o.spec_crosses() {
                    assert(s2.spec_index().contains_key(n));
                }
            }
            assert forall|n: u64| #[trigger] o.spec_slot_ids(0, o.spec_fired_slot()).contains(n) implies {
                &&& self.spec_scheduled().contains(n) == (o.spec_task(n).task_type is Periodic)
                &&& (o.spec_task(n).task_type is Periodic ==> {
                    &&& self.spec_task(n).id@ == n
                    &&& self.spec_task(n).task_type == o.spec_task(n).task_type
                    &&& self.spec_task(n).delay == interval_of(o.spec_task(n).task_type)
                })
            } by {
                if o.spec_task(n).task_type is Periodic {
                    assert(s2.spec_scheduled().contains(n));
                    if swept.contains(n) {
                    } else {
                    }
                }
            }
            assert forall|n: u64| #[trigger] o.spec_swept_ids().contains(n) implies {
                &&& self.spec_scheduled().contains(n)
                &&& if o.spec_task(n).rounds > 0 {
                    &&& self.spec_task(n) == one_round_less(o.spec_task(n))
                    &&& self.spec_index()[n].level == 1
                    &&& self.spec_index()[n].slot_index == o.spec_index()[n].slot_index
                } else {
                    &&& self.spec_task(n) == o.spec_task(n)
                    &&& self.spec_index()[n].level == 0
                    &&& self.spec_index()[n].slot_index == self.spec_demote_slot(o.spec_task(n))
                }
            } by {
                assert(o.spec_scheduled().contains(n));
                assert(!o.spec_slot_ids(0, o.spec_fired_slot()).contains(n));
                assert(swept.contains(n));
            }
            assert forall|n: u64| #[trigger] o.spec_scheduled().contains(n)
                && !o.spec_slot_ids(0, o.spec_fired_slot()).contains(n)
                && !o.spec_swept_ids().contains(n) implies {
                &&& self.spec_scheduled().contains(n)
                &&& self.spec_task(n) == o.spec_task(n)
                &&& self.spec_index()[n].level == o.spec_index()[n].level
                &&& self.spec_index()[n].slot_index == o.spec_index()[n].slot_index
            } by {
                assert(!swept.contains(n));
            }
            assert forall|n: u64| #[trigger] o.spec_slot_ids(0, o.spec_fired_slot()).contains(n)
                && o.spec_task(n).task_type is Periodic implies {
                let tg = o.spec_next_target(nanos_of(interval_of(o.spec_task(n).task_type)));
                &&& self.spec_task(n).deadline_tick == tg.1
                &&& if !(tg.0 == 1 && o.spec_crosses() && tg.3 == o.spec_swept_slot()) {
                    &&& self.spec_index()[n].level == tg.0
                    &&& self.spec_index()[n].slot_index == tg.3
                    &&& self.spec_task(n).rounds == tg.2
                } else if tg.2 > 0 {
                    &&& self.spec_index()[n].level == 1
                    &&& self.spec_index()[n].slot_index == tg.3
                    &&& self.spec_task(n).rounds == tg.2 - 1
                } else {
                    &&& self.spec_index()[n].level == 0
                    &&& self.spec_index()[n].slot_index == self.spec_demote_slot(self.spec_task(n))
                    &&& self.spec_task(n).rounds == 0
                }
            } by {
                let tg = o.spec_next_target(nanos_of(interval_of(o.spec_task(n).task_type)));
                assert(s2.spec_scheduled().contains(n));
                assert(s2.spec_index()[n].level == tg.0);
                assert(s2.spec_index()[n].slot_index == tg.3);
                assert(s2.spec_task(n).rounds == tg.2);
                if tg.0 == 1 && o.spec_crosses() && tg.3 == o.spec_swept_slot() {
                    assert(swept.contains(n));
                } else {
                    assert(!swept.contains(n));
                }
            }
        }
        expired
    }
}


/// Sorts cancellation candidates by position, lowest first, with
/// `slice::sort_unstable_by_key` keyed on the position. The result is a
/// permutation of the input, ordered by ascending position, as the
/// documentation of the sort promises; it fixes no order among equal positions.
#[verifier::external_body]
fn sort_by_position(v: &mut Vec<(TaskId, usize)>)
    ensures
        final(v)@.to_multiset() == old(v)@.to_multiset(),
        final(v)@.len() == old(v)@.len(),
        forall|i: int, j: int| 0 <= i <= j < final(v)@.len() ==> (#[trigger] final(v)@[i]).1 <= (#[trigger] final(v)@[j]).1,
{
    v.sort_unstable_by_key(|e| e.1);
}

/// Orders cancellation candidates by position, highest first: sorted by
/// ascending position, then reversed.
fn sort_by_position_desc(v: &mut Vec<(TaskId, usize)>)
    ensures
        final(v)@.to_multiset() == old(v)@.to_multiset(),
        final(v)@.len() == old(v)@.len(),
        forall|i: int, j: int| 0 <= i <= j < final(v)@.len() ==> (#[trigger] final(v)@[i]).1 >= (#[trigger] final(v)@[j]).1,
{
    sort_by_position(v);
    let mut ascending: Vec<(TaskId, usize)> = Vec::new();
    std::mem::swap(&mut ascending, v);
    let ghost asc = ascending@;
    *v = reversed(ascending);
    proof {
        asc.lemma_reverse_to_multiset();
        assert forall|i: int, j: int| 0 <= i <= j < v@.len() implies (#[trigger] v@[i]).1 >= (#[trigger] v@[j]).1 by {
            let n = asc.len() as int;
            assert(v@[i] == asc[n - 1 - i]);
            assert(v@[j] == asc[n - 1 - j]);
            assert(asc[n - 1 - j].1 <= asc[n - 1 - i].1);
        }
    }
}

pub(crate) proof fn lemma_count_step(sched: Set<u64>, seen: Set<u64>, x: u64, removed: bool)
    requires
        sched.finite(),
        removed == (sched.contains(x) && !seen.contains(x)),
    ensures
        removed ==> sched.intersect(seen.insert(x)).len() == sched.intersect(seen).len() + 1,
        !removed ==> sched.intersect(seen.insert(x)) == sched.intersect(seen),
        sched.difference(seen.insert(x)) == sched.difference(seen).remove(x),
{
    vstd::set_lib::lemma_len_intersect(sched, seen);
    if removed {
        assert(sched.intersect(seen.insert(x)) =~= sched.intersect(seen).insert(x));
        assert(!sched.intersect(seen).contains(x));
    } else {
        assert(sched.intersect(seen.insert(x)) =~= sched.intersect(seen));
    }
    assert(sched.difference(seen.insert(x)) =~= sched.difference(seen).remove(x));
}

/// The task numbers among a list of candidates.
pub open spec fn cand_ids(cs: Seq<(TaskId, usize)>) -> Set<u64> {
    Set::new(|n: u64| exists|i: int| 0 <= i < cs.len() && (#[trigger] cs[i]).0@ == n)
}

impl<C> Wheel<C> {
    /// Cancels, in the given order, the candidates of one slot that are still
    /// at their recorded position; positions are visited highest first, so a
    /// removal only moves a task that was already looked at.
    fn cancel_candidates(&mut self, level: u8, slot: usize, cands: &Vec<(TaskId, usize)>) -> (count: usize)
        requires
            old(self).wf_loose(),
            level <= 1,
            slot < old(self).spec_slot_count(level),
            forall|i: int, j: int| 0 <= i <= j < cands@.len() ==> (#[trigger] cands@[i]).1 >= (#[trigger] cands@[j]).1,
            forall|i: int| 0 <= i < cands@.len() && old(self).spec_scheduled().contains((#[trigger] cands@[i]).0@) ==>
                old(self).spec_index()[cands@[i].0@] == (TaskLocation { level, slot_index: slot, vec_index: cands@[i].1 }),
        ensures
            final(self).wf_loose(),
            final(self).spec_same_frame(*old(self)),
            final(self).spec_slots(0).len() == old(self).spec_slots(0).len(),
            final(self).spec_slots(1).len() == old(self).spec_slots(1).len(),
            final(self).spec_scheduled() == old(self).spec_scheduled().difference(cand_ids(cands@)),
            count == old(self).spec_scheduled().intersect(cand_ids(cands@)).len(),
            count <= cands@.len(),
            final(self).spec_others_same(*old(self), cand_ids(cands@)),
            forall|i: u64| #[trigger] old(self).spec_index().contains_key(i) && !(old(self).spec_index()[i].level == level
                && old(self).spec_index()[i].slot_index == slot) ==> final(self).spec_index().contains_key(i)
                && final(self).spec_index()[i] == old(self).spec_index()[i],
    {
        let ghost o = *old(self);
        let mut count: usize = 0;
        let mut k: usize = 0;
        proof {
            assert(cand_ids(cands@.take(0)) =~= Set::<u64>::empty());
            assert(o.spec_scheduled().intersect(Set::<u64>::empty()) =~= Set::<u64>::empty());
            assert(o.spec_scheduled().difference(Set::<u64>::empty()) =~= o.spec_scheduled());
        }
        while k < cands.len()
            invariant
                self.wf_loose(),
                self.spec_same_frame(o),
                self.spec_slots(0).len() == o.spec_slots(0).len(),
                self.spec_slots(1).len() == o.spec_slots(1).len(),
                level <= 1,
                slot < o.spec_slot_count(level),
                k <= cands@.len(),
                count <= k,
                o.spec_scheduled().finite(),
                forall|i: int, j: int| 0 <= i <= j < cands@.len() ==> (#[trigger] cands@[i]).1 >= (#[trigger] cands@[j]).1,
                forall|j: int| k <= j < cands@.len() && self.spec_scheduled().contains((#[trigger] cands@[j]).0@) ==>
                    self.spec_index()[cands@[j].0@] == (TaskLocation { level, slot_index: slot, vec_index: cands@[j].1 }),
                self.spec_scheduled() == o.spec_scheduled().difference(cand_ids(cands@.take(k as int))),
                count == o.spec_scheduled().intersect(cand_ids(cands@.take(k as int))).len(),
                self.spec_others_same(o, cand_ids(cands@.take(k as int))),
                forall|i: u64| #[trigger] o.spec_index().contains_key(i) && !(o.spec_index()[i].level == level
                    && o.spec_index()[i].slot_index == slot) ==> self.spec_index().contains_key(i)
                    && self.spec_index()[i] == o.spec_index()[i],
            decreases cands@.len() - k,
        {
            let ghost before = *self;
            let (task_id, vec_index) = cands[k];
            let ghost seen = cand_ids(cands@.take(k as int));
            proof {
                assert(cand_ids(cands@.take(k + 1)) =~= seen.insert(task_id@)) by {
                    assert forall|n: u64| cand_ids(cands@.take(k + 1)).contains(n) implies seen.insert(task_id@).contains(n) by {
                        let i = choose|i: int| 0 <= i < k + 1 && (#[trigger] cands@.take(k + 1)[i]).0@ == n;
                        if i < k {
                            assert(cands@.take(k as int)[i] == cands@.take(k + 1)[i]);
                        }
                    }
                    assert forall|n: u64| seen.insert(task_id@).contains(n) implies cand_ids(cands@.take(k + 1)).contains(n) by {
                        if n == task_id@ {
                            assert(cands@.take(k + 1)[k as int] == cands@[k as int]);
                        } else {
                            let i = choose|i: int| 0 <= i < k && (#[trigger] cands@.take(k as int)[i]).0@ == n;
                            assert(cands@.take(k + 1)[i] == cands@.take(k as int)[i]);
                        }
                    }
                }
            }
            let slot_len = if level == 0 {
                self.l0.slots[slot].len()
            } else {
                self.l1.slots[slot].len()
            };
            let mut removed = false;
            if vec_index < slot_len {
                let found = if level == 0 {
                    self.l0.slots[slot][vec_index].id
                } else {
                    self.l1.slots[slot][vec_index].id
                };
                proof {
                    TaskId::lemma_view_eq(found, task_id);
                    assert(before.spec_at_home(level, slot as int, vec_index as int));
                }
                if found == task_id {
                    let _e = self.remove_at(level, slot, vec_index);
                    count = count + 1;
                    removed = true;
                }
            }
            proof {
                assert(removed == (before.spec_scheduled().contains(task_id@))) by {
                    if before.spec_scheduled().contains(task_id@) {
                        let loc = before.spec_index()[task_id@];
                        assert(before.spec_valid_loc(loc));
                    }
                }
                lemma_count_step(o.spec_scheduled(), seen, task_id@, removed);
                vstd::set_lib::lemma_len_intersect(o.spec_scheduled(), seen.insert(task_id@));
                assert(self.spec_scheduled() =~= o.spec_scheduled().difference(seen.insert(task_id@)));
                if removed {
                    let bs = before.spec_slot(level, slot as int);
                    assert forall|j: int| k + 1 <= j < cands@.len() && self.spec_scheduled().contains((#[trigger] cands@[j]).0@) implies
                        self.spec_index()[cands@[j].0@] == (TaskLocation { level, slot_index: slot, vec_index: cands@[j].1 }) by {
                        let n = cands@[j].0@;
                        assert(before.spec_scheduled().contains(n));
                        assert(n != task_id@);
                        if vec_index + 1 < bs.len() && n == bs.last().id@ {
                            assert(before.spec_at_home(level, slot as int, bs.len() - 1));
                            assert(false);
                        }
                    }
                    assert forall|i: u64| #[trigger] o.spec_index().contains_key(i) && !(o.spec_index()[i].level == level
                        && o.spec_index()[i].slot_index == slot) implies self.spec_index().contains_key(i)
                        && self.spec_index()[i] == o.spec_index()[i] by {
                        assert(before.spec_index().contains_key(i));
                        if vec_index + 1 < bs.len() && i == bs.last().id@ {
                            assert(before.spec_at_home(level, slot as int, bs.len() - 1));
                        }
                    }
                    assert forall|n: u64| #[trigger] self.spec_index().contains_key(n) && !seen.insert(task_id@).contains(n) implies {
                        &&& o.spec_index().contains_key(n)
                        &&& self.spec_task(n) == o.spec_task(n)
                        &&& self.spec_index()[n].level == o.spec_index()[n].level
                        &&& self.spec_index()[n].slot_index == o.spec_index()[n].slot_index
                    } by {
                        assert(before.spec_index().contains_key(n));
                    }
                }
            }
            k += 1;
        }
        proof {
            assert(cands@.take(cands@.len() as int) =~= cands@);
        }
        count
    }
}


/// `n` empty candidate lists.
fn empty_buckets(n: usize) -> (b: Vec<Vec<(TaskId, usize)>>)
    ensures
        b@.len() == n,
        forall|i: int| 0 <= i < n ==> (#[trigger] b@[i])@.len() == 0,
{
    let mut b: Vec<Vec<(TaskId, usize)>> = Vec::with_capacity(n);
    let mut i: usize = 0;
    while i < n
        invariant
            i <= n,
            b@.len() == i,
            forall|k: int| 0 <= k < i ==> (#[trigger] b@[k])@.len() == 0,
        decreases n - i,
    {
        b.push(Vec::new());
        i += 1;
    }
    b
}

proof fn lemma_count_merge(sched: Set<u64>, done: Set<u64>, b: Set<u64>)
    requires
        sched.finite(),
    ensures
        sched.intersect(done.union(b)).len() == sched.intersect(done).len() + sched.difference(done).intersect(b).len(),
        sched.difference(done.union(b)) == sched.difference(done).difference(b),
        sched.intersect(done.union(b)).len() <= sched.len(),
{
    let x = sched.intersect(done);
    let y = sched.difference(done).intersect(b);
    vstd::set_lib::lemma_len_intersect(sched, done);
    vstd::set_lib::lemma_len_intersect(sched, done.union(b));
    assert(y.subset_of(sched));
    vstd::set_lib::lemma_len_subset(y, sched);
    assert(x.disjoint(y));
    vstd::set_lib::lemma_set_disjoint_lens(x, y);
    assert(sched.intersect(done.union(b)) =~= x + y);
    assert(sched.difference(done.union(b)) =~= sched.difference(done).difference(b));
}

/// The task numbers in the first `upto` candidate lists.
pub open spec fn bucket_union(bs: Seq<Vec<(TaskId, usize)>>, upto: int) -> Set<u64> {
    Set::new(|n: u64| exists|t: int| 0 <= t < upto && #[trigger] cand_ids(bs[t]@).contains(n))
}

proof fn lemma_same_cand_ids(a: Seq<(TaskId, usize)>, b: Seq<(TaskId, usize)>)
    requires
        a.to_multiset() == b.to_multiset(),
    ensures
        cand_ids(a) == cand_ids(b),
        forall|i: int| 0 <= i < a.len() ==> b.contains(#[trigger] a[i]),
{
    assert forall|i: int| 0 <= i < a.len() implies b.contains(#[trigger] a[i]) by {
        vstd::seq_lib::to_multiset_contains(a, a[i]);
        vstd::seq_lib::to_multiset_contains(b, a[i]);
        assert(a.contains(a[i]));
    }
    assert forall|n: u64| cand_ids(a).contains(n) implies cand_ids(b).contains(n) by {
        let i = choose|i: int| 0 <= i < a.len() && (#[trigger] a[i]).0@ == n;
        assert(b.contains(a[i]));
        let j = choose|j: int| 0 <= j < b.len() && b[j] == a[i];
        assert(b[j].0@ == n);
    }
    assert forall|n: u64| cand_ids(b).contains(n) implies cand_ids(a).contains(n) by {
        let j = choose|j: int| 0 <= j < b.len() && (#[trigger] b[j]).0@ == n;
        vstd::seq_lib::to_multiset_contains(a, b[j]);
        vstd::seq_lib::to_multiset_contains(b, b[j]);
        assert(b.contains(b[j]));
        let i = choose|i: int| 0 <= i < a.len() && a[i] == b[j];
        assert(a[i].0@ == n);
    }
    assert(cand_ids(a) =~= cand_ids(b));
}

impl<C> Wheel<C> {
    /// Cancels the candidates of every slot of one layer, slot by slot, each
    /// slot's list sorted by position, highest first.
    fn cancel_buckets(&mut self, level: u8, buckets: &mut Vec<Vec<(TaskId, usize)>>) -> (count: usize)
        requires
            old(self).wf(),
            level <= 1,
            old(buckets)@.len() == old(self).spec_slot_count(level),
            old(self).spec_scheduled().len() <= usize::MAX,
            forall|t: int, j: int| 0 <= t < old(buckets)@.len() && 0 <= j < old(buckets)@[t]@.len()
                && old(self).spec_scheduled().contains((#[trigger] old(buckets)@[t]@[j]).0@) ==>
                old(self).spec_index()[old(buckets)@[t]@[j].0@] == (TaskLocation { level, slot_index: t as usize, vec_index: old(buckets)@[t]@[j].1 }),
        ensures
            final(self).wf(),
            final(self).spec_same_frame(*old(self)),
            final(self).spec_slots(0).len() == old(self).spec_slots(0).len(),
            final(self).spec_slots(1).len() == old(self).spec_slots(1).len(),
            final(self).spec_scheduled() == old(self).spec_scheduled().difference(bucket_union(old(buckets)@, old(buckets)@.len() as int)),
            count == old(self).spec_scheduled().intersect(bucket_union(old(buckets)@, old(buckets)@.len() as int)).len(),
            final(self).spec_others_same(*old(self), bucket_union(old(buckets)@, old(buckets)@.len() as int)),
            forall|i: u64| #[trigger] old(self).spec_index().contains_key(i) && old(self).spec_index()[i].level != level ==>
                final(self).spec_index().contains_key(i) && final(self).spec_index()[i] == old(self).spec_index()[i],
    {
        let ghost o = *self;
        let ghost bs = buckets@;
        let mut count: usize = 0;
        let mut s: usize = 0;
        let n_slots = buckets.len();
        proof {
            assert(bucket_union(bs, 0) =~= Set::<u64>::empty());
            assert(o.spec_scheduled().intersect(Set::<u64>::empty()) =~= Set::<u64>::empty());
            assert(o.spec_scheduled().difference(Set::<u64>::empty()) =~= o.spec_scheduled());
        }
        while s < n_slots
            invariant
                self.wf(),
                self.spec_same_frame(o),
                self.spec_slots(0).len() == o.spec_slots(0).len(),
                self.spec_slots(1).len() == o.spec_slots(1).len(),
                level <= 1,
                n_slots == bs.len(),
                bs.len() == o.spec_slot_count(level),
                buckets@.len() == bs.len(),
                s <= n_slots,
                o.spec_scheduled().finite(),
                o.spec_scheduled().len() <= usize::MAX,
                forall|t: int| s <= t < bs.len() ==> #[trigger] buckets@[t] == bs[t],
                forall|t: int, j: int| s <= t < bs.len() && 0 <= j < bs[t]@.len()
                    && self.spec_scheduled().contains((#[trigger] bs[t]@[j]).0@) ==>
                    self.spec_index()[bs[t]@[j].0@] == (TaskLocation { level, slot_index: t as usize, vec_index: bs[t]@[j].1 }),
                self.spec_scheduled() == o.spec_scheduled().difference(bucket_union(bs, s as int)),
                count == o.spec_scheduled().intersect(bucket_union(bs, s as int)).len(),
                self.spec_others_same(o, bucket_union(bs, s as int)),
                forall|i: u64| #[trigger] o.spec_index().contains_key(i) && o.spec_index()[i].level != level ==>
                    self.spec_index().contains_key(i) && self.spec_index()[i] == o.spec_index()[i],
            decreases n_slots - s,
        {
            let ghost before = *self;
            let ghost done = bucket_union(bs, s as int);
            let ghost b = cand_ids(bs[s as int]@);
            proof {
                assert(bucket_union(bs, s + 1) =~= done.union(b)) by {
                    assert forall|n: u64| bucket_union(bs, s + 1).contains(n) implies done.union(b).contains(n) by {
                        let t = choose|t: int| 0 <= t < s + 1 && #[trigger] cand_ids(bs[t]@).contains(n);
                    }
                    assert forall|n: u64| done.union(b).contains(n) implies bucket_union(bs, s + 1).contains(n) by {
                        if b.contains(n) {
                            assert(cand_ids(bs[s as int]@).contains(n));
                        } else {
                            let t = choose|t: int| 0 <= t < s && #[trigger] cand_ids(bs[t]@).contains(n);
                        }
                    }
                }
                lemma_count_merge(o.spec_scheduled(), done, b);
            }
            if buckets[s].len() > 0 {
                sort_by_position_desc(&mut buckets[s]);
                proof {
                    lemma_same_cand_ids(buckets@[s as int]@, bs[s as int]@);
                    assert forall|i: int| 0 <= i < buckets@[s as int]@.len()
                        && self.spec_scheduled().contains((#[trigger] buckets@[s as int]@[i]).0@) implies
                        self.spec_index()[buckets@[s as int]@[i].0@] == (TaskLocation { level, slot_index: s, vec_index: buckets@[s as int]@[i].1 }) by {
                        assert(bs[s as int]@.contains(buckets@[s as int]@[i]));
                        let j = choose|j: int| 0 <= j < bs[s as int]@.len() && bs[s as int]@[j] == buckets@[s as int]@[i];
                    }
                }
                let c = self.cancel_candidates(level, s, &buckets[s]);
                proof {
                    vstd::set_lib::lemma_len_intersect(o.spec_scheduled(), done.union(b));
                    assert(before.spec_scheduled() == o.spec_scheduled().difference(done));
                }
                count = count + c;
                proof {
                    assert(self.spec_scheduled() =~= o.spec_scheduled().difference(done.union(b)));
                    assert forall|n: u64| #[trigger] self.spec_index().contains_key(n) && !done.union(b).contains(n) implies {
                        &&& o.spec_index().contains_key(n)
                        &&& self.spec_task(n) == o.spec_task(n)
                        &&& self.spec_index()[n].level == o.spec_index()[n].level
                        &&& self.spec_index()[n].slot_index == o.spec_index()[n].slot_index
                    } by {
                        assert(before.spec_index().contains_key(n));
                    }
                    assert forall|t: int, j: int| s + 1 <= t < bs.len() && 0 <= j < bs[t]@.len()
                        && self.spec_scheduled().contains((#[trigger] bs[t]@[j]).0@) implies
                        self.spec_index()[bs[t]@[j].0@] == (TaskLocation { level, slot_index: t as usize, vec_index: bs[t]@[j].1 }) by {
                        let n = bs[t]@[j].0@;
                        assert(before.spec_scheduled().contains(n));
                        assert(before.spec_index().contains_key(n));
                    }
                    assert forall|i: u64| #[trigger] o.spec_index().contains_key(i) && o.spec_index()[i].level != level implies
                        self.spec_index().contains_key(i) && self.spec_index()[i] == o.spec_index()[i] by {
                        assert(before.spec_index().contains_key(i));
                    }
                }
            } else {
                proof {
                    assert(b =~= Set::<u64>::empty());
                    assert(done.union(b) =~= done);
                }
            }
            s += 1;
        }
        count
    }
}

impl<C> Wheel<C> {
    /// `self` is `old` after `cancel_batch(ids)` returned `count`: the listed
    /// tasks are no longer scheduled, `count` is how many of them were, and
    /// every other task is where and as it was.
    pub open spec fn spec_batch_cancelled(self, old: Self, ids: Seq<TaskId>, count: usize) -> bool {
        &&& self.wf()
        &&& self.spec_scheduled() == old.spec_scheduled().difference(id_set(ids))
        &&& count == old.spec_scheduled().intersect(id_set(ids)).len()
        &&& self.spec_others_same(old, id_set(ids))
        &&& self.spec_same_frame(old)
    }

    /// Cancels every scheduled task among `task_ids` and returns how many there
    /// were (a number listed twice counts once). Batches up to the small batch
    /// threshold cancel one by one; larger ones are grouped by layer and slot
    /// first, and each slot's tasks removed from the highest position down.
    pub fn cancel_batch(&mut self, task_ids: &[TaskId]) -> (count: usize)
        requires
            old(self).wf(),
        ensures
            final(self).spec_batch_cancelled(*old(self), task_ids@, count),
    {
        let ghost o = *self;
        // The index's length is a `usize`: this bounds how many tasks can be
        // counted below.
        let _scheduled = self.task_index.len();
        let mut cancelled_count: usize = 0;
        if task_ids.len() <= self.batch_config.small_batch_threshold {
            let mut i: usize = 0;
            proof {
                assert(id_set(task_ids@.take(0)) =~= Set::<u64>::empty());
                assert(o.spec_scheduled().intersect(Set::<u64>::empty()) =~= Set::<u64>::empty());
                assert(o.spec_scheduled().difference(Set::<u64>::empty()) =~= o.spec_scheduled());
            }
            while i < task_ids.len()
                invariant
                    self.wf(),
                    self.spec_same_frame(o),
                    self.spec_slots(0).len() == o.spec_slots(0).len(),
                    self.spec_slots(1).len() == o.spec_slots(1).len(),
                    i <= task_ids@.len(),
                    o.spec_scheduled().finite(),
                    o.spec_scheduled().len() <= usize::MAX,
                    self.spec_scheduled() == o.spec_scheduled().difference(id_set(task_ids@.take(i as int))),
                    cancelled_count == o.spec_scheduled().intersect(id_set(task_ids@.take(i as int))).len(),
                    self.spec_others_same(o, id_set(task_ids@.take(i as int))),
                decreases task_ids@.len() - i,
            {
                let ghost before = *self;
                let ghost seen = id_set(task_ids@.take(i as int));
                let task_id = task_ids[i];
                proof {
                    assert(id_set(task_ids@.take(i + 1)) =~= seen.insert(task_id@)) by {
                        assert forall|n: u64| id_set(task_ids@.take(i + 1)).contains(n) implies seen.insert(task_id@).contains(n) by {
                            let j = choose|j: int| 0 <= j < i + 1 && (#[trigger] task_ids@.take(i + 1)[j])@ == n;
                            if j < i {
                                assert(task_ids@.take(i as int)[j] == task_ids@.take(i + 1)[j]);
                            }
                        }
                        assert forall|n: u64| seen.insert(task_id@).contains(n) implies id_set(task_ids@.take(i + 1)).contains(n) by {
                            if n == task_id@ {
                                assert(task_ids@.take(i + 1)[i as int] == task_ids@[i as int]);
                            } else {
                                let j = choose|j: int| 0 <= j < i && (#[trigger] task_ids@.take(i as int)[j])@ == n;
                                assert(task_ids@.take(i + 1)[j] == task_ids@.take(i as int)[j]);
                            }
                        }
                    }
                }
                let removed = self.cancel(task_id);
                proof {
                    lemma_count_step(o.spec_scheduled(), seen, task_id@, removed);
                    vstd::set_lib::lemma_len_intersect(o.spec_scheduled(), seen.insert(task_id@));
                    assert forall|n: u64| #[trigger] self.spec_index().contains_key(n) && !seen.insert(task_id@).contains(n) implies {
                        &&& o.spec_index().contains_key(n)
                        &&& self.spec_task(n) == o.spec_task(n)
                        &&& self.spec_index()[n].level == o.spec_index()[n].level
                        &&& self.spec_index()[n].slot_index == o.spec_index()[n].slot_index
                    } by {
                        assert(before.spec_index().contains_key(n));
                    }
                }
                if removed {
                    cancelled_count += 1;
                }
                i += 1;
            }
            proof {
                assert(task_ids@.take(task_ids@.len() as int) =~= task_ids@);
            }
            return cancelled_count;
        }
        let mut l0_tasks_by_slot = empty_buckets(self.l0.slot_count);
        let mut l1_tasks_by_slot = empty_buckets(self.l1.slot_count);
        let mut i: usize = 0;
        while i < task_ids.len()
            invariant
                *self == o,
                self.wf(),
                i <= task_ids@.len(),
                l0_tasks_by_slot@.len() == o.spec_slot_count(0),
                l1_tasks_by_slot@.len() == o.spec_slot_count(1),
                forall|s: int, j: int| 0 <= s < l0_tasks_by_slot@.len() && 0 <= j < l0_tasks_by_slot@[s]@.len() ==> {
                    let c = #[trigger] l0_tasks_by_slot@[s]@[j];
                    &&& o.spec_scheduled().contains(c.0@)
                    &&& o.spec_index()[c.0@] == (TaskLocation { level: 0, slot_index: s as usize, vec_index: c.1 })
                    &&& id_set(task_ids@).contains(c.0@)
                },
                forall|s: int, j: int| 0 <= s < l1_tasks_by_slot@.len() && 0 <= j < l1_tasks_by_slot@[s]@.len() ==> {
                    let c = #[trigger] l1_tasks_by_slot@[s]@[j];
                    &&& o.spec_scheduled().contains(c.0@)
                    &&& o.spec_index()[c.0@] == (TaskLocation { level: 1, slot_index: s as usize, vec_index: c.1 })
                    &&& id_set(task_ids@).contains(c.0@)
                },
                forall|m: int| 0 <= m < i && o.spec_scheduled().contains((#[trigger] task_ids@[m])@) ==> {
                    let loc = o.spec_index()[task_ids@[m]@];
                    if loc.level == 0 {
                        cand_ids(l0_tasks_by_slot@[loc.slot_index as int]@).contains(task_ids@[m]@)
                    } else {
                        cand_ids(l1_tasks_by_slot@[loc.slot_index as int]@).contains(task_ids@[m]@)
                    }
                },
            decreases task_ids@.len() - i,
        {
            let task_id = task_ids[i];
            let ghost b0 = l0_tasks_by_slot@;
            let ghost b1 = l1_tasks_by_slot@;
            if let Some(location) = self.task_index.get(task_id.as_u64()) {
                proof {
                    assert(self.spec_valid_loc(location));
                    assert(id_set(task_ids@).contains(task_id@)) by {
                        assert(task_ids@[i as int]@ == task_id@);
                    }
                }
                if location.level == 0 {
                    l0_tasks_by_slot[location.slot_index].push((task_id, location.vec_index));
                } else {
                    l1_tasks_by_slot[location.slot_index].push((task_id, location.vec_index));
                }
                proof {
                    let ls = location.slot_index as int;
                    let nb = if location.level == 0 { l0_tasks_by_slot@[ls]@ } else { l1_tasks_by_slot@[ls]@ };
                    assert(nb[nb.len() - 1] == (task_id, location.vec_index));
                    assert forall|m: int| 0 <= m < i + 1 && o.spec_scheduled().contains((#[trigger] task_ids@[m])@) implies {
                        let loc = o.spec_index()[task_ids@[m]@];
                        if loc.level == 0 {
                            cand_ids(l0_tasks_by_slot@[loc.slot_index as int]@).contains(task_ids@[m]@)
                        } else {
                            cand_ids(l1_tasks_by_slot@[loc.slot_index as int]@).contains(task_ids@[m]@)
                        }
                    } by {
                        let loc = o.spec_index()[task_ids@[m]@];
                        let span = loc.slot_index as int;
                        if m < i {
                            if loc.level == 0 {
                                let j = choose|j: int| 0 <= j < b0[span]@.len() && (#[trigger] b0[span]@[j]).0@ == task_ids@[m]@;
                                assert(l0_tasks_by_slot@[span]@[j] == b0[span]@[j]);
                            } else {
                                let j = choose|j: int| 0 <= j < b1[span]@.len() && (#[trigger] b1[span]@[j]).0@ == task_ids@[m]@;
                                assert(l1_tasks_by_slot@[span]@[j] == b1[span]@[j]);
                            }
                        } else {
                            if loc.level == 0 {
                                let lb = l0_tasks_by_slot@[span]@;
                                assert(lb[lb.len() - 1].0@ == task_ids@[m]@);
                            } else {
                                let lb = l1_tasks_by_slot@[span]@;
                                assert(lb[lb.len() - 1].0@ == task_ids@[m]@);
                            }
                        }
                    }
                }
            }
            i += 1;
        }
        let ghost b0 = l0_tasks_by_slot@;
        let ghost b1 = l1_tasks_by_slot@;
        let c0 = self.cancel_buckets(0, &mut l0_tasks_by_slot);
        let ghost mid = *self;
        proof {
            let u0 = bucket_union(b0, b0.len() as int);
            vstd::set_lib::lemma_len_intersect(o.spec_scheduled(), u0);
            assert forall|t: int, j: int| 0 <= t < b1.len() && 0 <= j < b1[t]@.len()
                && mid.spec_scheduled().contains((#[trigger] b1[t]@[j]).0@) implies
                mid.spec_index()[b1[t]@[j].0@] == (TaskLocation { level: 1, slot_index: t as usize, vec_index: b1[t]@[j].1 }) by {
                assert(o.spec_index().contains_key(b1[t]@[j].0@));
            }
            assert(mid.spec_scheduled().len() <= usize::MAX) by {
                vstd::set_lib::lemma_len_subset(mid.spec_scheduled(), o.spec_scheduled());
            }
        }
        let c1 = self.cancel_buckets(1, &mut l1_tasks_by_slot);
        proof {
            let u0 = bucket_union(b0, b0.len() as int);
            let u1 = bucket_union(b1, b1.len() as int);
            let ids = id_set(task_ids@);
            lemma_count_merge(o.spec_scheduled(), u0, u1);
            assert(o.spec_scheduled().difference(u0).intersect(u1) =~= mid.spec_scheduled().intersect(u1));
            assert(u0.union(u1).subset_of(ids)) by {
                assert forall|n: u64| u0.union(u1).contains(n) implies ids.contains(n) by {
                    if u0.contains(n) {
                        let t = choose|t: int| 0 <= t < b0.len() && #[trigger] cand_ids(b0[t]@).contains(n);
                        let j = choose|j: int| 0 <= j < b0[t]@.len() && (#[trigger] b0[t]@[j]).0@ == n;
                    } else {
                        let t = choose|t: int| 0 <= t < b1.len() && #[trigger] cand_ids(b1[t]@).contains(n);
                        let j = choose|j: int| 0 <= j < b1[t]@.len() && (#[trigger] b1[t]@[j]).0@ == n;
                    }
                }
            }
            assert(o.spec_scheduled().intersect(u0.union(u1)) =~= o.spec_scheduled().intersect(ids)) by {
                assert forall|n: u64| o.spec_scheduled().intersect(ids).contains(n) implies u0.union(u1).contains(n) by {
                    let m = choose|m: int| 0 <= m < task_ids@.len() && (#[trigger] task_ids@[m])@ == n;
                    let loc = o.spec_index()[n];
                    if loc.level == 0 {
                        assert(cand_ids(b0[loc.slot_index as int]@).contains(n));
                    } else {
                        assert(cand_ids(b1[loc.slot_index as int]@).contains(n));
                    }
                }
                assert forall|n: u64| u0.union(u1).contains(n) && o.spec_scheduled().contains(n) implies ids.contains(n) by {
                }
            }
            assert(self.spec_scheduled() =~= o.spec_scheduled().difference(ids));
            assert forall|n: u64| #[trigger] self.spec_index().contains_key(n) && !ids.contains(n) implies {
                &&& o.spec_index().contains_key(n)
                &&& self.spec_task(n) == o.spec_task(n)
                &&& self.spec_index()[n].level == o.spec_index()[n].level
                &&& self.spec_index()[n].slot_index == o.spec_index()[n].slot_index
            } by {
                assert(mid.spec_index().contains_key(n));
            }
        }
        cancelled_count = c0 + c1;
        cancelled_count
    }
}


/// Update `k` of `ids` is the last one for its task number.
pub open spec fn is_last_update(ids: Seq<TaskId>, k: int) -> bool {
    forall|j: int| k < j < ids.len() ==> (#[trigger] ids[j])@ != ids[k]@
}

/// The task numbers of a list of updates.
pub open spec fn update_ids(updates: Seq<(TaskId, Duration)>) -> Seq<TaskId> {
    updates.map_values(|u: (TaskId, Duration)| u.0)
}

/// The callback of task `id` after updates `0..=k` of `us`: that of the latest
/// one naming the task that gives a callback, else `orig`.
pub open spec fn callback_after<C>(us: Seq<(TaskId, Duration, Option<C>)>, k: int, id: u64, orig: Option<C>) -> Option<C>
    decreases k + 1,
{
    if k < 0 {
        orig
    } else if us[k].0@ == id && us[k].2 is Some {
        us[k].2
    } else {
        callback_after(us, k - 1, id, orig)
    }
}

/// The task numbers of a list of updates with callbacks.
pub open spec fn update_ids_cb<C>(updates: Seq<(TaskId, Duration, Option<C>)>) -> Seq<TaskId> {
    updates.map_values(|u: (TaskId, Duration, Option<C>)| u.0)
}

proof fn lemma_count_scheduled_step(ids: Seq<TaskId>, k: int, sched: Set<u64>)
    requires
        0 <= k < ids.len(),
    ensures
        count_scheduled(ids.take(k + 1), sched) == count_scheduled(ids.take(k), sched) + if sched.contains(ids[k]@) {
            1nat
        } else {
            0nat
        },
        count_scheduled(ids.take(k), sched) <= k,
    decreases k,
{
    assert(ids.take(k + 1).drop_last() =~= ids.take(k));
    if k > 0 {
        lemma_count_scheduled_step(ids, k - 1, sched);
    } else {
        assert(ids.take(0).len() == 0);
    }
}

impl<C> Wheel<C> {
    /// `self` is `old` after a batch registration of `tasks` under `handles`
    /// succeeded: the scheduled tasks are the old ones and the handles'
    /// numbers, each new task has the entry, layer and slot that scheduling it
    /// from `old` gives, and the old tasks are where and as they were.
    pub open spec fn spec_batch_inserted(self, old: Self, handles: Seq<TaskHandle>, tasks: Seq<TimerTask<C>>) -> bool {
        &&& self.wf()
        &&& forall|n: u64| #[trigger] self.spec_scheduled().contains(n) <==> (old.spec_scheduled().contains(n)
            || exists|k: int| 0 <= k < handles.len() && (#[trigger] handles[k]).spec_id()@ == n)
        &&& forall|k: int| 0 <= k < handles.len() ==> {
            &&& self.spec_task((#[trigger] handles[k]).spec_id()@) == old.spec_scheduled_entry(
                handles[k].spec_id(),
                tasks[k].spec_task_type(),
                tasks[k].spec_delay(),
                tasks[k].spec_callback(),
            )
            &&& self.spec_index()[handles[k].spec_id()@].level == old.spec_target(nanos_of(tasks[k].spec_delay())).0
            &&& self.spec_index()[handles[k].spec_id()@].slot_index == old.spec_target(nanos_of(tasks[k].spec_delay())).3
        }
        &&& forall|i: u64| #[trigger] old.spec_index().contains_key(i) ==> {
            &&& self.spec_task(i) == old.spec_task(i)
            &&& self.spec_index()[i] == old.spec_index()[i]
        }
        &&& self.spec_same_frame(old)
    }

    /// A wheel's frame agrees with itself.
    pub proof fn lemma_same_frame_refl(self)
        ensures
            self.spec_same_frame(self),
    {
    }

    /// Frames that agree with a common one agree with each other.
    pub proof fn lemma_same_frame_trans(self, mid: Self, other: Self)
        requires
            self.spec_same_frame(mid),
            mid.spec_same_frame(other),
        ensures
            self.spec_same_frame(other),
    {
    }
}

impl<C> Wheel<C> {
    /// Registers several tasks, in order, each under its handle's number;
    /// handles and tasks must be equally many, else nothing is registered and
    /// `BatchLengthMismatch` reports both lengths.
    #[verifier::rlimit(40)]
    #[verifier::spinoff_prover]
    pub fn insert_batch(&mut self, handles: Vec<TaskHandle>, tasks: Vec<TimerTask<C>>) -> (r: Result<(), TimerError>)
        requires
            old(self).wf(),
            handles@.len() == tasks@.len() ==> {
                &&& forall|k: int| 0 <= k < handles@.len() ==> {
                    &&& !old(self).spec_scheduled().contains((#[trigger] handles@[k]).spec_id()@)
                    &&& handles@[k].spec_id()@ < old(self).spec_next_id()
                }
                &&& forall|k1: int, k2: int| 0 <= k1 < k2 < handles@.len() ==>
                    (#[trigger] handles@[k1]).spec_id()@ != (#[trigger] handles@[k2]).spec_id()@
                &&& forall|k: int| 0 <= k < tasks@.len() ==> task_fits(#[trigger] tasks@[k])
            },
        ensures
            final(self).wf(),
            r is Err <==> handles@.len() != tasks@.len(),
            r is Err ==> r == Err::<(), TimerError>(TimerError::BatchLengthMismatch { handles_len: handles@.len() as usize, tasks_len: tasks@.len() as usize }),
            r is Err ==> final(self).spec_index() == old(self).spec_index() && forall|l: u8, s: int| #[trigger] final(self).spec_slot(l, s) == old(self).spec_slot(l, s),
            r is Ok ==> final(self).spec_batch_inserted(*old(self), handles@, tasks@),
            forall|i: u64| #[trigger] old(self).spec_index().contains_key(i) ==> {
                &&& final(self).spec_task(i) == old(self).spec_task(i)
                &&& final(self).spec_index()[i] == old(self).spec_index()[i]
            },
            final(self).spec_same_frame(*old(self)),
    {
        if handles.len() != tasks.len() {
            return Err(TimerError::BatchLengthMismatch { handles_len: handles.len(), tasks_len: tasks.len() });
        }
        let ghost o = *self;
        let ghost hs = handles@;
        let ghost ts = tasks@;
        let mut rh = reversed(handles);
        let mut rt = reversed(tasks);
        let ghost mut n_done: int = 0;
        while rh.len() > 0
            invariant
                self.wf(),
                self.spec_same_frame(o),
                self.spec_slots(0).len() == o.spec_slots(0).len(),
                self.spec_slots(1).len() == o.spec_slots(1).len(),
                hs.len() == ts.len(),
                0 <= n_done <= hs.len(),
                rh@.len() == rt@.len(),
                rh@.reverse() == hs.subrange(n_done, hs.len() as int),
                rt@.reverse() == ts.subrange(n_done, ts.len() as int),
                forall|k: int| 0 <= k < hs.len() ==> {
                    &&& !o.spec_scheduled().contains((#[trigger] hs[k]).spec_id()@)
                    &&& hs[k].spec_id()@ < o.spec_next_id()
                },
                forall|k1: int, k2: int| 0 <= k1 < k2 < hs.len() ==> (#[trigger] hs[k1]).spec_id()@ != (#[trigger] hs[k2]).spec_id()@,
                forall|k: int| 0 <= k < ts.len() ==> task_fits(#[trigger] ts[k]),
                forall|n: u64| #[trigger] self.spec_scheduled().contains(n) <==> (o.spec_scheduled().contains(n)
                    || exists|k: int| 0 <= k < n_done && (#[trigger] hs[k]).spec_id()@ == n),
                forall|k: int| 0 <= k < n_done ==> {
                    &&& self.spec_task((#[trigger] hs[k]).spec_id()@) == o.spec_scheduled_entry(
                        hs[k].spec_id(),
                        ts[k].spec_task_type(),
                        ts[k].spec_delay(),
                        ts[k].spec_callback(),
                    )
                    &&& self.spec_index()[hs[k].spec_id()@].level == o.spec_target(nanos_of(ts[k].spec_delay())).0
                    &&& self.spec_index()[hs[k].spec_id()@].slot_index == o.spec_target(nanos_of(ts[k].spec_delay())).3
                },
                forall|i: u64| #[trigger] o.spec_index().contains_key(i) ==> {
                    &&& self.spec_task(i) == o.spec_task(i)
                    &&& self.spec_index()[i] == o.spec_index()[i]
                },
            decreases rh@.len(),
        {
            let ghost before = *self;
            let ghost rh_before = rh@;
            let ghost rt_before = rt@;
            let handle = rh.pop().unwrap();
            let task = rt.pop().unwrap();
            proof {
                assert(rh_before.reverse() =~= seq![handle] + rh@.reverse());
                assert(rt_before.reverse() =~= seq![task] + rt@.reverse());
                assert(hs[n_done] == handle) by {
                    assert(hs.subrange(n_done, hs.len() as int)[0] == hs[n_done]);
                }
                assert(ts[n_done] == task) by {
                    assert(ts.subrange(n_done, ts.len() as int)[0] == ts[n_done]);
                }
                assert(hs.subrange(n_done + 1, hs.len() as int) =~= hs.subrange(n_done, hs.len() as int).drop_first());
                assert(ts.subrange(n_done + 1, ts.len() as int) =~= ts.subrange(n_done, ts.len() as int).drop_first());
                assert((seq![handle] + rh@.reverse()).drop_first() =~= rh@.reverse());
                assert((seq![task] + rt@.reverse()).drop_first() =~= rt@.reverse());
                assert(!self.spec_scheduled().contains(handle.spec_id()@)) by {
                    if self.spec_scheduled().contains(handle.spec_id()@) {
                        let k = choose|k: int| 0 <= k < n_done && (#[trigger] hs[k]).spec_id()@ == handle.spec_id()@;
                    }
                }
            }
            self.insert(handle, task);
            proof {
                assert forall|n: u64| #[trigger] self.spec_scheduled().contains(n) <==> (o.spec_scheduled().contains(n)
                    || exists|k: int| 0 <= k < n_done + 1 && (#[trigger] hs[k]).spec_id()@ == n) by {
                    if n == hs[n_done].spec_id()@ {
                    }
                }
                assert forall|k: int| 0 <= k < n_done + 1 implies {
                    &&& self.spec_task((#[trigger] hs[k]).spec_id()@) == o.spec_scheduled_entry(
                        hs[k].spec_id(),
                        ts[k].spec_task_type(),
                        ts[k].spec_delay(),
                        ts[k].spec_callback(),
                    )
                    &&& self.spec_index()[hs[k].spec_id()@].level == o.spec_target(nanos_of(ts[k].spec_delay())).0
                    &&& self.spec_index()[hs[k].spec_id()@].slot_index == o.spec_target(nanos_of(ts[k].spec_delay())).3
                } by {
                    if k < n_done {
                        assert(before.spec_index().contains_key(hs[k].spec_id()@));
                        assert(hs[k].spec_id()@ != hs[n_done].spec_id()@);
                    }
                }
                assert forall|i: u64| #[trigger] o.spec_index().contains_key(i) implies {
                    &&& self.spec_task(i) == o.spec_task(i)
                    &&& self.spec_index()[i] == o.spec_index()[i]
                } by {
                    assert(before.spec_index().contains_key(i));
                }
                n_done = n_done + 1;
            }
        }
        Ok(())
    }

    /// Postpones each task of `updates` in order (keeping callbacks) and returns
    /// how many updates found their task scheduled; unknown numbers are skipped.
    #[verifier::rlimit(40)]
    #[verifier::spinoff_prover]
    pub fn postpone_batch(&mut self, updates: Vec<(TaskId, Duration)>) -> (count: usize)
        requires
            old(self).wf(),
            forall|k: int| 0 <= k < updates@.len() && old(self).spec_scheduled().contains((#[trigger] updates@[k]).0@) ==>
                nanos_of(updates@[k].1) <= MAX_SPAN_NS,
        ensures
            final(self).wf(),
            final(self).spec_scheduled() == old(self).spec_scheduled(),
            count == count_scheduled(update_ids(updates@), old(self).spec_scheduled()),
            final(self).spec_others_same(*old(self), id_set(update_ids(updates@))),
            forall|n: u64| #[trigger] old(self).spec_scheduled().contains(n) ==> final(self).spec_task(n).task_type == old(self).spec_task(n).task_type,
            forall|k: int| 0 <= k < updates@.len() && is_last_update(update_ids(updates@), k)
                && old(self).spec_scheduled().contains((#[trigger] updates@[k]).0@) ==> {
                &&& final(self).spec_task(updates@[k].0@) == old(self).spec_scheduled_entry(
                    updates@[k].0,
                    old(self).spec_task(updates@[k].0@).task_type,
                    updates@[k].1,
                    old(self).spec_task(updates@[k].0@).callback,
                )
                &&& final(self).spec_index()[updates@[k].0@].level == old(self).spec_target(nanos_of(updates@[k].1)).0
                &&& final(self).spec_index()[updates@[k].0@].slot_index == old(self).spec_target(nanos_of(updates@[k].1)).3
            },
            final(self).spec_same_frame(*old(self)),
    {
        let ghost o = *self;
        let ghost ids = update_ids(updates@);
        let mut count: usize = 0;
        let mut k: usize = 0;
        proof {
            assert(id_set(ids.take(0)) =~= Set::<u64>::empty());
        }
        while k < updates.len()
            invariant
                self.wf(),
                self.spec_same_frame(o),
                self.spec_slots(0).len() == o.spec_slots(0).len(),
                self.spec_slots(1).len() == o.spec_slots(1).len(),
                ids == update_ids(updates@),
                k <= updates@.len(),
                forall|j: int| 0 <= j < updates@.len() && o.spec_scheduled().contains((#[trigger] updates@[j]).0@) ==>
                    nanos_of(updates@[j].1) <= MAX_SPAN_NS,
                self.spec_scheduled() == o.spec_scheduled(),
                count == count_scheduled(ids.take(k as int), o.spec_scheduled()),
                self.spec_others_same(o, id_set(ids.take(k as int))),
                forall|n: u64| #[trigger] o.spec_scheduled().contains(n) ==> {
                    &&& self.spec_task(n).task_type == o.spec_task(n).task_type
                    &&& self.spec_task(n).callback == o.spec_task(n).callback
                },
                forall|j: int| 0 <= j < k && is_last_update(ids.take(k as int), j)
                    && o.spec_scheduled().contains((#[trigger] updates@[j]).0@) ==> {
                    &&& self.spec_task(updates@[j].0@) == o.spec_scheduled_entry(
                        updates@[j].0,
                        o.spec_task(updates@[j].0@).task_type,
                        updates@[j].1,
                        o.spec_task(updates@[j].0@).callback,
                    )
                    &&& self.spec_index()[updates@[j].0@].level == o.spec_target(nanos_of(updates@[j].1)).0
                    &&& self.spec_index()[updates@[j].0@].slot_index == o.spec_target(nanos_of(updates@[j].1)).3
                },
            decreases updates@.len() - k,
        {
            let ghost before = *self;
            let (task_id, new_delay) = updates[k];
            proof {
                lemma_count_scheduled_step(ids, k as int, o.spec_scheduled());
                assert(ids[k as int] == task_id);
                assert(id_set(ids.take(k + 1)) =~= id_set(ids.take(k as int)).insert(task_id@)) by {
                    assert forall|n: u64| id_set(ids.take(k + 1)).contains(n) implies id_set(ids.take(k as int)).insert(task_id@).contains(n) by {
                        let j = choose|j: int| 0 <= j < k + 1 && (#[trigger] ids.take(k + 1)[j])@ == n;
                        if j < k {
                            assert(ids.take(k as int)[j] == ids.take(k + 1)[j]);
                        }
                    }
                    assert forall|n: u64| id_set(ids.take(k as int)).insert(task_id@).contains(n) implies id_set(ids.take(k + 1)).contains(n) by {
                        if n == task_id@ {
                            assert(ids.take(k + 1)[k as int] == ids[k as int]);
                        } else {
                            let j = choose|j: int| 0 <= j < k && (#[trigger] ids.take(k as int)[j])@ == n;
                            assert(ids.take(k + 1)[j] == ids.take(k as int)[j]);
                        }
                    }
                }
            }
            proof {
                assert(before.spec_target(nanos_of(new_delay)) == o.spec_target(nanos_of(new_delay)));
            }
            let ok = self.postpone(task_id, new_delay, None);
            if ok {
                count = count + 1;
            }
            proof {
                assert forall|n: u64| #[trigger] self.spec_index().contains_key(n) && !id_set(ids.take(k + 1)).contains(n) implies {
                    &&& o.spec_index().contains_key(n)
                    &&& self.spec_task(n) == o.spec_task(n)
                    &&& self.spec_index()[n].level == o.spec_index()[n].level
                    &&& self.spec_index()[n].slot_index == o.spec_index()[n].slot_index
                } by {
                    assert(before.spec_index().contains_key(n));
                }
                assert forall|n: u64| #[trigger] o.spec_scheduled().contains(n) implies {
                    &&& self.spec_task(n).task_type == o.spec_task(n).task_type
                    &&& self.spec_task(n).callback == o.spec_task(n).callback
                } by {
                    if n != task_id@ {
                        assert(before.spec_index().contains_key(n));
                    }
                }
                assert forall|j: int| 0 <= j < k + 1 && is_last_update(ids.take(k + 1), j)
                    && o.spec_scheduled().contains((#[trigger] updates@[j]).0@) implies {
                    &&& self.spec_task(updates@[j].0@) == o.spec_scheduled_entry(
                        updates@[j].0,
                        o.spec_task(updates@[j].0@).task_type,
                        updates@[j].1,
                        o.spec_task(updates@[j].0@).callback,
                    )
                    &&& self.spec_index()[updates@[j].0@].level == o.spec_target(nanos_of(updates@[j].1)).0
                    &&& self.spec_index()[updates@[j].0@].slot_index == o.spec_target(nanos_of(updates@[j].1)).3
                } by {
                    if j < k {
                        assert(ids.take(k + 1)[k as int] == task_id);
                        assert(updates@[j].0@ != task_id@) by {
                            assert(ids.take(k + 1)[j] == ids[j]);
                        }
                        assert(is_last_update(ids.take(k as int), j)) by {
                            assert forall|m: int| j < m < k implies (#[trigger] ids.take(k as int)[m])@ != ids.take(k as int)[j]@ by {
                                assert(ids.take(k as int)[m] == ids.take(k + 1)[m]);
                            }
                        }
                        assert(before.spec_index().contains_key(updates@[j].0@));
                    }
                }
            }
            k += 1;
        }
        proof {
            assert(ids.take(updates@.len() as int) =~= ids);
        }
        count
    }

    /// Postpones each task of `updates` in order, replacing the callback where
    /// the update gives one, and returns how many found their task scheduled.
    #[verifier::rlimit(40)]
    #[verifier::spinoff_prover]
    pub fn postpone_batch_with_callbacks(&mut self, updates: Vec<(TaskId, Duration, Option<C>)>) -> (count: usize)
        requires
            old(self).wf(),
            forall|k: int| 0 <= k < updates@.len() && old(self).spec_scheduled().contains((#[trigger] updates@[k]).0@) ==>
                nanos_of(updates@[k].1) <= MAX_SPAN_NS,
        ensures
            final(self).wf(),
            final(self).spec_scheduled() == old(self).spec_scheduled(),
            count == count_scheduled(update_ids_cb(updates@), old(self).spec_scheduled()),
            final(self).spec_others_same(*old(self), id_set(update_ids_cb(updates@))),
            forall|n: u64| #[trigger] old(self).spec_scheduled().contains(n) ==> {
                &&& final(self).spec_task(n).task_type == old(self).spec_task(n).task_type
                &&& final(self).spec_task(n).callback == callback_after(
                    updates@,
                    updates@.len() - 1,
                    n,
                    old(self).spec_task(n).callback,
                )
            },
            forall|k: int| 0 <= k < updates@.len() && is_last_update(update_ids_cb(updates@), k)
                && old(self).spec_scheduled().contains((#[trigger] updates@[k]).0@) ==> {
                &&& final(self).spec_task(updates@[k].0@) == (WheelEntry {
                    callback: final(self).spec_task(updates@[k].0@).callback,
                    ..old(self).spec_scheduled_entry(
                        updates@[k].0,
                        old(self).spec_task(updates@[k].0@).task_type,
                        updates@[k].1,
                        None,
                    )
                })
                &&& final(self).spec_index()[updates@[k].0@].level == old(self).spec_target(nanos_of(updates@[k].1)).0
                &&& final(self).spec_index()[updates@[k].0@].slot_index == old(self).spec_target(nanos_of(updates@[k].1)).3
            },
            final(self).spec_same_frame(*old(self)),
    {
        let ghost o = *self;
        let ghost us = updates@;
        let ghost ids = update_ids_cb(updates@);
        let n_updates = updates.len();
        let mut rem = reversed(updates);
        let mut count: usize = 0;
        let ghost mut k: int = 0;
        proof {
            assert(id_set(ids.take(0)) =~= Set::<u64>::empty());
        }
        while rem.len() > 0
            invariant
                self.wf(),
                self.spec_same_frame(o),
                self.spec_slots(0).len() == o.spec_slots(0).len(),
                self.spec_slots(1).len() == o.spec_slots(1).len(),
                ids == update_ids_cb(us),
                0 <= k <= us.len(),
                us.len() == n_updates,
                rem@.reverse() == us.subrange(k, us.len() as int),
                count <= k,
                forall|j: int| 0 <= j < us.len() && o.spec_scheduled().contains((#[trigger] us[j]).0@) ==>
                    nanos_of(us[j].1) <= MAX_SPAN_NS,
                self.spec_scheduled() == o.spec_scheduled(),
                count == count_scheduled(ids.take(k), o.spec_scheduled()),
                self.spec_others_same(o, id_set(ids.take(k))),
                forall|n: u64| #[trigger] o.spec_scheduled().contains(n) ==> {
                    &&& self.spec_task(n).task_type == o.spec_task(n).task_type
                    &&& self.spec_task(n).callback == callback_after(us, k - 1, n, o.spec_task(n).callback)
                },
                forall|j: int| 0 <= j < k && is_last_update(ids.take(k), j)
                    && o.spec_scheduled().contains((#[trigger] us[j]).0@) ==> {
                    &&& self.spec_task(us[j].0@) == (WheelEntry {
                        callback: self.spec_task(us[j].0@).callback,
                        ..o.spec_scheduled_entry(us[j].0, o.spec_task(us[j].0@).task_type, us[j].1, None)
                    })
                    &&& self.spec_index()[us[j].0@].level == o.spec_target(nanos_of(us[j].1)).0
                    &&& self.spec_index()[us[j].0@].slot_index == o.spec_target(nanos_of(us[j].1)).3
                },
            decreases rem@.len(),
        {
            let ghost before = *self;
            let ghost rem_before = rem@;
            let (task_id, new_delay, new_callback) = rem.pop().unwrap();
            proof {
                assert(rem_before.reverse() =~= seq![(task_id, new_delay, new_callback)] + rem@.reverse());
                assert(us[k] == (task_id, new_delay, new_callback)) by {
                    assert(us.subrange(k, us.len() as int)[0] == us[k]);
                }
                assert(us.subrange(k + 1, us.len() as int) =~= us.subrange(k, us.len() as int).drop_first());
                assert((seq![(task_id, new_delay, new_callback)] + rem@.reverse()).drop_first() =~= rem@.reverse());
                lemma_count_scheduled_step(ids, k, o.spec_scheduled());
                assert(ids[k] == task_id);
                assert(id_set(ids.take(k + 1)) =~= id_set(ids.take(k)).insert(task_id@)) by {
                    assert forall|n: u64| id_set(ids.take(k + 1)).contains(n) implies id_set(ids.take(k)).insert(task_id@).contains(n) by {
                        let j = choose|j: int| 0 <= j < k + 1 && (#[trigger] ids.take(k + 1)[j])@ == n;
                        if j < k {
                            assert(ids.take(k)[j] == ids.take(k + 1)[j]);
                        }
                    }
                    assert forall|n: u64| id_set(ids.take(k)).insert(task_id@).contains(n) implies id_set(ids.take(k + 1)).contains(n) by {
                        if n == task_id@ {
                            assert(ids.take(k + 1)[k] == ids[k]);
                        } else {
                            let j = choose|j: int| 0 <= j < k && (#[trigger] ids.take(k)[j])@ == n;
                            assert(ids.take(k + 1)[j] == ids.take(k)[j]);
                        }
                    }
                }
            }
            proof {
                assert(before.spec_target(nanos_of(new_delay)) == o.spec_target(nanos_of(new_delay)));
            }
            let ok = self.postpone(task_id, new_delay, new_callback);
            if ok {
                count = count + 1;
            }
            proof {
                assert forall|n: u64| #[trigger] self.spec_index().contains_key(n) && !id_set(ids.take(k + 1)).contains(n) implies {
                    &&& o.spec_index().contains_key(n)
                    &&& self.spec_task(n) == o.spec_task(n)
                    &&& self.spec_index()[n].level == o.spec_index()[n].level
                    &&& self.spec_index()[n].slot_index == o.spec_index()[n].slot_index
                } by {
                    assert(before.spec_index().contains_key(n));
                }
                assert forall|n: u64| #[trigger] o.spec_scheduled().contains(n) implies {
                    &&& self.spec_task(n).task_type == o.spec_task(n).task_type
                    &&& self.spec_task(n).callback == callback_after(us, k, n, o.spec_task(n).callback)
                } by {
                    if n != task_id@ {
                        assert(before.spec_index().contains_key(n));
                    }
                }
                assert forall|j: int| 0 <= j < k + 1 && is_last_update(ids.take(k + 1), j)
                    && o.spec_scheduled().contains((#[trigger] us[j]).0@) implies {
                    &&& self.spec_task(us[j].0@) == (WheelEntry {
                        callback: self.spec_task(us[j].0@).callback,
                        ..o.spec_scheduled_entry(us[j].0, o.spec_task(us[j].0@).task_type, us[j].1, None)
                    })
                    &&& self.spec_index()[us[j].0@].level == o.spec_target(nanos_of(us[j].1)).0
                    &&& self.spec_index()[us[j].0@].slot_index == o.spec_target(nanos_of(us[j].1)).3
                } by {
                    if j < k {
                        assert(ids.take(k + 1)[k] == task_id);
                        assert(us[j].0@ != task_id@) by {
                            assert(ids.take(k + 1)[j] == ids[j]);
                        }
                        assert(is_last_update(ids.take(k), j)) by {
                            assert forall|m: int| j < m < k implies (#[trigger] ids.take(k)[m])@ != ids.take(k)[j]@ by {
                                assert(ids.take(k)[m] == ids.take(k + 1)[m]);
                            }
                        }
                        assert(before.spec_index().contains_key(us[j].0@));
                    }
                }
                k = k + 1;
            }
        }
        proof {
            assert(ids.take(us.len() as int) =~= ids);
        }
        count
    }
}

} // verus!
