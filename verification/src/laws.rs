//! Properties that relate several operations of the wheel, each proved from
//! the operations' own postconditions.
use crate::duration::nanos_of;
use crate::task::{TaskHandle, TaskId, TimerTask, WheelEntry};
use crate::wheel::{entry_ids, id_set, interval_of, one_round_less, task_fits, ticks_for, Wheel, MAX_SPAN_NS};
use std::time::Duration;
use vstd::arithmetic::div_mod::{
    lemma_fundamental_div_mod, lemma_mod_bound, lemma_mod_multiples_vanish, lemma_small_mod,
};
use vstd::prelude::*;

verus! {

/// Cancelling a task a second time finds nothing: the second cancel returns
/// false and leaves the scheduled tasks as the first one left them.
pub proof fn law_cancel_twice<C>(
    w0: Wheel<C>,
    w1: Wheel<C>,
    w2: Wheel<C>,
    id: TaskId,
    r1: bool,
    r2: bool,
)
    requires
        w0.wf(),
        w1.spec_cancelled(w0, id, r1),
        w2.spec_cancelled(w1, id, r2),
    ensures
        !r2,
        !w2.spec_scheduled().contains(id@),
        w2.spec_scheduled() == w1.spec_scheduled(),
{
    assert(w2.spec_scheduled() =~= w1.spec_scheduled());
}

/// Inserting a task under a fresh handle and then cancelling it succeeds and
/// restores the scheduled tasks, every other task where and as it was.
pub proof fn law_insert_then_cancel<C>(
    w0: Wheel<C>,
    w1: Wheel<C>,
    w2: Wheel<C>,
    handle: TaskHandle,
    task: TimerTask<C>,
    r: bool,
)
    requires
        w0.wf(),
        !w0.spec_scheduled().contains(handle.spec_id()@),
        w1.spec_inserted(w0, handle, task),
        w2.spec_cancelled(w1, handle.spec_id(), r),
    ensures
        r,
        w2.spec_scheduled() == w0.spec_scheduled(),
        forall|i: u64| #[trigger] w0.spec_scheduled().contains(i) ==> {
            &&& w2.spec_task(i) == w0.spec_task(i)
            &&& w2.spec_index()[i].level == w0.spec_index()[i].level
            &&& w2.spec_index()[i].slot_index == w0.spec_index()[i].slot_index
        },
{
    let id = handle.spec_id()@;
    assert(w1.spec_scheduled().contains(id));
    assert(w2.spec_scheduled() =~= w0.spec_scheduled()) by {
        assert forall|i: u64| w0.spec_scheduled().contains(i) implies w2.spec_scheduled().contains(i) by {
            assert(w1.spec_index().contains_key(i));
        }
    }
    assert forall|i: u64| #[trigger] w0.spec_scheduled().contains(i) implies {
        &&& w2.spec_task(i) == w0.spec_task(i)
        &&& w2.spec_index()[i].level == w0.spec_index()[i].level
        &&& w2.spec_index()[i].slot_index == w0.spec_index()[i].slot_index
    } by {
        assert(w0.spec_index().contains_key(i));
        assert(w2.spec_index().contains_key(i));
        assert(!set![id].contains(i));
    }
}

/// Inserting a task under a fresh handle schedules exactly one more task.
pub proof fn law_insert_adds_one<C>(w0: Wheel<C>, w1: Wheel<C>, handle: TaskHandle, task: TimerTask<C>)
    requires
        w0.wf(),
        !w0.spec_scheduled().contains(handle.spec_id()@),
        w1.spec_inserted(w0, handle, task),
    ensures
        w1.spec_scheduled() == w0.spec_scheduled().insert(handle.spec_id()@),
        w1.spec_scheduled().len() == w0.spec_scheduled().len() + 1,
{
    w0.lemma_scheduled_finite();
    assert(w1.spec_scheduled() =~= w0.spec_scheduled().insert(handle.spec_id()@));
}

/// Two handles allocated one after the other have different numbers, the
/// second one more than the first, both at least 1, and no task is scheduled
/// under either.
pub proof fn law_allocations_distinct<C>(
    w0: Wheel<C>,
    w1: Wheel<C>,
    w2: Wheel<C>,
    h1: TaskHandle,
    h2: TaskHandle,
)
    requires
        w0.wf(),
        w1.spec_allocated(w0, h1),
        w2.spec_allocated(w1, h2),
    ensures
        h1.spec_id()@ != h2.spec_id()@,
        1 <= h1.spec_id()@ < h2.spec_id()@,
        h2.spec_id()@ == h1.spec_id()@ + 1,
        !w2.spec_scheduled().contains(h1.spec_id()@),
        !w2.spec_scheduled().contains(h2.spec_id()@),
{
    w0.lemma_wf_facts();
}

/// Step `i` of `ws` allocates `handles[i]`.
pub open spec fn is_allocation_step<C>(ws: Seq<Wheel<C>>, handles: Seq<TaskHandle>, i: int) -> bool {
    ws[i + 1].spec_allocated(ws[i], handles[i])
}

/// Handles allocated one after another, however many, get the consecutive
/// numbers from the wheel's next one on: all at least 1, increasing, so
/// pairwise distinct.
pub proof fn law_allocation_run_numbers<C>(ws: Seq<Wheel<C>>, handles: Seq<TaskHandle>)
    requires
        ws.len() == handles.len() + 1,
        ws[0].wf(),
        forall|i: int| 0 <= i < handles.len() ==> #[trigger] is_allocation_step(ws, handles, i),
    ensures
        forall|i: int| 0 <= i < handles.len() ==> (#[trigger] handles[i]).spec_id()@ == ws[0].spec_next_id() + i,
        forall|i: int| 0 <= i < handles.len() ==> (#[trigger] handles[i]).spec_id()@ >= 1,
        forall|i: int, k: int| 0 <= i < k < handles.len() ==> (#[trigger] handles[i]).spec_id()@ < (#[trigger] handles[k]).spec_id()@,
{
    ws[0].lemma_wf_facts();
    lemma_allocation_prefix(ws, handles, handles.len() as int);
}

/// After `k` allocations the next number has moved on by `k`, and the handles
/// so far got the numbers in between.
proof fn lemma_allocation_prefix<C>(ws: Seq<Wheel<C>>, handles: Seq<TaskHandle>, k: int)
    requires
        ws.len() == handles.len() + 1,
        ws[0].wf(),
        forall|i: int| 0 <= i < handles.len() ==> #[trigger] is_allocation_step(ws, handles, i),
        0 <= k <= handles.len(),
    ensures
        ws[k].spec_next_id() == ws[0].spec_next_id() + k,
        forall|i: int| 0 <= i < k ==> (#[trigger] handles[i]).spec_id()@ == ws[0].spec_next_id() + i,
    decreases k,
{
    if k > 0 {
        lemma_allocation_prefix(ws, handles, k - 1);
        assert(is_allocation_step(ws, handles, k - 1));
    }
}

/// A postponed task stays scheduled: a cancel after the postponement finds it.
pub proof fn law_postpone_then_cancel<C>(
    w0: Wheel<C>,
    w1: Wheel<C>,
    w2: Wheel<C>,
    id: TaskId,
    new_delay: Duration,
    new_callback: Option<C>,
    r1: bool,
    r2: bool,
)
    requires
        w0.wf(),
        w1.spec_postponed(w0, id, new_delay, new_callback, r1),
        w2.spec_cancelled(w1, id, r2),
    ensures
        r1 == r2,
        w2.spec_scheduled() == w0.spec_scheduled().remove(id@),
{
}

/// Cancelling the same batch twice: the second finds nothing.
pub proof fn law_cancel_batch_twice<C>(
    w0: Wheel<C>,
    w1: Wheel<C>,
    w2: Wheel<C>,
    ids: Seq<TaskId>,
    c1: usize,
    c2: usize,
)
    requires
        w0.wf(),
        w1.spec_batch_cancelled(w0, ids, c1),
        w2.spec_batch_cancelled(w1, ids, c2),
    ensures
        c2 == 0,
        w2.spec_scheduled() == w1.spec_scheduled(),
{
    assert(w1.spec_scheduled().intersect(id_set(ids)) =~= Set::<u64>::empty());
    assert(w2.spec_scheduled() =~= w1.spec_scheduled());
}

/// A batch of one identifier does what a single cancel does.
pub proof fn law_cancel_batch_of_one<C>(w0: Wheel<C>, w1: Wheel<C>, id: TaskId, count: usize)
    requires
        w0.wf(),
        w1.spec_batch_cancelled(w0, seq![id], count),
    ensures
        w1.spec_scheduled() == w0.spec_scheduled().remove(id@),
        count == (if w0.spec_scheduled().contains(id@) { 1usize } else { 0usize }),
{
    let s = seq![id];
    assert(id_set(s) =~= set![id@]) by {
        assert(s[0] == id);
    }
    assert(w1.spec_scheduled() =~= w0.spec_scheduled().remove(id@));
    if w0.spec_scheduled().contains(id@) {
        assert(w0.spec_scheduled().intersect(set![id@]) =~= set![id@]);
    } else {
        assert(w0.spec_scheduled().intersect(set![id@]) =~= Set::<u64>::empty());
    }
}

/// How many advances take an L0 counter at `cur` to slot `slot` of `slots`
/// slots: between 1 and `slots`.
pub open spec fn ticks_until_slot(cur: int, slot: int, slots: int) -> int {
    if slot > cur % slots {
        slot - cur % slots
    } else {
        slot - cur % slots + slots
    }
}

/// After `j` of the next `slots` advances the counter is at slot `slot`
/// exactly when `j` is `ticks_until_slot`.
proof fn lemma_slot_reached(cur: int, j: int, slot: int, slots: int)
    requires
        0 < slots,
        0 <= slot < slots,
        0 <= cur,
        1 <= j <= slots,
    ensures
        ((cur + j) % slots == slot) == (j == ticks_until_slot(cur, slot, slots)),
        1 <= ticks_until_slot(cur, slot, slots) <= slots,
{
    let c = cur % slots;
    let q = cur / slots;
    lemma_mod_bound(cur, slots);
    lemma_fundamental_div_mod(cur, slots);
    assert(cur + j == slots * q + (c + j));
    lemma_mod_multiples_vanish(q, c + j, slots);
    if c + j < slots {
        lemma_small_mod((c + j) as nat, slots as nat);
    } else {
        assert(c + j == slots * 1 + (c + j - slots));
        lemma_mod_multiples_vanish(1, c + j - slots, slots);
        lemma_small_mod((c + j - slots) as nat, slots as nat);
    }
}

/// Step `i` of a run: `ws[i + 1]` is `ws[i]` advanced, which returned `fired[i]`.
pub open spec fn is_advance_step<C>(ws: Seq<Wheel<C>>, fired: Seq<Seq<WheelEntry<C>>>, i: int) -> bool {
    ws[i + 1].spec_advanced(ws[i], fired[i])
}

/// `ws` is a run of advances from `ws[0]`, `fired[i]` what step `i` returned.
pub open spec fn is_advance_run<C>(ws: Seq<Wheel<C>>, fired: Seq<Seq<WheelEntry<C>>>) -> bool {
    &&& ws.len() == fired.len() + 1
    &&& ws[0].wf()
    &&& forall|i: int| 0 <= i < fired.len() ==> #[trigger] is_advance_step(ws, fired, i)
}

/// The first `m` steps of a run leave an L0 task that has not reached its slot
/// in place: not fired, same task, same layer and slot.
proof fn lemma_l0_task_waits<C>(ws: Seq<Wheel<C>>, fired: Seq<Seq<WheelEntry<C>>>, n: u64, m: int)
    requires
        is_advance_run(ws, fired),
        ws[0].spec_scheduled().contains(n),
        ws[0].spec_index()[n].level == 0,
        0 <= m <= fired.len(),
        m < ticks_until_slot(
            ws[0].spec_current(0) as int,
            ws[0].spec_index()[n].slot_index as int,
            ws[0].spec_slot_count(0) as int,
        ),
    ensures
        forall|i: int| 0 <= i <= m ==> {
            &&& (#[trigger] ws[i]).wf()
            &&& ws[i].spec_current(0) == ws[0].spec_current(0) + i
            &&& ws[i].spec_slot_count(0) == ws[0].spec_slot_count(0)
            &&& ws[i].spec_scheduled().contains(n)
            &&& ws[i].spec_task(n) == ws[0].spec_task(n)
            &&& ws[i].spec_index()[n].level == 0
            &&& ws[i].spec_index()[n].slot_index == ws[0].spec_index()[n].slot_index
        },
        forall|i: int| 0 <= i < m ==> !entry_ids(#[trigger] fired[i]).contains(n),
    decreases m,
{
    ws[0].lemma_wf_facts();
    if m > 0 {
        lemma_l0_task_waits(ws, fired, n, m - 1);
        let w = ws[m - 1];
        let w2 = ws[m];
        assert(is_advance_step(ws, fired, m - 1));
        w2.lemma_same_params(w);
        let s = ws[0].spec_index()[n].slot_index as int;
        let slots = ws[0].spec_slot_count(0) as int;
        lemma_slot_reached(ws[0].spec_current(0) as int, m, s, slots);
        assert(w.spec_fired_slot() == (ws[0].spec_current(0) + m) % slots);
        assert(!w.spec_slot_ids(0, w.spec_fired_slot()).contains(n));
        assert(!w.spec_swept_ids().contains(n));
        assert(!entry_ids(fired[m - 1]).contains(n));
    }
}

/// A task in L0 fires on the advance that brings the L0 counter to its slot,
/// `ticks_until_slot` advances on, and not before; until then it stays where
/// and as it is. When it fires, a periodic task stays scheduled and a one-shot
/// task is gone.
pub proof fn law_l0_task_fires_on_its_tick<C>(ws: Seq<Wheel<C>>, fired: Seq<Seq<WheelEntry<C>>>, n: u64)
    requires
        is_advance_run(ws, fired),
        ws[0].spec_scheduled().contains(n),
        ws[0].spec_index()[n].level == 0,
    ensures
        ({
            let k = ticks_until_slot(
                ws[0].spec_current(0) as int,
                ws[0].spec_index()[n].slot_index as int,
                ws[0].spec_slot_count(0) as int,
            );
            &&& 1 <= k <= ws[0].spec_slot_count(0)
            &&& forall|i: int| 0 <= i < fired.len() && i + 1 < k ==> !entry_ids(#[trigger] fired[i]).contains(n)
            &&& forall|i: int| 0 <= i < ws.len() && i < k ==> {
                &&& (#[trigger] ws[i]).spec_scheduled().contains(n)
                &&& ws[i].spec_task(n) == ws[0].spec_task(n)
                &&& ws[i].spec_index()[n].level == 0
                &&& ws[i].spec_index()[n].slot_index == ws[0].spec_index()[n].slot_index
            }
            &&& k <= fired.len() ==> {
                &&& entry_ids(fired[k - 1]).contains(n)
                &&& ws[k].spec_scheduled().contains(n) == (ws[0].spec_task(n).task_type is Periodic)
            }
        }),
{
    ws[0].lemma_wf_facts();
    let s = ws[0].spec_index()[n].slot_index as int;
    let slots = ws[0].spec_slot_count(0) as int;
    let cur = ws[0].spec_current(0) as int;
    let k = ticks_until_slot(cur, s, slots);
    lemma_slot_reached(cur, 1, s, slots);
    let m = if k - 1 < fired.len() { k - 1 } else { fired.len() as int };
    lemma_l0_task_waits(ws, fired, n, m);
    if k <= fired.len() {
        let w = ws[k - 1];
        let w2 = ws[k];
        assert(is_advance_step(ws, fired, k - 1));
        lemma_slot_reached(cur, k, s, slots);
        assert(w.spec_fired_slot() == (cur + k) % slots);
        assert(w.spec_slot_ids(0, w.spec_fired_slot()).contains(n));
        assert(entry_ids(fired[k - 1]).contains(n));
    }
}

/// A task placed where `spec_target` puts a delay below the L0 span, from a
/// wheel with the counters and parameters of `w0`, fires on exactly the advance
/// that the delay in whole L0 ticks gives, and not before.
proof fn lemma_targeted_task_fires_after_its_ticks<C>(
    w0: Wheel<C>,
    span: u64,
    ws: Seq<Wheel<C>>,
    fired: Seq<Seq<WheelEntry<C>>>,
    id: u64,
)
    requires
        w0.wf(),
        span <= MAX_SPAN_NS,
        span < w0.spec_l0_capacity_ns(),
        is_advance_run(ws, fired),
        ws[0].spec_same_frame(w0),
        ws[0].spec_scheduled().contains(id),
        ws[0].spec_index()[id].level == w0.spec_target(span).0,
        ws[0].spec_index()[id].slot_index == w0.spec_target(span).3,
    ensures
        ({
            let t = ticks_for(span, w0.spec_tick_ns(0)) as int;
            &&& forall|i: int| 0 <= i < fired.len() && i + 1 < t ==> !entry_ids(#[trigger] fired[i]).contains(id)
            &&& t <= fired.len() ==> entry_ids(fired[t - 1]).contains(id)
        }),
{
    w0.lemma_wf_facts();
    ws[0].lemma_same_params(w0);
    let tick = w0.spec_tick_ns(0);
    let slots = w0.spec_slot_count(0) as int;
    let cur = w0.spec_current(0) as int;
    let t = ticks_for(span, tick) as int;
    assert(span / tick < slots) by (nonlinear_arith)
        requires
            span < slots * tick,
            tick >= 1,
    ;
    assert(span / tick <= span) by (nonlinear_arith)
        requires
            tick >= 1,
    ;
    assert(1 <= t <= slots);
    assert(t <= span || t == 1);
    assert(cur + t <= u64::MAX);
    assert(w0.spec_layer_for(span) == (0u8, t as u64, 0u32));
    let deadline = (w0.spec_current(0) + t) as u64;
    assert(deadline == cur + t);
    assert(0 <= (cur + t) % slots < slots) by {
        lemma_mod_bound(cur + t, slots);
    }
    assert(ws[0].spec_index()[id].slot_index == (cur + t) % slots);
    lemma_slot_reached(cur, t, (cur + t) % slots, slots);
    law_l0_task_fires_on_its_tick(ws, fired, id);
}

/// A task inserted with a delay below the L0 span fires on exactly the
/// advance that its delay in whole L0 ticks (at least one) gives, and not
/// before.
pub proof fn law_inserted_task_fires_after_its_ticks<C>(
    w0: Wheel<C>,
    handle: TaskHandle,
    task: TimerTask<C>,
    ws: Seq<Wheel<C>>,
    fired: Seq<Seq<WheelEntry<C>>>,
)
    requires
        w0.wf(),
        task_fits(task),
        nanos_of(task.spec_delay()) < w0.spec_l0_capacity_ns(),
        is_advance_run(ws, fired),
        ws[0].spec_inserted(w0, handle, task),
    ensures
        ({
            let t = ticks_for(nanos_of(task.spec_delay()), w0.spec_tick_ns(0)) as int;
            let id = handle.spec_id()@;
            &&& forall|i: int| 0 <= i < fired.len() && i + 1 < t ==> !entry_ids(#[trigger] fired[i]).contains(id)
            &&& t <= fired.len() ==> entry_ids(fired[t - 1]).contains(id)
        }),
{
    let id = handle.spec_id()@;
    assert(ws[0].spec_scheduled().contains(id));
    lemma_targeted_task_fires_after_its_ticks(w0, nanos_of(task.spec_delay()), ws, fired, id);
}

/// A scheduled task postponed by a delay below the L0 span fires on exactly
/// the advance that the new delay in whole L0 ticks (at least one) gives, and
/// not before.
pub proof fn law_postponed_task_fires_after_its_ticks<C>(
    w0: Wheel<C>,
    id: TaskId,
    new_delay: Duration,
    new_callback: Option<C>,
    r: bool,
    ws: Seq<Wheel<C>>,
    fired: Seq<Seq<WheelEntry<C>>>,
)
    requires
        w0.wf(),
        w0.spec_scheduled().contains(id@),
        nanos_of(new_delay) <= MAX_SPAN_NS,
        nanos_of(new_delay) < w0.spec_l0_capacity_ns(),
        is_advance_run(ws, fired),
        ws[0].spec_postponed(w0, id, new_delay, new_callback, r),
    ensures
        r,
        ({
            let t = ticks_for(nanos_of(new_delay), w0.spec_tick_ns(0)) as int;
            &&& forall|i: int| 0 <= i < fired.len() && i + 1 < t ==> !entry_ids(#[trigger] fired[i]).contains(id@)
            &&& t <= fired.len() ==> entry_ids(fired[t - 1]).contains(id@)
        }),
{
    lemma_targeted_task_fires_after_its_ticks(w0, nanos_of(new_delay), ws, fired, id@);
}

/// From one L1 tick to the next, the ticks left until slot `slot` drop by one,
/// or, when the next tick is that slot's, start again at a full turn.
proof fn lemma_ticks_until_step(c: int, slot: int, slots: int)
    requires
        0 < slots,
        0 <= slot < slots,
        0 <= c,
    ensures
        ((c + 1) % slots == slot) == (ticks_until_slot(c, slot, slots) == 1),
        (c + 1) % slots == slot ==> ticks_until_slot(c + 1, slot, slots) == slots,
        (c + 1) % slots != slot ==> ticks_until_slot(c + 1, slot, slots) == ticks_until_slot(c, slot, slots) - 1,
{
    lemma_slot_reached(c, 1, slot, slots);
    let m = c % slots;
    lemma_mod_bound(c, slots);
    lemma_fundamental_div_mod(c, slots);
    let q = c / slots;
    assert(c + 1 == slots * q + (m + 1));
    lemma_mod_multiples_vanish(q, m + 1, slots);
    if m + 1 < slots {
        lemma_small_mod((m + 1) as nat, slots as nat);
    } else {
        assert(m + 1 == slots * 1 + 0);
        lemma_mod_multiples_vanish(1, 0, slots);
        lemma_small_mod(0, slots as nat);
    }
}

/// The L0 tick at which a task in L1 slot `slot` with `rounds` rounds left
/// moves down to L0: that of the L1 tick at which the L1 counter, now at
/// `c1`, reaches the slot for the `rounds + 1`-th time.
pub open spec fn l1_due_tick(c1: int, slot: int, rounds: int, slots1: int, ratio: int) -> int {
    (c1 + ticks_until_slot(c1, slot, slots1) + rounds * slots1) * ratio
}

/// `e` is `base` with some number of rounds.
pub open spec fn same_but_rounds<C>(e: WheelEntry<C>, base: WheelEntry<C>) -> bool {
    e == (WheelEntry { rounds: e.rounds, ..base })
}

/// One advance from an L0 counter at `cur` with L1 counter `cur / ratio`:
/// either it does not reach a multiple of the ratio, and the L0 counter stays
/// below the next one, or it does and lands on it.
proof fn lemma_cross_step(cur: int, ratio: int)
    requires
        ratio >= 1,
        cur >= 0,
    ensures
        (cur + 1) % ratio != 0 ==> (cur + 1) / ratio == cur / ratio && cur + 1 < (cur / ratio + 1) * ratio,
        (cur + 1) % ratio == 0 ==> (cur + 1) / ratio == cur / ratio + 1 && cur + 1 == (cur / ratio + 1) * ratio,
{
    lemma_fundamental_div_mod(cur, ratio);
    lemma_mod_bound(cur, ratio);
    lemma_fundamental_div_mod(cur + 1, ratio);
    lemma_mod_bound(cur + 1, ratio);
    let q = cur / ratio;
    let r = cur % ratio;
    let q1 = (cur + 1) / ratio;
    let r1 = (cur + 1) % ratio;
    assert(cur + 1 == ratio * q + (r + 1));
    if r + 1 < ratio {
        assert(q1 == q && r1 == r + 1) by (nonlinear_arith)
            requires
                cur + 1 == ratio * q + (r + 1),
                cur + 1 == ratio * q1 + r1,
                0 <= r1 < ratio,
                0 <= r + 1 < ratio,
        ;
        assert(cur + 1 < (q + 1) * ratio) by (nonlinear_arith)
            requires
                cur + 1 == ratio * q + (r + 1),
                r + 1 < ratio,
        ;
    } else {
        assert(ratio * q + ratio == ratio * (q + 1)) by (nonlinear_arith);
        assert(q1 == q + 1 && r1 == 0) by (nonlinear_arith)
            requires
                cur + 1 == ratio * (q + 1),
                cur + 1 == ratio * q1 + r1,
                0 <= r1 < ratio,
        ;
        assert(cur + 1 == (q + 1) * ratio) by (nonlinear_arith)
            requires
                cur + 1 == ratio * (q + 1),
        ;
    }
}

/// Until the L0 counter reaches the task's `l1_due_tick`, a task in L1 stays
/// in its slot, as it was but for its rounds, and the due tick computed from
/// the current counters and rounds stays the same.
proof fn lemma_l1_task_waits<C>(ws: Seq<Wheel<C>>, fired: Seq<Seq<WheelEntry<C>>>, n: u64, m: int)
    requires
        is_advance_run(ws, fired),
        ws[0].spec_scheduled().contains(n),
        ws[0].spec_index()[n].level == 1,
        0 <= m <= fired.len(),
        ws[0].spec_current(0) + m < l1_due_tick(
            ws[0].spec_current(1) as int,
            ws[0].spec_index()[n].slot_index as int,
            ws[0].spec_task(n).rounds as int,
            ws[0].spec_slot_count(1) as int,
            ws[0].spec_ratio() as int,
        ),
    ensures
        forall|i: int| 0 <= i <= m ==> {
            &&& (#[trigger] ws[i]).wf()
            &&& ws[i].spec_current(0) == ws[0].spec_current(0) + i
            &&& ws[i].spec_slot_count(0) == ws[0].spec_slot_count(0)
            &&& ws[i].spec_slot_count(1) == ws[0].spec_slot_count(1)
            &&& ws[i].spec_ratio() == ws[0].spec_ratio()
            &&& ws[i].spec_scheduled().contains(n)
            &&& ws[i].spec_index()[n].level == 1
            &&& ws[i].spec_index()[n].slot_index == ws[0].spec_index()[n].slot_index
            &&& same_but_rounds(ws[i].spec_task(n), ws[0].spec_task(n))
            &&& l1_due_tick(
                ws[i].spec_current(1) as int,
                ws[i].spec_index()[n].slot_index as int,
                ws[i].spec_task(n).rounds as int,
                ws[0].spec_slot_count(1) as int,
                ws[0].spec_ratio() as int,
            ) == l1_due_tick(
                ws[0].spec_current(1) as int,
                ws[0].spec_index()[n].slot_index as int,
                ws[0].spec_task(n).rounds as int,
                ws[0].spec_slot_count(1) as int,
                ws[0].spec_ratio() as int,
            )
        },
        forall|i: int| 0 <= i < m ==> !entry_ids(#[trigger] fired[i]).contains(n),
    decreases m,
{
    ws[0].lemma_wf_facts();
    if m > 0 {
        lemma_l1_task_waits(ws, fired, n, m - 1);
        let w = ws[m - 1];
        let w2 = ws[m];
        assert(is_advance_step(ws, fired, m - 1));
        assert(w2.spec_advanced(w, fired[m - 1]));
        w2.lemma_same_params(w);
        w.lemma_wf_facts();
        w2.lemma_wf_facts();
        let s = ws[0].spec_index()[n].slot_index as int;
        let slots1 = ws[0].spec_slot_count(1) as int;
        let ratio = ws[0].spec_ratio() as int;
        let cur = w.spec_current(0) as int;
        let c1 = w.spec_current(1) as int;
        let rho = w.spec_task(n).rounds as int;
        let t = l1_due_tick(
            ws[0].spec_current(1) as int,
            s,
            ws[0].spec_task(n).rounds as int,
            slots1,
            ratio,
        );
        assert(c1 == cur / ratio);
        lemma_cross_step(cur, ratio);
        lemma_ticks_until_step(c1, s, slots1);
        lemma_slot_reached(c1, 1, s, slots1);
        let u = ticks_until_slot(c1, s, slots1);
        assert(t == (c1 + u + rho * slots1) * ratio);
        assert(!w.spec_slot_ids(0, w.spec_fired_slot()).contains(n));
        assert(!entry_ids(fired[m - 1]).contains(n));
        if (cur + 1) % ratio != 0 {
            assert(!w.spec_crosses());
            assert(!w.spec_swept_ids().contains(n));
            assert(w2.spec_current(1) == c1);
        } else {
            assert(w.spec_crosses());
            assert(w.spec_swept_slot() == (c1 + 1) % slots1);
            assert(w2.spec_current(1) == c1 + 1);
            if (c1 + 1) % slots1 == s {
                assert(w.spec_swept_ids().contains(n));
                if rho == 0 {
                    assert(rho * slots1 == 0) by (nonlinear_arith)
                        requires
                            rho == 0,
                    ;
                    assert(t == (c1 + 1) * ratio);
                    assert(false);
                }
                assert(w2.spec_task(n) == one_round_less(w.spec_task(n)));
                assert((c1 + 1 + slots1 + (rho - 1) * slots1) * ratio == (c1 + 1 + rho * slots1) * ratio) by (nonlinear_arith);
            } else {
                assert(!w.spec_swept_ids().contains(n));
                assert(u >= 2);
            }
        }
    }
}

/// A task in L1 moves down to L0 on the advance that brings the L0 counter to
/// its `l1_due_tick`, and not before: until then it stays in its L1 slot, as it
/// was but for its rounds, and does not fire. It arrives in L0 with no rounds
/// left, in the slot `spec_demote_slot` gives, from where it fires as every L0
/// task does.
pub proof fn law_l1_task_moves_down_on_its_tick<C>(ws: Seq<Wheel<C>>, fired: Seq<Seq<WheelEntry<C>>>, n: u64)
    requires
        is_advance_run(ws, fired),
        ws[0].spec_scheduled().contains(n),
        ws[0].spec_index()[n].level == 1,
    ensures
        ({
            let due = l1_due_tick(
                ws[0].spec_current(1) as int,
                ws[0].spec_index()[n].slot_index as int,
                ws[0].spec_task(n).rounds as int,
                ws[0].spec_slot_count(1) as int,
                ws[0].spec_ratio() as int,
            );
            let cur = ws[0].spec_current(0) as int;
            &&& due > cur
            &&& forall|i: int| 0 <= i < fired.len() && cur + i + 1 <= due ==> !entry_ids(#[trigger] fired[i]).contains(n)
            &&& forall|i: int| 0 <= i < ws.len() && cur + i < due ==> {
                &&& (#[trigger] ws[i]).spec_scheduled().contains(n)
                &&& ws[i].spec_index()[n].level == 1
                &&& ws[i].spec_index()[n].slot_index == ws[0].spec_index()[n].slot_index
                &&& same_but_rounds(ws[i].spec_task(n), ws[0].spec_task(n))
            }
            &&& due - cur <= fired.len() ==> {
                &&& ws[due - cur].spec_scheduled().contains(n)
                &&& ws[due - cur].spec_index()[n].level == 0
                &&& ws[due - cur].spec_task(n) == (WheelEntry { rounds: 0, ..ws[0].spec_task(n) })
                &&& ws[due - cur].spec_index()[n].slot_index == ws[due - cur].spec_demote_slot(
                    ws[due - cur].spec_task(n),
                )
            }
        }),
{
    ws[0].lemma_wf_facts();
    let s = ws[0].spec_index()[n].slot_index as int;
    let slots1 = ws[0].spec_slot_count(1) as int;
    let ratio = ws[0].spec_ratio() as int;
    let cur = ws[0].spec_current(0) as int;
    let c1 = ws[0].spec_current(1) as int;
    let r = ws[0].spec_task(n).rounds as int;
    let due = l1_due_tick(c1, s, r, slots1, ratio);
    lemma_slot_reached(c1, 1, s, slots1);
    let u = ticks_until_slot(c1, s, slots1);
    lemma_cross_step(cur, ratio);
    assert(due >= (c1 + 1) * ratio) by (nonlinear_arith)
        requires
            due == (c1 + u + r * slots1) * ratio,
            u >= 1,
            r >= 0,
            slots1 >= 1,
            ratio >= 1,
    ;
    assert(cur + 1 <= (c1 + 1) * ratio);
    let m = if due - cur - 1 < fired.len() { due - cur - 1 } else { fired.len() as int };
    lemma_l1_task_waits(ws, fired, n, m);
    if due - cur - 1 < fired.len() {
        let j = due - cur;
        let w = ws[j - 1];
        let w2 = ws[j];
        assert(is_advance_step(ws, fired, j - 1));
        assert(w2.spec_advanced(w, fired[j - 1]));
        w.lemma_wf_facts();
        let cj = w.spec_current(0) as int;
        let c1j = w.spec_current(1) as int;
        let rho = w.spec_task(n).rounds as int;
        let uj = ticks_until_slot(c1j, s, slots1);
        lemma_slot_reached(c1j, 1, s, slots1);
        lemma_cross_step(cj, ratio);
        lemma_ticks_until_step(c1j, s, slots1);
        assert(c1j == cj / ratio);
        assert(due == (c1j + uj + rho * slots1) * ratio);
        assert(cj + 1 == due);
        assert(due >= (c1j + 1) * ratio) by (nonlinear_arith)
            requires
                due == (c1j + uj + rho * slots1) * ratio,
                uj >= 1,
                rho >= 0,
                slots1 >= 1,
                ratio >= 1,
        ;
        assert((cj + 1) % ratio == 0);
        assert(uj + rho * slots1 == 1) by (nonlinear_arith)
            requires
                (c1j + uj + rho * slots1) * ratio == (c1j + 1) * ratio,
                ratio >= 1,
        ;
        assert(rho * slots1 >= 0) by (nonlinear_arith)
            requires
                rho >= 0,
                slots1 >= 1,
        ;
        assert(uj == 1);
        assert(rho * slots1 == 0);
        assert(rho == 0) by (nonlinear_arith)
            requires
                rho * slots1 == 0,
                slots1 >= 1,
                rho >= 0,
        ;
        assert(w.spec_crosses());
        assert(w.spec_swept_slot() == (c1j + 1) % slots1);
        assert(w.spec_swept_ids().contains(n));
        assert(w.spec_task(n) == (WheelEntry { rounds: 0, ..ws[0].spec_task(n) }));
    }
}

/// The L0 counter of each wheel of a run: one more per step.
proof fn lemma_run_current<C>(ws: Seq<Wheel<C>>, fired: Seq<Seq<WheelEntry<C>>>, j: int)
    requires
        is_advance_run(ws, fired),
        0 <= j <= fired.len(),
    ensures
        ws[j].spec_current(0) == ws[0].spec_current(0) + j,
    decreases j,
{
    if j > 0 {
        lemma_run_current(ws, fired, j - 1);
        assert(is_advance_step(ws, fired, j - 1));
    }
}

/// A task placed `t` L1 ticks on from L1 tick `c1`, in slot `(c1 + t) % turn`
/// with `(t - 1) / turn` rounds, is `t` ticks from the sweep that moves it down.
proof fn lemma_l1_placement(c1: int, t: int, turn: int)
    requires
        c1 >= 0,
        t >= 1,
        turn >= 1,
        (t - 1) / turn < 0x1_0000_0000,
    ensures
        ({
            let rounds: int = if t < turn { 0 } else { ((t - 1) / turn) % 0x1_0000_0000 };
            let slot = (c1 + t) % turn;
            &&& 0 <= slot < turn
            &&& rounds == (t - 1) / turn
            &&& ticks_until_slot(c1, slot, turn) + rounds * turn == t
        }),
{
    let rounds: int = if t < turn { 0 } else { ((t - 1) / turn) % 0x1_0000_0000 };
    let slot = (c1 + t) % turn;
    assert(0 <= slot < turn) by {
        lemma_mod_bound(c1 + t, turn);
    }
    let q = (t - 1) / turn;
    let u = (t - 1) % turn + 1;
    lemma_fundamental_div_mod(t - 1, turn);
    lemma_mod_bound(t - 1, turn);
    if t < turn {
        assert(q == 0) by (nonlinear_arith)
            requires
                t - 1 == turn * q + (u - 1),
                0 <= u - 1 < turn,
                0 <= t - 1 < turn,
        ;
        lemma_slot_reached(c1, t, slot, turn);
        assert(ticks_until_slot(c1, slot, turn) + rounds * turn == t);
    } else {
        lemma_small_mod(q as nat, 0x1_0000_0000nat);
        assert(rounds == q);
        assert(c1 + t == turn * q + (c1 + u));
        lemma_mod_multiples_vanish(q, c1 + u, turn);
        lemma_slot_reached(c1, u, slot, turn);
        assert(ticks_until_slot(c1, slot, turn) == u);
        assert(ticks_until_slot(c1, slot, turn) + rounds * turn == t) by (nonlinear_arith)
            requires
                ticks_until_slot(c1, slot, turn) == u,
                rounds == q,
                t == turn * q + u,
        ;
    }
}

/// An L1 task whose sweeps take it down at the L1 tick of its deadline moves
/// down to L0 when the L0 counter reaches that tick and fires on the next
/// advance; it does not fire before.
proof fn lemma_l1_task_fires_at_its_deadline<C>(ws: Seq<Wheel<C>>, fired: Seq<Seq<WheelEntry<C>>>, id: u64)
    requires
        is_advance_run(ws, fired),
        ws[0].spec_scheduled().contains(id),
        ws[0].spec_index()[id].level == 1,
        l1_due_tick(
            ws[0].spec_current(1) as int,
            ws[0].spec_index()[id].slot_index as int,
            ws[0].spec_task(id).rounds as int,
            ws[0].spec_slot_count(1) as int,
            ws[0].spec_ratio() as int,
        ) == ws[0].spec_task(id).deadline_tick * ws[0].spec_ratio(),
    ensures
        ({
            let due = ws[0].spec_task(id).deadline_tick * ws[0].spec_ratio();
            let cur = ws[0].spec_current(0) as int;
            &&& due > cur
            &&& forall|i: int| 0 <= i < fired.len() && cur + i + 1 <= due ==> !entry_ids(#[trigger] fired[i]).contains(id)
            &&& due - cur <= fired.len() ==> ws[due - cur].spec_index()[id].level == 0
            &&& due - cur < fired.len() ==> entry_ids(fired[due - cur]).contains(id)
        }),
{
    law_l1_task_moves_down_on_its_tick(ws, fired, id);
    let d = ws[0].spec_task(id).deadline_tick;
    let cur = ws[0].spec_current(0) as int;
    let ratio = ws[0].spec_ratio() as int;
    let due = d * ratio;
    if due - cur < fired.len() {
        let j = due - cur;
        lemma_run_current(ws, fired, j);
        lemma_run_params(ws, fired, j);
        lemma_run_suffix(ws, fired, j);
        let w = ws[j];
        let slots = w.spec_slot_count(0) as int;
        w.lemma_wf_facts();
        assert(w.spec_task(id).deadline_tick == d);
        assert(w.spec_current(0) == due);
        assert(w.spec_task(id).deadline_tick * w.spec_ratio() == due);
        assert(w.spec_index()[id].slot_index == (due + 1) % slots);
        assert(0 <= (due + 1) % slots < slots) by {
            lemma_mod_bound(due + 1, slots);
        }
        lemma_slot_reached(due, 1, (due + 1) % slots, slots);
        let ws2 = ws.subrange(j, ws.len() as int);
        let fired2 = fired.subrange(j, fired.len() as int);
        assert(ws2[0] == w);
        law_l0_task_fires_on_its_tick(ws2, fired2, id);
        assert(fired2[0] == fired[j]);
    }
}

/// A task placed where `spec_target` puts a delay of at least the L0 span, from
/// a wheel with the counters and parameters of `w0`, moves down to L0 when the
/// L0 counter reaches the L1 tick of its deadline and fires on the next
/// advance; it does not fire before.
proof fn lemma_targeted_l1_task_fires<C>(
    w0: Wheel<C>,
    span: u64,
    ws: Seq<Wheel<C>>,
    fired: Seq<Seq<WheelEntry<C>>>,
    id: u64,
)
    requires
        w0.wf(),
        span <= MAX_SPAN_NS,
        span >= w0.spec_l0_capacity_ns(),
        ({
            let t = ticks_for(span, w0.spec_tick_ns(1)) as int;
            let turn = w0.spec_slot_count(1) as int;
            (t - 1) / turn < 0x1_0000_0000
        }),
        is_advance_run(ws, fired),
        ws[0].spec_same_frame(w0),
        ws[0].spec_scheduled().contains(id),
        ws[0].spec_index()[id].level == w0.spec_target(span).0,
        ws[0].spec_index()[id].slot_index == w0.spec_target(span).3,
        ws[0].spec_task(id).deadline_tick == w0.spec_target(span).1,
        ws[0].spec_task(id).rounds == w0.spec_target(span).2,
    ensures
        ({
            let t = ticks_for(span, w0.spec_tick_ns(1)) as int;
            let due = (w0.spec_current(1) + t) * w0.spec_ratio();
            let cur = w0.spec_current(0) as int;
            &&& due > cur
            &&& forall|i: int| 0 <= i < fired.len() && cur + i + 1 <= due ==> !entry_ids(#[trigger] fired[i]).contains(id)
            &&& due - cur <= fired.len() ==> ws[due - cur].spec_index()[id].level == 0
            &&& due - cur < fired.len() ==> entry_ids(fired[due - cur]).contains(id)
        }),
{
    w0.lemma_wf_facts();
    ws[0].lemma_same_params(w0);
    let tick1 = w0.spec_tick_ns(1);
    let turn = w0.spec_slot_count(1) as int;
    let c1 = w0.spec_current(1) as int;
    let t = ticks_for(span, tick1) as int;
    assert(tick1 >= 1) by (nonlinear_arith)
        requires
            tick1 == w0.spec_ratio() * w0.spec_tick_ns(0),
            w0.spec_ratio() >= 1,
            w0.spec_tick_ns(0) >= 1,
    ;
    assert(span / tick1 <= span) by (nonlinear_arith)
        requires
            tick1 >= 1,
    ;
    assert(t <= span || t == 1);
    assert(c1 <= w0.spec_current(0)) by (nonlinear_arith)
        requires
            c1 == (w0.spec_current(0) as int) / (w0.spec_ratio() as int),
            w0.spec_ratio() >= 1,
            w0.spec_current(0) >= 0,
    ;
    assert(c1 + t <= u64::MAX);
    let rounds: int = if t < turn { 0 } else { ((t - 1) / turn) % 0x1_0000_0000 };
    assert(w0.spec_layer_for(span) == (1u8, t as u64, rounds as u32));
    let deadline = (w0.spec_current(1) + t) as u64;
    assert(deadline == c1 + t);
    let slot = (c1 + t) % turn;
    assert(0 <= slot < turn) by {
        lemma_mod_bound(c1 + t, turn);
    }
    assert(ws[0].spec_index()[id].slot_index == w0.spec_target(span).3);
    assert(ws[0].spec_index()[id].slot_index == slot);
    assert(ws[0].spec_index()[id].level == 1);
    assert(ws[0].spec_task(id).rounds == rounds);
    assert(ws[0].spec_scheduled().contains(id));
    lemma_l1_placement(c1, t, turn);
    assert(l1_due_tick(c1, slot, rounds, turn, w0.spec_ratio() as int) == (c1 + t) * w0.spec_ratio());
    assert(ws[0].spec_task(id).deadline_tick == c1 + t);
    lemma_l1_task_fires_at_its_deadline(ws, fired, id);
}

/// A task inserted with a delay of at least the L0 span goes to L1, moves down
/// to L0 when the L0 counter reaches the L1 tick of its deadline (the L1
/// counter plus its delay in whole L1 ticks), and fires on the next advance;
/// it does not fire before. The full turns it waits must fit in the 32-bit
/// round counter.
pub proof fn law_inserted_l1_task_fires_after_its_l1_deadline<C>(
    w0: Wheel<C>,
    handle: TaskHandle,
    task: TimerTask<C>,
    ws: Seq<Wheel<C>>,
    fired: Seq<Seq<WheelEntry<C>>>,
)
    requires
        w0.wf(),
        task_fits(task),
        nanos_of(task.spec_delay()) >= w0.spec_l0_capacity_ns(),
        ({
            let t = ticks_for(nanos_of(task.spec_delay()), w0.spec_tick_ns(1)) as int;
            let turn = w0.spec_slot_count(1) as int;
            (t - 1) / turn < 0x1_0000_0000
        }),
        is_advance_run(ws, fired),
        ws[0].spec_inserted(w0, handle, task),
    ensures
        ({
            let t = ticks_for(nanos_of(task.spec_delay()), w0.spec_tick_ns(1)) as int;
            let due = (w0.spec_current(1) + t) * w0.spec_ratio();
            let cur = w0.spec_current(0) as int;
            let id = handle.spec_id()@;
            &&& due > cur
            &&& forall|i: int| 0 <= i < fired.len() && cur + i + 1 <= due ==> !entry_ids(#[trigger] fired[i]).contains(id)
            &&& due - cur <= fired.len() ==> ws[due - cur].spec_index()[id].level == 0
            &&& due - cur < fired.len() ==> entry_ids(fired[due - cur]).contains(id)
        }),
{
    let id = handle.spec_id()@;
    assert(ws[0].spec_scheduled().contains(id));
    lemma_targeted_l1_task_fires(w0, nanos_of(task.spec_delay()), ws, fired, id);
}

/// A scheduled task postponed by a delay of at least the L0 span goes to L1,
/// moves down to L0 when the L0 counter reaches the L1 tick of its new
/// deadline (the L1 counter plus the new delay in whole L1 ticks), and fires on
/// the next advance; it does not fire before. The full turns it waits must fit
/// in the 32-bit round counter.
pub proof fn law_postponed_l1_task_fires_after_its_l1_deadline<C>(
    w0: Wheel<C>,
    id: TaskId,
    new_delay: Duration,
    new_callback: Option<C>,
    r: bool,
    ws: Seq<Wheel<C>>,
    fired: Seq<Seq<WheelEntry<C>>>,
)
    requires
        w0.wf(),
        w0.spec_scheduled().contains(id@),
        nanos_of(new_delay) <= MAX_SPAN_NS,
        nanos_of(new_delay) >= w0.spec_l0_capacity_ns(),
        ({
            let t = ticks_for(nanos_of(new_delay), w0.spec_tick_ns(1)) as int;
            let turn = w0.spec_slot_count(1) as int;
            (t - 1) / turn < 0x1_0000_0000
        }),
        is_advance_run(ws, fired),
        ws[0].spec_postponed(w0, id, new_delay, new_callback, r),
    ensures
        r,
        ({
            let t = ticks_for(nanos_of(new_delay), w0.spec_tick_ns(1)) as int;
            let due = (w0.spec_current(1) + t) * w0.spec_ratio();
            let cur = w0.spec_current(0) as int;
            &&& due > cur
            &&& forall|i: int| 0 <= i < fired.len() && cur + i + 1 <= due ==> !entry_ids(#[trigger] fired[i]).contains(id@)
            &&& due - cur <= fired.len() ==> ws[due - cur].spec_index()[id@].level == 0
            &&& due - cur < fired.len() ==> entry_ids(fired[due - cur]).contains(id@)
        }),
{
    lemma_targeted_l1_task_fires(w0, nanos_of(new_delay), ws, fired, id@);
}

/// The steps of a run from step `j` on are a run too.
proof fn lemma_run_suffix<C>(ws: Seq<Wheel<C>>, fired: Seq<Seq<WheelEntry<C>>>, j: int)
    requires
        is_advance_run(ws, fired),
        0 <= j <= fired.len(),
    ensures
        is_advance_run(ws.subrange(j, ws.len() as int), fired.subrange(j, fired.len() as int)),
        ws[j].wf(),
    decreases j,
{
    if j > 0 {
        lemma_run_suffix(ws, fired, j - 1);
        assert(is_advance_step(ws, fired, j - 1));
    }
    let ws2 = ws.subrange(j, ws.len() as int);
    let fired2 = fired.subrange(j, fired.len() as int);
    assert forall|i: int| 0 <= i < fired2.len() implies #[trigger] is_advance_step(ws2, fired2, i) by {
        assert(is_advance_step(ws, fired, i + j));
        assert(ws2[i + 1] == ws[i + j + 1]);
        assert(ws2[i] == ws[i + j]);
        assert(fired2[i] == fired[i + j]);
    }
}

/// Every wheel of a run has the parameters of the first.
proof fn lemma_run_params<C>(ws: Seq<Wheel<C>>, fired: Seq<Seq<WheelEntry<C>>>, j: int)
    requires
        is_advance_run(ws, fired),
        0 <= j <= fired.len(),
    ensures
        ws[j].spec_slot_count(0) == ws[0].spec_slot_count(0),
        ws[j].spec_slot_count(1) == ws[0].spec_slot_count(1),
        ws[j].spec_tick_ns(0) == ws[0].spec_tick_ns(0),
        ws[j].spec_tick_ns(1) == ws[0].spec_tick_ns(1),
        ws[j].spec_ratio() == ws[0].spec_ratio(),
        ws[j].spec_l0_capacity_ns() == ws[0].spec_l0_capacity_ns(),
        ws[j].spec_l1_capacity_ticks() == ws[0].spec_l1_capacity_ticks(),
    decreases j,
{
    if j > 0 {
        lemma_run_params(ws, fired, j - 1);
        assert(is_advance_step(ws, fired, j - 1));
        ws[j].lemma_same_params(ws[j - 1]);
    }
}

/// A periodic task whose interval is below the L0 span, once fired, fires
/// again exactly its interval in whole L0 ticks (at least one) later, and not
/// in between.
pub proof fn law_periodic_task_fires_every_interval<C>(
    ws: Seq<Wheel<C>>,
    fired: Seq<Seq<WheelEntry<C>>>,
    n: u64,
    j: int,
)
    requires
        is_advance_run(ws, fired),
        0 <= j < fired.len(),
        entry_ids(fired[j]).contains(n),
        ws[j].spec_task(n).task_type is Periodic,
        nanos_of(interval_of(ws[j].spec_task(n).task_type)) < ws[0].spec_l0_capacity_ns(),
    ensures
        ({
            let t = ticks_for(nanos_of(interval_of(ws[j].spec_task(n).task_type)), ws[0].spec_tick_ns(0)) as int;
            &&& forall|i: int| j < i < fired.len() && i < j + t ==> !entry_ids(#[trigger] fired[i]).contains(n)
            &&& j + t < fired.len() ==> entry_ids(fired[j + t]).contains(n)
        }),
{
    lemma_run_suffix(ws, fired, j);
    lemma_run_suffix(ws, fired, j + 1);
    let w = ws[j];
    let w1 = ws[j + 1];
    assert(is_advance_step(ws, fired, j));
    assert(w1.spec_advanced(w, fired[j]));
    w.lemma_wf_facts();
    ws[0].lemma_wf_facts();
    let span = nanos_of(interval_of(w.spec_task(n).task_type));
    lemma_run_params(ws, fired, j);
    let tick = w.spec_tick_ns(0);
    let slots = w.spec_slot_count(0) as int;
    let cur = w.spec_current(0) as int;
    let t = ticks_for(span, tick) as int;
    assert(span / tick < slots) by (nonlinear_arith)
        requires
            span < slots * tick,
            tick >= 1,
    ;
    assert(1 <= t <= slots);
    assert(w.spec_slot_ids(0, w.spec_fired_slot()).contains(n));
    let tg = w.spec_next_target(span);
    assert(w.spec_layer_for(span) == (0u8, t as u64, 0u32));
    assert(w.spec_scheduled().contains(n));
    assert(span <= MAX_SPAN_NS);
    assert(span / tick <= span) by (nonlinear_arith)
        requires
            tick >= 1,
    ;
    assert(t <= span || t == 1);
    assert(cur + 1 + t <= u64::MAX);
    let slot = (cur + 1 + t) % slots;
    assert(0 <= slot < slots) by {
        lemma_mod_bound(cur + 1 + t, slots);
    }
    assert(tg.0 == 0);
    assert(tg.3 == slot);
    assert(w1.spec_index()[n].level == 0);
    assert(w1.spec_index()[n].slot_index == slot);
    assert(w1.spec_current(0) == cur + 1);
    w1.lemma_same_params(w);
    lemma_slot_reached(cur + 1, t, slot, slots);
    let ws2 = ws.subrange(j + 1, ws.len() as int);
    let fired2 = fired.subrange(j + 1, fired.len() as int);
    assert(ws2[0] == w1);
    law_l0_task_fires_on_its_tick(ws2, fired2, n);
    assert forall|i: int| j < i < fired.len() && i < j + t implies !entry_ids(#[trigger] fired[i]).contains(n) by {
        assert(fired2[i - j - 1] == fired[i]);
    }
    if j + t < fired.len() {
        assert(fired2[t - 1] == fired[j + t]);
    }
}

/// Step `i` of `ws` cancels `ids[i]`, returning `rs[i]`.
pub open spec fn is_cancel_step<C>(ws: Seq<Wheel<C>>, ids: Seq<TaskId>, rs: Seq<bool>, i: int) -> bool {
    ws[i + 1].spec_cancelled(ws[i], ids[i], rs[i])
}

/// `ws` is a run of single cancels from `ws[0]`, one per number of `ids`, in
/// order; `rs[i]` is what cancel `i` returned.
pub open spec fn is_cancel_run<C>(ws: Seq<Wheel<C>>, ids: Seq<TaskId>, rs: Seq<bool>) -> bool {
    &&& ws.len() == ids.len() + 1
    &&& rs.len() == ids.len()
    &&& ws[0].wf()
    &&& forall|i: int| 0 <= i < ids.len() ==> #[trigger] is_cancel_step(ws, ids, rs, i)
}

/// How many of `rs` are true.
pub open spec fn count_true(rs: Seq<bool>) -> nat
    decreases rs.len(),
{
    if rs.len() == 0 {
        0
    } else {
        count_true(rs.drop_last()) + if rs.last() { 1nat } else { 0nat }
    }
}

/// The numbers of the first `k + 1` ids are those of the first `k` and the next.
proof fn lemma_id_set_take_step(ids: Seq<TaskId>, k: int)
    requires
        0 <= k < ids.len(),
    ensures
        id_set(ids.take(k + 1)) == id_set(ids.take(k)).insert(ids[k]@),
{
    assert forall|n: u64| id_set(ids.take(k + 1)).contains(n) implies id_set(ids.take(k)).insert(ids[k]@).contains(n) by {
        let j = choose|j: int| 0 <= j < k + 1 && (#[trigger] ids.take(k + 1)[j])@ == n;
        if j < k {
            assert(ids.take(k)[j] == ids.take(k + 1)[j]);
        }
    }
    assert forall|n: u64| id_set(ids.take(k)).insert(ids[k]@).contains(n) implies id_set(ids.take(k + 1)).contains(n) by {
        if n == ids[k]@ {
            assert(ids.take(k + 1)[k] == ids[k]);
        } else {
            let j = choose|j: int| 0 <= j < k && (#[trigger] ids.take(k)[j])@ == n;
            assert(ids.take(k + 1)[j] == ids.take(k)[j]);
        }
    }
    assert(id_set(ids.take(k + 1)) =~= id_set(ids.take(k)).insert(ids[k]@));
}

/// After the first `k` cancels of a run: the tasks numbered among the first
/// `k` ids are gone, as many cancels returned true as such tasks were
/// scheduled, and every other task is where and as it was.
proof fn lemma_cancel_run_prefix<C>(ws: Seq<Wheel<C>>, ids: Seq<TaskId>, rs: Seq<bool>, k: int)
    requires
        is_cancel_run(ws, ids, rs),
        0 <= k <= ids.len(),
    ensures
        ws[k].wf(),
        ws[k].spec_scheduled() == ws[0].spec_scheduled().difference(id_set(ids.take(k))),
        count_true(rs.take(k)) == ws[0].spec_scheduled().intersect(id_set(ids.take(k))).len(),
        ws[k].spec_others_same(ws[0], id_set(ids.take(k))),
    decreases k,
{
    let o = ws[0];
    o.lemma_scheduled_finite();
    if k == 0 {
        assert(id_set(ids.take(0)) =~= Set::<u64>::empty());
        assert(rs.take(0) =~= Seq::<bool>::empty());
        assert(o.spec_scheduled().intersect(Set::<u64>::empty()) =~= Set::<u64>::empty());
        assert(o.spec_scheduled().difference(Set::<u64>::empty()) =~= o.spec_scheduled());
    } else {
        lemma_cancel_run_prefix(ws, ids, rs, k - 1);
        assert(is_cancel_step(ws, ids, rs, k - 1));
        let seen = id_set(ids.take(k - 1));
        let x = ids[k - 1]@;
        lemma_id_set_take_step(ids, k - 1);
        let before = ws[k - 1];
        let after = ws[k];
        crate::wheel::lemma_count_step(o.spec_scheduled(), seen, x, rs[k - 1]);
        assert(rs.take(k).drop_last() =~= rs.take(k - 1));
        assert(rs.take(k).last() == rs[k - 1]);
        assert(after.spec_scheduled() =~= o.spec_scheduled().difference(seen.insert(x)));
        assert forall|n: u64| #[trigger] after.spec_index().contains_key(n) && !seen.insert(x).contains(n) implies {
            &&& o.spec_index().contains_key(n)
            &&& after.spec_task(n) == o.spec_task(n)
            &&& after.spec_index()[n].level == o.spec_index()[n].level
            &&& after.spec_index()[n].slot_index == o.spec_index()[n].slot_index
        } by {
            assert(!set![x].contains(n));
            assert(before.spec_index().contains_key(n));
        }
    }
}

/// A batch cancel does what cancelling its numbers one at a time, in order,
/// does: it returns how many of those cancels returned true, and leaves the
/// same tasks scheduled, each where and as the single cancels leave it.
pub proof fn law_cancel_batch_is_a_run_of_cancels<C>(
    wb: Wheel<C>,
    count: usize,
    ws: Seq<Wheel<C>>,
    ids: Seq<TaskId>,
    rs: Seq<bool>,
)
    requires
        is_cancel_run(ws, ids, rs),
        wb.spec_batch_cancelled(ws[0], ids, count),
    ensures
        count == count_true(rs),
        wb.spec_scheduled() == ws[ids.len() as int].spec_scheduled(),
        forall|n: u64| #[trigger] wb.spec_scheduled().contains(n) ==> {
            &&& wb.spec_task(n) == ws[ids.len() as int].spec_task(n)
            &&& wb.spec_index()[n].level == ws[ids.len() as int].spec_index()[n].level
            &&& wb.spec_index()[n].slot_index == ws[ids.len() as int].spec_index()[n].slot_index
        },
{
    let k = ids.len() as int;
    lemma_cancel_run_prefix(ws, ids, rs, k);
    assert(ids.take(k) =~= ids);
    assert(rs.take(k) =~= rs);
    let last = ws[k];
    assert forall|n: u64| #[trigger] wb.spec_scheduled().contains(n) implies {
        &&& wb.spec_task(n) == last.spec_task(n)
        &&& wb.spec_index()[n].level == last.spec_index()[n].level
        &&& wb.spec_index()[n].slot_index == last.spec_index()[n].slot_index
    } by {
        assert(!id_set(ids).contains(n));
        assert(last.spec_index().contains_key(n));
    }
}

/// Step `i` of `ws` inserts `tasks[i]` under `handles[i]`.
pub open spec fn is_insert_step<C>(ws: Seq<Wheel<C>>, handles: Seq<TaskHandle>, tasks: Seq<TimerTask<C>>, i: int) -> bool {
    ws[i + 1].spec_inserted(ws[i], handles[i], tasks[i])
}

/// `ws` is a run of single inserts from `ws[0]`, one per task, in order.
pub open spec fn is_insert_run<C>(ws: Seq<Wheel<C>>, handles: Seq<TaskHandle>, tasks: Seq<TimerTask<C>>) -> bool {
    &&& ws.len() == handles.len() + 1
    &&& tasks.len() == handles.len()
    &&& ws[0].wf()
    &&& forall|i: int| 0 <= i < handles.len() ==> #[trigger] is_insert_step(ws, handles, tasks, i)
}

/// After the first `k` inserts of a run: the old tasks and the first `k`
/// handles' numbers are scheduled, each new task as scheduling it from
/// `ws[0]` gives, the old ones where and as they were.
proof fn lemma_insert_run_prefix<C>(ws: Seq<Wheel<C>>, handles: Seq<TaskHandle>, tasks: Seq<TimerTask<C>>, k: int)
    requires
        is_insert_run(ws, handles, tasks),
        0 <= k <= handles.len(),
    ensures
        ws[k].wf(),
        ws[k].spec_same_frame(ws[0]),
        forall|n: u64| #[trigger] ws[k].spec_scheduled().contains(n) <==> (ws[0].spec_scheduled().contains(n)
            || exists|j: int| 0 <= j < k && (#[trigger] handles[j]).spec_id()@ == n),
        forall|j: int| 0 <= j < k ==> {
            &&& ws[k].spec_task((#[trigger] handles[j]).spec_id()@) == ws[0].spec_scheduled_entry(
                handles[j].spec_id(),
                tasks[j].spec_task_type(),
                tasks[j].spec_delay(),
                tasks[j].spec_callback(),
            )
            &&& ws[k].spec_index()[handles[j].spec_id()@].level == ws[0].spec_target(nanos_of(tasks[j].spec_delay())).0
            &&& ws[k].spec_index()[handles[j].spec_id()@].slot_index == ws[0].spec_target(nanos_of(tasks[j].spec_delay())).3
        },
        forall|i: u64| #[trigger] ws[0].spec_index().contains_key(i) ==> {
            &&& ws[k].spec_task(i) == ws[0].spec_task(i)
            &&& ws[k].spec_index()[i] == ws[0].spec_index()[i]
        },
    decreases k,
{
    let o = ws[0];
    if k == 0 {
        o.lemma_same_frame_refl();
    } else {
        lemma_insert_run_prefix(ws, handles, tasks, k - 1);
        assert(is_insert_step(ws, handles, tasks, k - 1));
        let before = ws[k - 1];
        let after = ws[k];
        let id = handles[k - 1].spec_id()@;
        after.lemma_same_frame_trans(before, o);
        before.lemma_same_params(o);
        let span = nanos_of(tasks[k - 1].spec_delay());
        assert(before.spec_target(span) == o.spec_target(span));
        assert(after.spec_scheduled() =~= before.spec_scheduled().insert(id));
        assert forall|n: u64| #[trigger] after.spec_scheduled().contains(n) <==> (o.spec_scheduled().contains(n)
            || exists|j: int| 0 <= j < k && (#[trigger] handles[j]).spec_id()@ == n) by {
            if after.spec_scheduled().contains(n) && n != id && !o.spec_scheduled().contains(n) {
                assert(before.spec_scheduled().contains(n));
                let j = choose|j: int| 0 <= j < k - 1 && (#[trigger] handles[j]).spec_id()@ == n;
                assert(0 <= j < k);
            }
            if exists|j: int| 0 <= j < k && (#[trigger] handles[j]).spec_id()@ == n {
                let j = choose|j: int| 0 <= j < k && (#[trigger] handles[j]).spec_id()@ == n;
                if j < k - 1 {
                    assert(before.spec_scheduled().contains(n));
                }
            }
        }
        assert forall|j: int| 0 <= j < k implies {
            &&& after.spec_task((#[trigger] handles[j]).spec_id()@) == o.spec_scheduled_entry(
                handles[j].spec_id(),
                tasks[j].spec_task_type(),
                tasks[j].spec_delay(),
                tasks[j].spec_callback(),
            )
            &&& after.spec_index()[handles[j].spec_id()@].level == o.spec_target(nanos_of(tasks[j].spec_delay())).0
            &&& after.spec_index()[handles[j].spec_id()@].slot_index == o.spec_target(nanos_of(tasks[j].spec_delay())).3
        } by {
            if j < k - 1 {
                assert(before.spec_scheduled().contains(handles[j].spec_id()@));
                assert(before.spec_index().contains_key(handles[j].spec_id()@));
            }
        }
        assert forall|i: u64| #[trigger] o.spec_index().contains_key(i) implies {
            &&& after.spec_task(i) == o.spec_task(i)
            &&& after.spec_index()[i] == o.spec_index()[i]
        } by {
            assert(before.spec_index().contains_key(i));
        }
    }
}

/// A batch registration does what registering its tasks one at a time, in
/// order, does: the same tasks are scheduled afterwards, each with the same
/// entry, in the same layer and slot.
pub proof fn law_insert_batch_is_a_run_of_inserts<C>(
    wb: Wheel<C>,
    ws: Seq<Wheel<C>>,
    handles: Seq<TaskHandle>,
    tasks: Seq<TimerTask<C>>,
)
    requires
        is_insert_run(ws, handles, tasks),
        wb.spec_batch_inserted(ws[0], handles, tasks),
    ensures
        wb.spec_scheduled() == ws[handles.len() as int].spec_scheduled(),
        forall|n: u64| #[trigger] wb.spec_scheduled().contains(n) ==> {
            &&& wb.spec_task(n) == ws[handles.len() as int].spec_task(n)
            &&& wb.spec_index()[n].level == ws[handles.len() as int].spec_index()[n].level
            &&& wb.spec_index()[n].slot_index == ws[handles.len() as int].spec_index()[n].slot_index
        },
{
    let k = handles.len() as int;
    let o = ws[0];
    let last = ws[k];
    lemma_insert_run_prefix(ws, handles, tasks, k);
    assert(wb.spec_scheduled() =~= last.spec_scheduled());
    assert forall|n: u64| #[trigger] wb.spec_scheduled().contains(n) implies {
        &&& wb.spec_task(n) == last.spec_task(n)
        &&& wb.spec_index()[n].level == last.spec_index()[n].level
        &&& wb.spec_index()[n].slot_index == last.spec_index()[n].slot_index
    } by {
        if o.spec_index().contains_key(n) {
        } else {
            let j = choose|j: int| 0 <= j < k && (#[trigger] handles[j]).spec_id()@ == n;
        }
    }
}

/// A periodic task whose interval is at least the L0 span, once fired, goes
/// to L1 one interval on, counted from the L1 counter as it was when it fired:
/// it moves down to L0 when the L0 counter reaches the L1 tick of that
/// deadline and fires on the next advance, and not in between. The full turns
/// it waits must fit in the 32-bit round counter.
pub proof fn law_periodic_l1_task_fires_every_interval<C>(
    ws: Seq<Wheel<C>>,
    fired: Seq<Seq<WheelEntry<C>>>,
    n: u64,
    j: int,
)
    requires
        is_advance_run(ws, fired),
        0 <= j < fired.len(),
        entry_ids(fired[j]).contains(n),
        ws[j].spec_task(n).task_type is Periodic,
        nanos_of(interval_of(ws[j].spec_task(n).task_type)) >= ws[0].spec_l0_capacity_ns(),
        ({
            let t = ticks_for(nanos_of(interval_of(ws[j].spec_task(n).task_type)), ws[0].spec_tick_ns(1)) as int;
            (t - 1) / (ws[0].spec_slot_count(1) as int) < 0x1_0000_0000
        }),
    ensures
        ({
            let t = ticks_for(nanos_of(interval_of(ws[j].spec_task(n).task_type)), ws[0].spec_tick_ns(1)) as int;
            let due = (ws[j].spec_current(1) + t) * ws[0].spec_ratio();
            let cur = ws[j].spec_current(0) as int;
            &&& due > cur
            &&& forall|i: int| j < i < fired.len() && i < j + (due - cur) ==> !entry_ids(#[trigger] fired[i]).contains(n)
            &&& j + (due - cur) < fired.len() ==> entry_ids(fired[j + (due - cur)]).contains(n)
        }),
{
    lemma_run_suffix(ws, fired, j);
    lemma_run_suffix(ws, fired, j + 1);
    lemma_run_params(ws, fired, j);
    let w = ws[j];
    let w1 = ws[j + 1];
    assert(is_advance_step(ws, fired, j));
    assert(w1.spec_advanced(w, fired[j]));
    w.lemma_wf_facts();
    w1.lemma_wf_facts();
    w1.lemma_same_params(w);
    let span = nanos_of(interval_of(w.spec_task(n).task_type));
    let tick1 = w.spec_tick_ns(1);
    let turn = w.spec_slot_count(1) as int;
    let ratio = w.spec_ratio() as int;
    let cur = w.spec_current(0) as int;
    let c1 = w.spec_current(1) as int;
    let t = ticks_for(span, tick1) as int;
    assert(w.spec_slot_ids(0, w.spec_fired_slot()).contains(n));
    assert(w.spec_scheduled().contains(n));
    assert(span <= MAX_SPAN_NS);
    assert(tick1 >= 1) by (nonlinear_arith)
        requires
            tick1 == w.spec_ratio() * w.spec_tick_ns(0),
            w.spec_ratio() >= 1,
            w.spec_tick_ns(0) >= 1,
    ;
    assert(span / tick1 <= span) by (nonlinear_arith)
        requires
            tick1 >= 1,
    ;
    assert(t <= span || t == 1);
    assert(c1 <= cur) by (nonlinear_arith)
        requires
            c1 == cur / ratio,
            ratio >= 1,
            cur >= 0,
    ;
    assert(c1 + t <= u64::MAX);
    lemma_l1_placement(c1, t, turn);
    let rounds: int = if t < turn { 0 } else { ((t - 1) / turn) % 0x1_0000_0000 };
    let slot = (c1 + t) % turn;
    assert(w.spec_layer_for(span) == (1u8, t as u64, rounds as u32));
    let tg = w.spec_next_target(span);
    assert(tg.0 == 1);
    assert(tg.1 == c1 + t);
    assert(tg.2 == rounds);
    assert(tg.3 == slot);
    assert(w1.spec_task(n).deadline_tick == c1 + t);
    assert(w1.spec_scheduled().contains(n));
    assert(w1.spec_current(0) == cur + 1);
    lemma_cross_step(cur, ratio);
    let due = (c1 + t) * ratio;
    let ws2 = ws.subrange(j + 1, ws.len() as int);
    let fired2 = fired.subrange(j + 1, fired.len() as int);
    assert(ws2[0] == w1);
    if tg.0 == 1 && w.spec_crosses() && tg.3 == w.spec_swept_slot() && tg.2 == 0 {
        // swept at once and moved down: it fires on the next advance
        lemma_ticks_until_step(c1, slot, turn);
        assert(ticks_until_slot(c1, slot, turn) == 1);
        assert(t == 1);
        assert(cur + 1 == (c1 + 1) * ratio);
        assert(due == cur + 1);
        let slots = w1.spec_slot_count(0) as int;
        assert(w1.spec_index()[n].level == 0);
        assert(w1.spec_index()[n].slot_index == (cur + 2) % slots);
        assert(0 <= (cur + 2) % slots < slots) by {
            lemma_mod_bound(cur + 2, slots);
        }
        lemma_slot_reached(cur + 1, 1, (cur + 2) % slots, slots);
        law_l0_task_fires_on_its_tick(ws2, fired2, n);
        if j + 1 < fired.len() {
            assert(fired2[0] == fired[j + 1]);
        }
    } else {
        let c1n = w1.spec_current(1) as int;
        assert(w1.spec_index()[n].level == 1);
        assert(w1.spec_index()[n].slot_index == slot);
        let r1 = w1.spec_task(n).rounds as int;
        lemma_ticks_until_step(c1, slot, turn);
        if w.spec_crosses() {
            assert(c1n == c1 + 1);
            if tg.3 == w.spec_swept_slot() {
                assert(r1 == rounds - 1);
                assert(ticks_until_slot(c1, slot, turn) == 1);
                assert(ticks_until_slot(c1 + 1, slot, turn) == turn);
                assert((c1n + ticks_until_slot(c1n, slot, turn) + r1 * turn) == c1 + t) by (nonlinear_arith)
                    requires
                        c1n == c1 + 1,
                        ticks_until_slot(c1n, slot, turn) == turn,
                        r1 == rounds - 1,
                        1 + rounds * turn == t,
                ;
            } else {
                assert(r1 == rounds);
                assert(ticks_until_slot(c1 + 1, slot, turn) == ticks_until_slot(c1, slot, turn) - 1);
            }
        } else {
            assert(c1n == c1);
            assert(r1 == rounds);
        }
        assert(l1_due_tick(c1n, slot, r1, turn, ratio) == due);
        lemma_l1_task_fires_at_its_deadline(ws2, fired2, n);
        assert forall|i: int| j < i < fired.len() && i < j + (due - cur) implies !entry_ids(#[trigger] fired[i]).contains(n) by {
            assert(fired2[i - j - 1] == fired[i]);
        }
        if j + (due - cur) < fired.len() {
            assert(fired2[due - cur - 1] == fired[j + (due - cur)]);
        }
    }
}

} // verus!
