//! Tasks as the wheel sees them: identifiers, kinds, where a task sits, and
//! what the service reports when one fires.
use std::time::Duration;
use vstd::prelude::*;

verus! {

/// Why a task completed: it expired, or it was cancelled.
#[derive(Debug, Clone, Copy, PartialEq, Eq)]
pub enum TaskCompletionReason {
    Expired,
    Cancelled,
}

/// What a completion channel reports: the task was called, or cancelled.
#[derive(Debug, Clone, Copy, PartialEq, Eq)]
pub enum TaskCompletion {
    Called,
    Cancelled,
}

/// Identifies a task within the wheel that allocated it.
#[derive(Debug, Clone, Copy, PartialEq, Eq, Hash, Structural)]
pub struct TaskId(u64);

impl View for TaskId {
    type V = u64;

    open spec fn view(&self) -> u64 {
        self.spec_value()
    }
}

impl TaskId {
    pub closed spec fn spec_value(self) -> u64 {
        self.0
    }

    /// The identifier with the given number.
    pub fn new(value: u64) -> (id: TaskId)
        ensures
            id@ == value,
    {
        TaskId(value)
    }

    /// Two identifiers are equal exactly when their numbers are.
    pub proof fn lemma_view_eq(a: TaskId, b: TaskId)
        ensures
            (a@ == b@) == (a == b),
    {
    }

    /// The numeric value of the identifier.
    pub fn as_u64(&self) -> (v: u64)
        ensures
            v == self@,
    {
        self.0
    }
}

/// A task identifier handed out by the wheel before the task is registered.
/// It is not `Clone`: each handle registers at most one task.
#[derive(Debug)]
pub struct TaskHandle {
    id: TaskId,
}

impl TaskHandle {
    pub closed spec fn spec_id(self) -> TaskId {
        self.id
    }

    pub(crate) fn new(id: TaskId) -> (h: TaskHandle)
        ensures
            h.spec_id() == id,
    {
        TaskHandle { id }
    }

    /// The identifier the task will have once registered.
    pub fn task_id(&self) -> (id: TaskId)
        ensures
            id == self.spec_id(),
    {
        self.id
    }
}

/// One-shot tasks fire once; periodic ones fire every `interval` after the
/// first delay until cancelled.
#[derive(Debug, Clone, Copy, PartialEq, Eq)]
pub enum TaskType {
    OneShot,
    Periodic { interval: Duration, buffer_size: Option<usize> },
}

impl TaskType {
    /// Whether this is a periodic task.
    pub fn is_periodic(&self) -> (r: bool)
        ensures
            r == (*self is Periodic),
    {
        match self {
            TaskType::OneShot => false,
            TaskType::Periodic { .. } => true,
        }
    }
}

/// A task before registration: its first delay, its kind and an optional
/// callback of the caller's type `C`.
pub struct TimerTask<C> {
    pub(crate) delay: Duration,
    pub(crate) task_type: TaskType,
    pub(crate) callback: Option<C>,
}

impl<C> TimerTask<C> {
    pub closed spec fn spec_delay(self) -> Duration {
        self.delay
    }

    pub closed spec fn spec_task_type(self) -> TaskType {
        self.task_type
    }

    pub closed spec fn spec_callback(self) -> Option<C> {
        self.callback
    }

    /// A task that fires once after `delay`.
    pub fn new_oneshot(delay: Duration, callback: Option<C>) -> (t: Self)
        ensures
            t.spec_delay() == delay,
            t.spec_task_type() == TaskType::OneShot,
            t.spec_callback() == callback,
    {
        TimerTask { delay, task_type: TaskType::OneShot, callback }
    }

    /// A task that fires after `initial_delay` and then every `interval`;
    /// `buffer_size` sizes its notification channel (`None` for the default).
    pub fn new_periodic(
        initial_delay: Duration,
        interval: Duration,
        callback: Option<C>,
        buffer_size: Option<usize>,
    ) -> (t: Self)
        ensures
            t.spec_delay() == initial_delay,
            t.spec_task_type() == (TaskType::Periodic { interval, buffer_size }),
            t.spec_callback() == callback,
    {
        TimerTask { delay: initial_delay, task_type: TaskType::Periodic { interval, buffer_size }, callback }
    }

    /// The task's kind.
    pub fn get_task_type(&self) -> (k: TaskType)
        ensures
            k == self.spec_task_type(),
    {
        self.task_type
    }

    /// The interval of a periodic task.
    pub fn get_interval(&self) -> (i: Option<Duration>)
        ensures
            i == (match self.spec_task_type() {
                TaskType::OneShot => None,
                TaskType::Periodic { interval, .. } => Some(interval),
            }),
    {
        match self.task_type {
            TaskType::OneShot => None,
            TaskType::Periodic { interval, .. } => Some(interval),
        }
    }

    /// The first delay.
    pub fn get_delay(&self) -> (d: Duration)
        ensures
            d == self.spec_delay(),
    {
        self.delay
    }

    /// The task's delay, kind and callback.
    pub fn into_parts(self) -> (parts: (Duration, TaskType, Option<C>))
        ensures
            parts == (self.spec_delay(), self.spec_task_type(), self.spec_callback()),
    {
        (self.delay, self.task_type, self.callback)
    }

    /// Takes the callback out of the task.
    pub fn take_callback(&mut self) -> (c: Option<C>)
        ensures
            c == old(self).spec_callback(),
            final(self).spec_callback() is None,
            final(self).spec_delay() == old(self).spec_delay(),
            final(self).spec_task_type() == old(self).spec_task_type(),
    {
        let c = self.callback.take();
        c
    }
}

/// A task as it sits in a slot of the wheel.
pub struct WheelEntry<C> {
    /// The task's identifier.
    pub id: TaskId,
    /// One-shot or periodic (with its interval).
    pub task_type: TaskType,
    /// The delay it was last scheduled with.
    pub delay: Duration,
    /// The tick of its layer at which it is due.
    pub deadline_tick: u64,
    /// Full turns of the upper layer still to wait.
    pub rounds: u32,
    /// The caller's callback, if any.
    pub callback: Option<C>,
}

/// Where a task sits: layer (0 = L0, 1 = L1), slot, and position in the slot.
#[derive(Debug, Clone, Copy, PartialEq, Eq, Structural)]
pub struct TaskLocation {
    pub slot_index: usize,
    pub vec_index: usize,
    pub level: u8,
}

impl TaskLocation {
    /// A location from its three parts.
    pub fn new(level: u8, slot_index: usize, vec_index: usize) -> (loc: Self)
        ensures
            loc == (TaskLocation { slot_index, vec_index, level }),
    {
        TaskLocation { slot_index, vec_index, level }
    }
}

/// What the service reports for a task that fired.
#[derive(Debug, Clone, Copy, PartialEq, Eq, Structural)]
pub enum TaskNotification {
    OneShot(TaskId),
    Periodic(TaskId),
}

impl TaskNotification {
    /// The task that fired.
    pub fn task_id(&self) -> (id: TaskId)
        ensures
            id == (match *self {
                TaskNotification::OneShot(i) => i,
                TaskNotification::Periodic(i) => i,
            }),
    {
        match self {
            TaskNotification::OneShot(id) => *id,
            TaskNotification::Periodic(id) => *id,
        }
    }

    /// Whether a one-shot task fired.
    pub fn is_oneshot(&self) -> (r: bool)
        ensures
            r == (*self is OneShot),
    {
        matches!(self, TaskNotification::OneShot(_))
    }

    /// Whether a periodic task fired.
    pub fn is_periodic(&self) -> (r: bool)
        ensures
            r == (*self is Periodic),
    {
        matches!(self, TaskNotification::Periodic(_))
    }
}

} // verus!
