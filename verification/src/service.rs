//! The decisions of the service's background loop: what it does when the
//! completion channel of a registered task reports.
use crate::task::{TaskCompletion, TaskId, TaskNotification};
use vstd::prelude::*;

verus! {

/// A report from the completion channel of a task registered with the service.
#[derive(Debug, Clone, Copy, PartialEq, Eq)]
pub enum CompletionEvent {
    /// A one-shot task completed; a channel that closed reads as cancelled.
    OneShot(TaskId, TaskCompletion),
    /// A periodic task's channel reported a firing or a cancellation, or
    /// closed (`None`).
    Periodic(TaskId, Option<TaskCompletion>),
}

/// What the loop does about an event.
#[derive(Debug, Clone, Copy, PartialEq, Eq)]
pub struct ServiceAction {
    /// A task the service no longer tracks.
    pub forget: Option<TaskId>,
    /// A notification for the service's receiver.
    pub notify: Option<TaskNotification>,
    /// Whether to go on listening to the task's channel.
    pub rearm: bool,
}

/// The loop's answer to an event: a one-shot task is forgotten, and reported
/// if it was called; a periodic task that was called is reported and listened
/// to again, one that was cancelled or whose channel closed is forgotten.
pub fn on_completion(event: CompletionEvent) -> (a: ServiceAction)
    ensures
        match event {
            CompletionEvent::OneShot(id, c) => {
                &&& a.forget == Some(id)
                &&& a.notify == (if c is Called {
                    Some(TaskNotification::OneShot(id))
                } else {
                    None
                })
                &&& !a.rearm
            },
            CompletionEvent::Periodic(id, r) => if r == Some(TaskCompletion::Called) {
                &&& a.forget is None
                &&& a.notify == Some(TaskNotification::Periodic(id))
                &&& a.rearm
            } else {
                &&& a.forget == Some(id)
                &&& a.notify is None
                &&& !a.rearm
            },
        },
{
    match event {
        CompletionEvent::OneShot(id, c) => {
            let notify = match c {
                TaskCompletion::Called => Some(TaskNotification::OneShot(id)),
                TaskCompletion::Cancelled => None,
            };
            ServiceAction { forget: Some(id), notify, rearm: false }
        },
        CompletionEvent::Periodic(id, r) => match r {
            Some(TaskCompletion::Called) => ServiceAction {
                forget: None,
                notify: Some(TaskNotification::Periodic(id)),
                rearm: true,
            },
            _ => ServiceAction { forget: Some(id), notify: None, rearm: false },
        },
    }
}

} // verus!
