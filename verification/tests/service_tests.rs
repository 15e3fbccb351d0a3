use kestrel_timer::service::{on_completion, CompletionEvent, ServiceAction};
use kestrel_timer::task::{TaskCompletion, TaskId, TaskNotification};

#[test]
fn oneshot_called_is_reported_and_forgotten() {
    let id = TaskId::new(3);
    assert_eq!(
        on_completion(CompletionEvent::OneShot(id, TaskCompletion::Called)),
        ServiceAction { forget: Some(id), notify: Some(TaskNotification::OneShot(id)), rearm: false }
    );
}

#[test]
fn oneshot_cancelled_is_forgotten_silently() {
    let id = TaskId::new(4);
    assert_eq!(
        on_completion(CompletionEvent::OneShot(id, TaskCompletion::Cancelled)),
        ServiceAction { forget: Some(id), notify: None, rearm: false }
    );
}

#[test]
fn periodic_called_is_reported_and_rearmed() {
    let id = TaskId::new(5);
    assert_eq!(
        on_completion(CompletionEvent::Periodic(id, Some(TaskCompletion::Called))),
        ServiceAction { forget: None, notify: Some(TaskNotification::Periodic(id)), rearm: true }
    );
}

#[test]
fn periodic_cancelled_or_closed_is_forgotten() {
    let id = TaskId::new(6);
    let forget = ServiceAction { forget: Some(id), notify: None, rearm: false };
    assert_eq!(on_completion(CompletionEvent::Periodic(id, Some(TaskCompletion::Cancelled))), forget);
    assert_eq!(on_completion(CompletionEvent::Periodic(id, None)), forget);
}
