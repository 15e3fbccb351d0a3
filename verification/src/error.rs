use crate::text::{decimal, u64_to_decimal};
use vstd::prelude::*;
use vstd::string::StringExecFns;

verus! {

/// The errors that the timer library reports.
#[allow(inconsistent_fields)]
#[derive(Debug, Clone, PartialEq, Eq)]
pub enum TimerError {
    /// A slot count that is zero or not a power of two.
    InvalidSlotCount { slot_count: usize, reason: &'static str },
    /// A configuration value that failed validation.
    InvalidConfiguration { field: String, reason: String },
    /// A registration could not be handed to the service (channel full or closed).
    RegisterFailed,
    /// A batch registration whose handle and task lists differ in length.
    BatchLengthMismatch { handles_len: usize, tasks_len: usize },
}

/// The text that describes an error to a reader.
pub open spec fn error_message(e: TimerError) -> Seq<char> {
    match e {
        TimerError::InvalidSlotCount { slot_count, reason } => "Invalid slot count "@ + decimal(
            slot_count as nat,
        ) + ": "@ + reason@,
        TimerError::InvalidConfiguration { field, reason } => "Configuration validation failed ("@
            + field@ + "): "@ + reason@,
        TimerError::RegisterFailed => "Registration failed: internal channel is full or closed"@,
        TimerError::BatchLengthMismatch { handles_len, tasks_len } => "Batch length mismatch: "@
            + decimal(handles_len as nat) + " handles but "@ + decimal(tasks_len as nat)
            + " tasks"@,
    }
}

impl TimerError {
    /// The error's message (what `Display` prints for it).
    pub fn message(&self) -> (s: String)
        ensures
            s@ == error_message(*self),
    {
        match self {
            TimerError::InvalidSlotCount { slot_count, reason } => {
                let mut s = String::from_str("Invalid slot count ");
                let n = u64_to_decimal(*slot_count as u64);
                s.append(n.as_str());
                s.append(": ");
                s.append(*reason);
                s
            },
            TimerError::InvalidConfiguration { field, reason } => {
                let mut s = String::from_str("Configuration validation failed (");
                s.append(field.as_str());
                s.append("): ");
                s.append(reason.as_str());
                s
            },
            TimerError::RegisterFailed => {
                String::from_str("Registration failed: internal channel is full or closed")
            },
            TimerError::BatchLengthMismatch { handles_len, tasks_len } => {
                let mut s = String::from_str("Batch length mismatch: ");
                let h = u64_to_decimal(*handles_len as u64);
                s.append(h.as_str());
                s.append(" handles but ");
                let t = u64_to_decimal(*tasks_len as u64);
                s.append(t.as_str());
                s.append(" tasks");
                s
            },
        }
    }
}

} // verus!
