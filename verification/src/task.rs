//! The task model: a submitted shell command together with its lifecycle
//! status, timestamps and metadata.
//!
//! Timestamps are plain `u64` keys in an order-preserving encoding of
//! calendar date and time of day, built by [`datetime_key`]; comparing two
//! keys compares the instants they encode.

use vstd::prelude::*;

verus! {

/// The outcome of a task that has finished.
#[derive(Clone, Debug)]
pub enum TaskResult {
    /// The child exited with code 0.
    Success,
    /// The child exited with the given non-zero code.
    Failed(i32),
    /// The child process could not be created.
    FailedToSpawn(String),
    /// The child was killed on request.
    Killed,
    /// An internal error occurred while supervising the child.
    Errored,
    /// A dependency finished without success, so the task never ran.
    DependencyFailed,
}

/// The lifecycle status of a task.
#[derive(Clone, Debug)]
pub enum TaskStatus {
    /// Held out of the ready queue, optionally until a timestamp.
    Stashed { enqueue_at: Option<u64> },
    /// Temporarily inadmissible due to an in-progress edit.
    Locked,
    /// Waiting to be admitted by the scheduler.
    Queued,
    /// Admission suspended.
    Paused,
    /// A child process is currently executing the command.
    Running,
    /// Finished, with the given result.
    Done(TaskResult),
}

/// A user-submitted shell command plus its metadata and lifecycle state.
#[derive(Clone, Debug)]
pub struct Task {
    /// Identifier, unique within a daemon lifetime.
    pub id: u64,
    /// The shell command line.
    pub command: String,
    /// The working directory the command runs in.
    pub path: String,
    /// An optional user-chosen label.
    pub label: Option<String>,
    /// The name of the group the task is scheduled in.
    pub group: String,
    /// Ids of tasks that must reach `Done(Success)` before this one runs.
    pub dependencies: Vec<u64>,
    /// The current lifecycle status.
    pub status: TaskStatus,
    /// Timestamp of submission.
    pub created: u64,
    /// Timestamp of the moment the task started running, once it has.
    pub start: Option<u64>,
    /// Timestamp of the moment the task finished, once it has.
    pub end: Option<u64>,
}

/// The rank of a status in the total order used when sorting by status:
/// `Stashed < Locked < Queued < Paused < Running < Done(failure) < Done(Success)`.
pub open spec fn status_rank(s: TaskStatus) -> int {
    match s {
        TaskStatus::Stashed { .. } => 0,
        TaskStatus::Locked => 1,
        TaskStatus::Queued => 2,
        TaskStatus::Paused => 3,
        TaskStatus::Running => 4,
        TaskStatus::Done(r) => match r {
            TaskResult::Success => 6,
            _ => 5,
        },
    }
}

/// Rank a status for ordering; agrees with [`status_rank`].
pub fn rank_status(s: &TaskStatus) -> (r: u8)
    ensures
        r as int == status_rank(*s),
{
    match s {
        TaskStatus::Stashed { .. } => 0,
        TaskStatus::Locked => 1,
        TaskStatus::Queued => 2,
        TaskStatus::Paused => 3,
        TaskStatus::Running => 4,
        TaskStatus::Done(r) => match r {
            TaskResult::Success => 6,
            _ => 5,
        },
    }
}

/// The order-preserving encoding of a calendar instant as a single integer:
/// later instants (by year, month, day, hour, minute, second, compared
/// lexicographically within the ranges admitted by [`datetime_key`]) get
/// strictly larger keys.
pub open spec fn spec_datetime_key(
    year: int,
    month: int,
    day: int,
    hour: int,
    minute: int,
    second: int,
) -> int {
    ((((year * 13 + month) * 32 + day) * 24 + hour) * 60 + minute) * 60 + second
}

/// Encode a calendar instant as a timestamp key.
///
/// The fields must be a plausible instant: a four-digit year, month 1..=12,
/// day 1..=31, hour below 24, minute and second below 60.
pub fn datetime_key(year: u64, month: u64, day: u64, hour: u64, minute: u64, second: u64) -> (r:
    u64)
    requires
        year <= 9999,
        1 <= month <= 12,
        1 <= day <= 31,
        hour < 24,
        minute < 60,
        second < 60,
    ensures
        r as int == spec_datetime_key(
            year as int,
            month as int,
            day as int,
            hour as int,
            minute as int,
            second as int,
        ),
{
    ((((year * 13 + month) * 32 + day) * 24 + hour) * 60 + minute) * 60 + second
}

} // verus!
