//! The task record and its mathematical model.
//!
//! Timestamps are plain `i64` values: seconds since the Unix epoch. The
//! moment "now" is obtained once per mutation (see `store`) and everything
//! downstream is a pure function of such plain values.

use vstd::prelude::*;

verus! {

/// One to-do item. `completed_at` is set when `completed` turns true and is
/// overwritten if the task is completed again; tasks created by the store
/// have it present if and only if `completed` is true.
#[derive(Debug)]
pub struct Task {
    /// Positive identifier, assigned by the store, unique among tasks the
    /// store itself created.
    pub id: u64,
    /// Free text describing the task; the store rejects blank descriptions.
    pub description: String,
    /// Whether the task has been marked done.
    pub completed: bool,
    /// Creation time, seconds since the Unix epoch.
    pub created_at: i64,
    /// Completion time, seconds since the Unix epoch, if ever completed.
    pub completed_at: Option<i64>,
}

/// The mathematical value of a [`Task`]: the same fields with the
/// description as a sequence of characters.
pub struct TaskSpec {
    pub id: u64,
    pub description: Seq<char>,
    pub completed: bool,
    pub created_at: i64,
    pub completed_at: Option<i64>,
}

impl View for Task {
    type V = TaskSpec;

    open spec fn view(&self) -> TaskSpec {
        TaskSpec {
            id: self.id,
            description: self.description@,
            completed: self.completed,
            created_at: self.created_at,
            completed_at: self.completed_at,
        }
    }
}

impl DeepView for Task {
    type V = TaskSpec;

    open spec fn deep_view(&self) -> TaskSpec {
        self.view()
    }
}

impl Task {
    /// The same task again, field for field.
    pub fn duplicate(&self) -> (r: Task)
        ensures
            r@ == self@,
    {
        Task {
            id: self.id,
            description: self.description.clone(),
            completed: self.completed,
            created_at: self.created_at,
            completed_at: self.completed_at,
        }
    }
}

/// The failures the store and its codec can report. A missing id on
/// `complete`/`remove` is a normal boolean outcome, not an error.
#[derive(Clone, Copy, Debug, PartialEq, Eq, Structural)]
pub enum StoreError {
    /// The persisted file exists but cannot be decoded into the task schema.
    CorruptStore,
    /// A blank task description was offered to `add_task`.
    InvalidInput,
    /// Writing the persisted file failed; reported by the I/O layer around
    /// the store, never constructed by the store itself.
    Io,
}

} // verus!
