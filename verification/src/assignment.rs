//! Assignments as the review history reads them.
use vstd::prelude::*;

verus! {

/// Identifies a user.
pub type UserId = u64;

/// Identifies an annotation workflow (task) of a dataset.
pub type TaskId = u64;

/// Identifies an image of a dataset.
pub type ImageId = u64;

/// Identifies an assignment.
pub type AssignmentId = u64;

/// A point in time: whole seconds since the UNIX epoch, UTC.
pub type Timestamp = i64;

/// What an assignment asks its holder to do.
#[derive(Clone, Copy, Debug, PartialEq, Eq, Structural)]
pub enum AssignmentKind {
    Annotation,
    Review,
}

/// Lifecycle state of an assignment.
#[derive(Clone, Copy, Debug, PartialEq, Eq, Structural)]
pub enum AssignmentStatus {
    Active,
    Completed,
    Cancelled,
    Expired,
}

/// One unit of work handed to a user for one task on one image.
#[derive(Clone, Copy, Debug, PartialEq, Eq, Structural)]
pub struct Assignment {
    pub assignment_id: AssignmentId,
    pub image_id: ImageId,
    pub task_id: TaskId,
    pub assigned_to: UserId,
    pub kind: AssignmentKind,
    pub status: AssignmentStatus,
    pub expires_at: Option<Timestamp>,
    pub created_at: Timestamp,
    pub updated_at: Timestamp,
}

impl Assignment {
    /// A review that its holder finished: completed, or cancelled on purpose
    /// (a cancellation at or after the expiry is clean-up, not a decision).
    pub open spec fn finished_review(self) -> bool {
        &&& self.kind == AssignmentKind::Review
        &&& (self.status == AssignmentStatus::Completed || (self.status
            == AssignmentStatus::Cancelled && (self.expires_at is None || self.expires_at->0
            > self.updated_at)))
    }

    /// The user and the task the assignment belongs to.
    pub open spec fn key(self) -> (UserId, TaskId) {
        (self.assigned_to, self.task_id)
    }

    /// When and as which assignment the work was finished.
    pub open spec fn finish(self) -> (Timestamp, AssignmentId) {
        (self.updated_at, self.assignment_id)
    }

    /// Executable form of [`Assignment::finished_review`].
    pub fn is_finished_review(&self) -> (r: bool)
        ensures
            r == self.finished_review(),
    {
        match self.kind {
            AssignmentKind::Review => {},
            AssignmentKind::Annotation => {
                return false;
            },
        }
        match self.status {
            AssignmentStatus::Completed => true,
            AssignmentStatus::Cancelled => match self.expires_at {
                None => true,
                Some(expiry) => expiry > self.updated_at,
            },
            _ => false,
        }
    }
}

} // verus!
