use vstd::prelude::*;

verus! {

/// Outcome of one or more analysis passes.
#[derive(Debug, Clone, Copy, PartialEq, Eq, Structural)]
pub enum ErrorStatus {
    NoDeadlock,
    DeadlockDetected,
}

impl ErrorStatus {
    /// Whether a deadlock diagnostic was emitted.
    pub fn error_emitted(self) -> (r: bool)
        ensures
            r == (self == ErrorStatus::DeadlockDetected),
    {
        match self {
            ErrorStatus::NoDeadlock => false,
            ErrorStatus::DeadlockDetected => true,
        }
    }

    /// The join of two statuses, as a spec function.
    pub open spec fn join_spec(self, rhs: ErrorStatus) -> ErrorStatus {
        if self == ErrorStatus::NoDeadlock && rhs == ErrorStatus::NoDeadlock {
            ErrorStatus::NoDeadlock
        } else {
            ErrorStatus::DeadlockDetected
        }
    }

    /// Statuses form a commutative monoid under join, with `NoDeadlock` as
    /// identity; a detected deadlock is never undone by later passes.
    pub proof fn lemma_join_monoid(a: ErrorStatus, b: ErrorStatus, c: ErrorStatus)
        ensures
            a.join_spec(ErrorStatus::NoDeadlock) == a,
            ErrorStatus::NoDeadlock.join_spec(a) == a,
            a.join_spec(b) == b.join_spec(a),
            a.join_spec(b).join_spec(c) == a.join_spec(b.join_spec(c)),
            a == ErrorStatus::DeadlockDetected ==> a.join_spec(b) == ErrorStatus::DeadlockDetected,
    {
    }

    /// Joins two statuses: `NoDeadlock` is the identity, `DeadlockDetected` absorbs.
    pub fn join(self, rhs: ErrorStatus) -> (r: ErrorStatus)
        ensures
            r == self.join_spec(rhs),
    {
        match (self, rhs) {
            (ErrorStatus::NoDeadlock, ErrorStatus::NoDeadlock) => ErrorStatus::NoDeadlock,
            _ => ErrorStatus::DeadlockDetected,
        }
    }
}


} // verus!
