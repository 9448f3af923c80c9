use vstd::prelude::*;

verus! {

/// Classifies a terminal failure: a logical error reported by the handler,
/// an infrastructure error, or an elapsed per-job deadline.
#[derive(Debug, Copy, Clone, PartialEq, Eq, Structural)]
pub enum FailureKind {
    UserError,
    SystemError,
    Timeout,
}

/// A failure descriptor: a kind paired with a human-readable reason.
#[derive(Debug)]
pub struct Failure {
    pub kind: FailureKind,
    pub reason: String,
}

impl Clone for Failure {
    fn clone(&self) -> (r: Self)
        ensures
            r == *self,
    {
        Failure { kind: self.kind, reason: self.reason.clone() }
    }
}

impl Failure {
    /// A job-level logical error reported by the handler.
    pub fn user(reason: String) -> (r: Self)
        ensures
            r.kind == FailureKind::UserError,
            r.reason == reason,
    {
        Failure { kind: FailureKind::UserError, reason }
    }

    /// An infrastructure error, reported by the handler or synthesized by recovery.
    pub fn system(reason: String) -> (r: Self)
        ensures
            r.kind == FailureKind::SystemError,
            r.reason == reason,
    {
        Failure { kind: FailureKind::SystemError, reason }
    }

    /// A failure synthesized when the per-job deadline elapses.
    pub fn timeout(reason: String) -> (r: Self)
        ensures
            r.kind == FailureKind::Timeout,
            r.reason == reason,
    {
        Failure { kind: FailureKind::Timeout, reason }
    }
}

} // verus!
