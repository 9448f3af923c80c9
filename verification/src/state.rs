use vstd::prelude::*;

use crate::failure::Failure;

verus! {

/// Lifecycle state of a job. Terminal states have no outgoing transitions.
#[derive(Debug, Copy, Clone, PartialEq, Eq, Structural)]
pub enum JobState {
    Queued,
    Running,
    Succeeded,
    Failed,
    Cancelled,
}

/// True exactly on the edges of the transition table.
pub open spec fn transition_allowed(from: JobState, to: JobState) -> bool {
    match (from, to) {
        (JobState::Queued, JobState::Running) => true,
        (JobState::Running, JobState::Succeeded) => true,
        (JobState::Running, JobState::Failed) => true,
        (JobState::Queued, JobState::Cancelled) => true,
        (JobState::Running, JobState::Cancelled) => true,
        _ => false,
    }
}

/// A state with no outgoing transitions.
pub open spec fn is_terminal(s: JobState) -> bool {
    match s {
        JobState::Succeeded | JobState::Failed | JobState::Cancelled => true,
        _ => false,
    }
}

/// `b` can be reached from `a` by following zero or more edges of the
/// transition table.
pub open spec fn reachable_from(a: JobState, b: JobState) -> bool {
    a == b || match a {
        JobState::Queued => true,
        JobState::Running => b != JobState::Queued,
        _ => false,
    }
}

/// Every edge of the transition table moves to a reachable state.
pub proof fn lemma_transition_edge_reachable(a: JobState, b: JobState)
    requires
        transition_allowed(a, b),
    ensures
        reachable_from(a, b),
{
}

/// Reachability is transitive.
pub proof fn lemma_reachable_transitive(a: JobState, b: JobState, c: JobState)
    requires
        reachable_from(a, b),
        reachable_from(b, c),
    ensures
        reachable_from(a, c),
{
}

/// Terminal states have no outgoing edges.
pub proof fn lemma_terminal_has_no_edges(a: JobState, b: JobState)
    requires
        is_terminal(a),
    ensures
        !transition_allowed(a, b),
{
}

/// Rejects an attempted state change that is not in the transition table, or
/// whose target is `Failed` without a failure descriptor attached.
#[derive(Debug, Copy, Clone, PartialEq, Eq, Structural)]
pub enum StateTransitionError {
    InvalidTransition { from: JobState, to: JobState },
}

impl JobState {
    /// Validates one state change: it succeeds exactly when `(self, next)` is
    /// an edge of the transition table and, if `next` is `Failed`, a failure
    /// descriptor is present.
    pub fn transition(self, next: JobState, failure: Option<&Failure>) -> (r: Result<
        JobState,
        StateTransitionError,
    >)
        ensures
            r is Ok <==> transition_allowed(self, next) && !(next == JobState::Failed
                && failure is None),
            r is Ok ==> r->Ok_0 == next,
            r is Err ==> r->Err_0 == (StateTransitionError::InvalidTransition {
                from: self,
                to: next,
            }),
    {
        let valid = match (self, next) {
            (JobState::Queued, JobState::Running) => true,
            (JobState::Running, JobState::Succeeded) => true,
            (JobState::Running, JobState::Failed) => true,
            (JobState::Queued, JobState::Cancelled) => true,
            (JobState::Running, JobState::Cancelled) => true,
            _ => false,
        };

        if !valid {
            return Err(StateTransitionError::InvalidTransition { from: self, to: next });
        }

        if next == JobState::Failed && failure.is_none() {
            return Err(StateTransitionError::InvalidTransition { from: self, to: next });
        }

        Ok(next)
    }
}

} // verus!
