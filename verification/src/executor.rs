use vstd::prelude::*;

use crate::failure::Failure;
use crate::failure::FailureKind;
use crate::state::is_terminal;
use crate::state::transition_allowed;
use crate::state::JobState;
use crate::store::has_job_in_state;
use crate::store::job_index;
use crate::store::InMemoryJobStore;
use crate::store::RepositoryError;

verus! {

/// What one run of a job handler produced: completion within the deadline,
/// a failure value within the deadline, or an elapsed deadline.
#[derive(Debug)]
pub enum HandlerOutcome {
    Completed,
    Failed(Failure),
    TimedOut,
}

/// The simulated job handler: its run sleeps briefly and completes. The run
/// itself suspends on the async runtime and lives outside the verified core;
/// what it produces is a `HandlerOutcome`, recorded by `record_outcome`.
#[derive(Debug)]
pub struct SleepJobHandler;

/// The terminal transition out of `Running` that an outcome is recorded as.
#[derive(Debug)]
pub struct TerminalTransition {
    pub to: JobState,
    pub failure: Option<Failure>,
}

/// How an outcome is interpreted: completion succeeds with no failure
/// attached; a failure value fails with that value; an elapsed deadline
/// fails with a synthesized timeout descriptor.
pub open spec fn interpretation_of(outcome: HandlerOutcome, t: TerminalTransition) -> bool {
    match outcome {
        HandlerOutcome::Completed => t.to == JobState::Succeeded && t.failure is None,
        HandlerOutcome::Failed(f) => t.to == JobState::Failed && t.failure == Some(f),
        HandlerOutcome::TimedOut => t.to == JobState::Failed && (t.failure matches Some(g)
            && g.kind == FailureKind::Timeout && g.reason@ == "job execution exceeded timeout"@),
    }
}

/// Interprets a finished run as the terminal transition to record.
pub fn interpret_outcome(outcome: HandlerOutcome) -> (r: TerminalTransition)
    ensures
        interpretation_of(outcome, r),
        transition_allowed(JobState::Running, r.to),
        is_terminal(r.to),
        r.to == JobState::Failed ==> r.failure is Some,
{
    match outcome {
        HandlerOutcome::Completed => TerminalTransition { to: JobState::Succeeded, failure: None },
        HandlerOutcome::Failed(f) => TerminalTransition {
            to: JobState::Failed,
            failure: Some(f),
        },
        HandlerOutcome::TimedOut => TerminalTransition {
            to: JobState::Failed,
            failure: Some(
                Failure::timeout(String::from_str("job execution exceeded timeout")),
            ),
        },
    }
}

/// Records a finished run: the conditional terminal transition out of
/// `Running`, attempted whatever the outcome was. The write is never
/// refused; a lost race (`Ok(false)`) leaves the store untouched.
pub fn record_outcome(
    store: &mut InMemoryJobStore,
    job_id: u128,
    outcome: HandlerOutcome,
    now: i64,
) -> (r: Result<bool, RepositoryError>)
    requires
        old(store).wf(),
        !(outcome is Completed) ==> old(store).can_count_failure(job_id),
        old(store).row_not_after(job_id, now),
    ensures
        final(store).wf(),
        r is Ok,
        r == Ok::<bool, RepositoryError>(true) <==> has_job_in_state(
            old(store).jobs_view(),
            job_id,
            JobState::Running,
        ),
        r == Ok::<bool, RepositoryError>(false) ==> *final(store) == *old(store),
        r == Ok::<bool, RepositoryError>(true) ==> ({
            let v0 = old(store).jobs_view();
            let v1 = final(store).jobs_view();
            let i = job_index(v1, job_id);
            &&& i == job_index(v0, job_id)
            &&& v1 == v0.update(i, v1[i])
            &&& v1[i].updated_at == now
            &&& v1[i].updated_at >= v0[i].updated_at
            &&& v1[i].id == v0[i].id
            &&& v1[i].payload == v0[i].payload
            &&& v1[i].priority == v0[i].priority
            &&& v1[i].max_attempts == v0[i].max_attempts
            &&& v1[i].created_at == v0[i].created_at
            &&& match outcome {
                HandlerOutcome::Completed => v1[i].state == JobState::Succeeded && v1[i].failure
                    is None && v1[i].attempt == v0[i].attempt,
                HandlerOutcome::Failed(f) => v1[i].state == JobState::Failed && v1[i].failure
                    == Some(f) && v1[i].attempt == v0[i].attempt + 1,
                HandlerOutcome::TimedOut => v1[i].state == JobState::Failed && (v1[i].failure
                    matches Some(g) && g.kind == FailureKind::Timeout && g.reason@
                    == "job execution exceeded timeout"@) && v1[i].attempt == v0[i].attempt + 1,
            }
        }),
{
    let decision = interpret_outcome(outcome);
    let r = store.update_job_state(
        job_id,
        JobState::Running,
        decision.to,
        decision.failure.as_ref(),
        now,
    );
    r
}

} // verus!
