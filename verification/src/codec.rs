use vstd::prelude::*;

use crate::failure::Failure;
use crate::failure::FailureKind;
use crate::job::Job;
use crate::state::JobState;
use crate::store::RepositoryError;

verus! {

/// The literal string a state is persisted as.
pub open spec fn state_str(s: JobState) -> Seq<char> {
    match s {
        JobState::Queued => "queued"@,
        JobState::Running => "running"@,
        JobState::Succeeded => "succeeded"@,
        JobState::Failed => "failed"@,
        JobState::Cancelled => "cancelled"@,
    }
}

/// The state a persisted string is read as; anything unrecognized is read
/// defensively as `Failed`.
pub open spec fn state_of_str(v: Seq<char>) -> JobState {
    if v == "queued"@ {
        JobState::Queued
    } else if v == "running"@ {
        JobState::Running
    } else if v == "succeeded"@ {
        JobState::Succeeded
    } else if v == "cancelled"@ {
        JobState::Cancelled
    } else {
        JobState::Failed
    }
}

/// The literal string a failure kind is persisted as.
pub open spec fn failure_kind_str(k: FailureKind) -> Seq<char> {
    match k {
        FailureKind::UserError => "user_error"@,
        FailureKind::SystemError => "system_error"@,
        FailureKind::Timeout => "timeout"@,
    }
}

/// The failure kind a persisted string is read as; anything unrecognized is
/// read defensively as `SystemError`.
pub open spec fn failure_kind_of_str(v: Seq<char>) -> FailureKind {
    if v == "user_error"@ {
        FailureKind::UserError
    } else if v == "timeout"@ {
        FailureKind::Timeout
    } else {
        FailureKind::SystemError
    }
}

/// The string a state is persisted as.
pub fn state_to_str(state: JobState) -> (r: &'static str)
    ensures
        r@ == state_str(state),
{
    match state {
        JobState::Queued => "queued",
        JobState::Running => "running",
        JobState::Succeeded => "succeeded",
        JobState::Failed => "failed",
        JobState::Cancelled => "cancelled",
    }
}

/// Reads a persisted state string; an unrecognized value falls back to
/// `Failed`, for the caller to log.
pub fn str_to_state(value: String) -> (r: JobState)
    ensures
        r == state_of_str(value@),
{
    if value == String::from_str("queued") {
        JobState::Queued
    } else if value == String::from_str("running") {
        JobState::Running
    } else if value == String::from_str("succeeded") {
        JobState::Succeeded
    } else if value == String::from_str("cancelled") {
        JobState::Cancelled
    } else {
        JobState::Failed
    }
}

/// The string a failure kind is persisted as.
pub fn failure_kind_to_str(kind: FailureKind) -> (r: &'static str)
    ensures
        r@ == failure_kind_str(kind),
{
    match kind {
        FailureKind::UserError => "user_error",
        FailureKind::SystemError => "system_error",
        FailureKind::Timeout => "timeout",
    }
}

/// Reads a persisted failure-kind string; an unrecognized value falls back
/// to `SystemError`, for the caller to log.
pub fn str_to_failure_kind(value: &str) -> (r: FailureKind)
    ensures
        r == failure_kind_of_str(value@),
{
    let owned = String::from_str(value);
    if owned == String::from_str("user_error") {
        FailureKind::UserError
    } else if owned == String::from_str("timeout") {
        FailureKind::Timeout
    } else {
        FailureKind::SystemError
    }
}

/// Writing a state and reading it back yields the state again: the persisted
/// strings are distinct and each is read as its own state.
pub proof fn lemma_state_str_roundtrip(s: JobState)
    ensures
        state_of_str(state_str(s)) == s,
{
    reveal_strlit("queued");
    reveal_strlit("running");
    reveal_strlit("succeeded");
    reveal_strlit("failed");
    reveal_strlit("cancelled");
    assert(("queued"@).len() == 6);
    assert(("running"@).len() == 7);
    assert(("succeeded"@).len() == 9);
    assert(("failed"@).len() == 6);
    assert(("cancelled"@).len() == 9);
    assert(("queued"@)[0] == 'q');
    assert(("failed"@)[0] == 'f');
    assert(("succeeded"@)[0] == 's');
    assert(("cancelled"@)[0] == 'c');
}

/// Writing a failure kind and reading it back yields the kind again.
pub proof fn lemma_failure_kind_str_roundtrip(k: FailureKind)
    ensures
        failure_kind_of_str(failure_kind_str(k)) == k,
{
    reveal_strlit("user_error");
    reveal_strlit("system_error");
    reveal_strlit("timeout");
    assert(("user_error"@).len() == 10);
    assert(("system_error"@).len() == 12);
    assert(("timeout"@).len() == 7);
}

/// Reads one persisted row, given as plain column values, back into a job.
///
/// A row whose `failure_kind` column is set while `failure_reason` is null
/// cannot be decoded and is refused as a database fault.
pub fn row_to_job(
    id: u128,
    payload: String,
    priority: i32,
    state: String,
    attempt: i32,
    max_attempts: i32,
    failure_kind: Option<String>,
    failure_reason: Option<String>,
    created_at: i64,
    updated_at: i64,
) -> (r: Result<Job, RepositoryError>)
    ensures
        r is Err <==> failure_kind is Some && failure_reason is None,
        r matches Ok(j) ==> ({
            &&& j.id == id
            &&& j.payload == payload
            &&& j.priority == priority
            &&& j.state == state_of_str(state@)
            &&& j.attempt == attempt as u32
            &&& j.max_attempts == max_attempts as u32
            &&& j.created_at == created_at
            &&& j.updated_at == updated_at
            &&& match failure_kind {
                Some(kind) => j.failure matches Some(f) && f.kind == failure_kind_of_str(kind@)
                    && (failure_reason matches Some(reason) && f.reason == reason),
                None => j.failure is None,
            }
        }),
{
    let failure: Option<Failure> = match failure_kind {
        Some(kind) => {
            match failure_reason {
                Some(reason) => Some(
                    Failure { kind: str_to_failure_kind(kind.as_str()), reason },
                ),
                None => {
                    return Err(
                        RepositoryError::Database(
                            String::from_str(
                                "row refused: a failure kind is set but the reason is null",
                            ),
                        ),
                    );
                },
            }
        },
        None => None,
    };
    Ok(
        Job {
            id,
            payload,
            priority,
            state: str_to_state(state),
            attempt: attempt_count(attempt),
            max_attempts: attempt_count(max_attempts),
            failure,
            created_at,
            updated_at,
        },
    )
}

/// The persisted counter column, read back as the in-memory counter type.
#[verifier::truncate]
fn attempt_count(column: i32) -> (r: u32)
    ensures
        r == column as u32,
{
    column as u32
}

} // verus!
