use job_orchestrator::codec::{
    failure_kind_to_str, row_to_job, state_to_str, str_to_failure_kind, str_to_state,
};
use job_orchestrator::failure::FailureKind;
use job_orchestrator::state::JobState;
use job_orchestrator::store::RepositoryError;

#[test]
fn states_persist_as_their_literal_strings() {
    assert_eq!(state_to_str(JobState::Queued), "queued");
    assert_eq!(state_to_str(JobState::Running), "running");
    assert_eq!(state_to_str(JobState::Succeeded), "succeeded");
    assert_eq!(state_to_str(JobState::Failed), "failed");
    assert_eq!(state_to_str(JobState::Cancelled), "cancelled");
}

#[test]
fn state_strings_round_trip() {
    for s in [
        JobState::Queued,
        JobState::Running,
        JobState::Succeeded,
        JobState::Failed,
        JobState::Cancelled,
    ] {
        assert_eq!(str_to_state(state_to_str(s).to_string()), s);
    }
}

#[test]
fn unrecognized_state_string_falls_back_to_failed() {
    assert_eq!(str_to_state("paused".to_string()), JobState::Failed);
    assert_eq!(str_to_state(String::new()), JobState::Failed);
}

#[test]
fn failure_kinds_persist_as_their_literal_strings() {
    assert_eq!(failure_kind_to_str(FailureKind::UserError), "user_error");
    assert_eq!(failure_kind_to_str(FailureKind::SystemError), "system_error");
    assert_eq!(failure_kind_to_str(FailureKind::Timeout), "timeout");
}

#[test]
fn failure_kind_strings_round_trip() {
    for k in [
        FailureKind::UserError,
        FailureKind::SystemError,
        FailureKind::Timeout,
    ] {
        assert_eq!(str_to_failure_kind(failure_kind_to_str(k)), k);
    }
}

#[test]
fn unrecognized_failure_kind_falls_back_to_system_error() {
    assert_eq!(str_to_failure_kind("cosmic_rays"), FailureKind::SystemError);
}

#[test]
fn full_row_decodes_to_a_job() {
    let job = row_to_job(
        42,
        "{\"work\":1}".to_string(),
        -3,
        "running".to_string(),
        2,
        5,
        Some("timeout".to_string()),
        Some("took too long".to_string()),
        100,
        200,
    )
    .unwrap();
    assert_eq!(job.id, 42);
    assert_eq!(job.payload, "{\"work\":1}");
    assert_eq!(job.priority, -3);
    assert_eq!(job.state, JobState::Running);
    assert_eq!(job.attempt, 2);
    assert_eq!(job.max_attempts, 5);
    assert_eq!(job.created_at, 100);
    assert_eq!(job.updated_at, 200);
    let f = job.failure.unwrap();
    assert_eq!(f.kind, FailureKind::Timeout);
    assert_eq!(f.reason, "took too long");
}

#[test]
fn row_without_failure_columns_decodes_with_no_failure() {
    let job = row_to_job(
        1,
        String::new(),
        0,
        "queued".to_string(),
        0,
        3,
        None,
        None,
        1,
        1,
    )
    .unwrap();
    assert!(job.failure.is_none());
    assert_eq!(job.state, JobState::Queued);
}

#[test]
fn failure_kind_without_reason_is_a_database_error() {
    let refused = row_to_job(
        1,
        String::new(),
        0,
        "failed".to_string(),
        1,
        3,
        Some("user_error".to_string()),
        None,
        1,
        1,
    );
    assert!(matches!(refused, Err(RepositoryError::Database(_))));
}

#[test]
fn unrecognized_state_in_a_row_reads_as_failed() {
    let job = row_to_job(
        1,
        String::new(),
        0,
        "exploded".to_string(),
        0,
        3,
        Some("strange".to_string()),
        Some("r".to_string()),
        1,
        1,
    )
    .unwrap();
    assert_eq!(job.state, JobState::Failed);
    assert_eq!(job.failure.unwrap().kind, FailureKind::SystemError);
}
