use job_orchestrator::executor::{interpret_outcome, record_outcome, HandlerOutcome};
use job_orchestrator::failure::{Failure, FailureKind};
use job_orchestrator::job::Job;
use job_orchestrator::state::JobState;
use job_orchestrator::store::InMemoryJobStore;

fn running_job(id: u128) -> (InMemoryJobStore, Job) {
    let mut store = InMemoryJobStore::new();
    let job = Job {
        id,
        payload: "{}".to_string(),
        priority: 0,
        state: JobState::Queued,
        attempt: 0,
        max_attempts: 3,
        failure: None,
        created_at: 1,
        updated_at: 1,
    };
    store.insert_job(&job).unwrap();
    store
        .update_job_state(id, JobState::Queued, JobState::Running, None, 2)
        .unwrap();
    (store, job)
}

#[test]
fn completion_is_interpreted_as_success_with_no_failure() {
    let t = interpret_outcome(HandlerOutcome::Completed);
    assert_eq!(t.to, JobState::Succeeded);
    assert!(t.failure.is_none());
}

#[test]
fn a_failure_value_is_interpreted_as_failed_with_that_value() {
    let t = interpret_outcome(HandlerOutcome::Failed(Failure::user("no".to_string())));
    assert_eq!(t.to, JobState::Failed);
    let f = t.failure.unwrap();
    assert_eq!(f.kind, FailureKind::UserError);
    assert_eq!(f.reason, "no");
}

#[test]
fn an_elapsed_deadline_is_interpreted_as_a_timeout_failure() {
    let t = interpret_outcome(HandlerOutcome::TimedOut);
    assert_eq!(t.to, JobState::Failed);
    let f = t.failure.unwrap();
    assert_eq!(f.kind, FailureKind::Timeout);
    assert_eq!(f.reason, "job execution exceeded timeout");
}

#[test]
fn timeout_path_persists_failed_with_timeout_and_counts_the_attempt() {
    let (mut store, _) = running_job(5);

    let wrote = record_outcome(&mut store, 5, HandlerOutcome::TimedOut, 9).unwrap();
    assert!(wrote);

    let read = store.get_job(5).unwrap();
    assert_eq!(read.state, JobState::Failed);
    assert_eq!(read.attempt, 1);
    let f = read.failure.as_ref().unwrap();
    assert_eq!(f.kind, FailureKind::Timeout);
    assert_eq!(f.reason, "job execution exceeded timeout");
}

#[test]
fn completed_run_persists_succeeded_without_failure() {
    let (mut store, _) = running_job(5);

    let wrote = record_outcome(&mut store, 5, HandlerOutcome::Completed, 9).unwrap();
    assert!(wrote);

    let read = store.get_job(5).unwrap();
    assert_eq!(read.state, JobState::Succeeded);
    assert_eq!(read.attempt, 0);
    assert!(read.failure.is_none());
}

#[test]
fn terminal_write_after_a_lost_race_is_a_tolerated_no_op() {
    let (mut store, _) = running_job(5);
    // an external cancel moved the row first
    store
        .update_job_state(5, JobState::Running, JobState::Cancelled, None, 3)
        .unwrap();

    let wrote = record_outcome(&mut store, 5, HandlerOutcome::Completed, 9).unwrap();
    assert!(!wrote);
    assert_eq!(store.get_job(5).unwrap().state, JobState::Cancelled);
}
