use job_orchestrator::failure::{Failure, FailureKind};
use job_orchestrator::job::Job;
use job_orchestrator::state::JobState;
use job_orchestrator::store::{InMemoryJobStore, RepositoryError};

fn queued_job(id: u128, priority: i32, created_at: i64) -> Job {
    Job {
        id,
        payload: "{}".to_string(),
        priority,
        state: JobState::Queued,
        attempt: 0,
        max_attempts: 3,
        failure: None,
        created_at,
        updated_at: created_at,
    }
}

#[test]
fn insert_then_read_back() {
    let mut store = InMemoryJobStore::new();
    let job = queued_job(7, 5, 100);
    assert!(store.insert_job(&job).is_ok());

    let read = store.get_job(7).expect("the row was just written");
    assert_eq!(read.id, 7);
    assert_eq!(read.priority, 5);
    assert_eq!(read.state, JobState::Queued);
    assert_eq!(read.created_at, 100);
}

#[test]
fn insert_with_conflicting_id_is_a_database_error() {
    let mut store = InMemoryJobStore::new();
    assert!(store.insert_job(&queued_job(7, 0, 0)).is_ok());
    let again = store.insert_job(&queued_job(7, 9, 9));
    assert!(matches!(again, Err(RepositoryError::Database(_))));
    // the store is untouched by the refused insert
    assert_eq!(store.get_job(7).unwrap().priority, 0);
}

#[test]
fn successful_update_is_visible_to_a_subsequent_read() {
    let mut store = InMemoryJobStore::new();
    store.insert_job(&queued_job(1, 0, 10)).unwrap();

    let updated = store
        .update_job_state(1, JobState::Queued, JobState::Running, None, 20)
        .unwrap();
    assert!(updated);

    let read = store.get_job(1).unwrap();
    assert_eq!(read.state, JobState::Running);
    assert_eq!(read.updated_at, 20);
    assert_eq!(read.attempt, 0);
    assert!(read.failure.is_none());
}

#[test]
fn failed_update_attaches_failure_and_counts_the_attempt() {
    let mut store = InMemoryJobStore::new();
    store.insert_job(&queued_job(1, 0, 10)).unwrap();
    store
        .update_job_state(1, JobState::Queued, JobState::Running, None, 20)
        .unwrap();

    let f = Failure::user("handler said no".to_string());
    let updated = store
        .update_job_state(1, JobState::Running, JobState::Failed, Some(&f), 30)
        .unwrap();
    assert!(updated);

    let read = store.get_job(1).unwrap();
    assert_eq!(read.state, JobState::Failed);
    assert_eq!(read.attempt, 1);
    let attached = read.failure.as_ref().unwrap();
    assert_eq!(attached.kind, FailureKind::UserError);
    assert_eq!(attached.reason, "handler said no");
}

#[test]
fn failed_target_without_failure_is_refused() {
    let mut store = InMemoryJobStore::new();
    store.insert_job(&queued_job(1, 0, 10)).unwrap();
    store
        .update_job_state(1, JobState::Queued, JobState::Running, None, 20)
        .unwrap();

    let refused = store.update_job_state(1, JobState::Running, JobState::Failed, None, 30);
    assert!(matches!(refused, Err(RepositoryError::Database(_))));
    // the refused update changed nothing
    assert_eq!(store.get_job(1).unwrap().state, JobState::Running);
}

#[test]
fn lost_admission_race_reports_zero_rows() {
    let mut store = InMemoryJobStore::new();
    store.insert_job(&queued_job(1, 0, 10)).unwrap();

    // two orchestrator instances observed the same queued job; both attempt
    // the same conditional update, one after the other
    let first = store
        .update_job_state(1, JobState::Queued, JobState::Running, None, 20)
        .unwrap();
    let second = store
        .update_job_state(1, JobState::Queued, JobState::Running, None, 21)
        .unwrap();

    assert!(first);
    assert!(!second);
    // the loser changed nothing
    let read = store.get_job(1).unwrap();
    assert_eq!(read.state, JobState::Running);
    assert_eq!(read.updated_at, 20);
}

#[test]
fn clearing_failure_when_leaving_failed_is_not_reachable_but_running_clears_columns() {
    let mut store = InMemoryJobStore::new();
    let mut job = queued_job(3, 0, 5);
    job.failure = Some(Failure::system("left over from an earlier run".to_string()));
    store.insert_job(&job).unwrap();

    store
        .update_job_state(3, JobState::Queued, JobState::Running, None, 6)
        .unwrap();
    // the failure columns are cleared when the target is not Failed
    assert!(store.get_job(3).unwrap().failure.is_none());
}

#[test]
fn audit_log_records_insert_and_each_successful_mutation() {
    let mut store = InMemoryJobStore::new();
    store.insert_job(&queued_job(1, 0, 10)).unwrap();
    store
        .update_job_state(1, JobState::Queued, JobState::Running, None, 20)
        .unwrap();
    // a lost race writes no audit row
    store
        .update_job_state(1, JobState::Queued, JobState::Running, None, 21)
        .unwrap();
    let f = Failure::timeout("t".to_string());
    store
        .update_job_state(1, JobState::Running, JobState::Failed, Some(&f), 30)
        .unwrap();

    let events = store.events();
    assert_eq!(events.len(), 3);

    assert_eq!(events[0].job_id, 1);
    assert_eq!(events[0].from_state, JobState::Queued);
    assert_eq!(events[0].to_state, JobState::Queued);
    assert_eq!(events[0].event_reason, "job created");
    assert_eq!(events[0].occurred_at, 10);

    assert_eq!(events[1].from_state, JobState::Queued);
    assert_eq!(events[1].to_state, JobState::Running);
    assert_eq!(events[1].event_reason, "state transition");
    assert_eq!(events[1].occurred_at, 20);

    assert_eq!(events[2].from_state, JobState::Running);
    assert_eq!(events[2].to_state, JobState::Failed);
    assert_eq!(events[2].occurred_at, 30);
}

#[test]
fn fetch_queued_is_sorted_and_fetch_running_keeps_row_order() {
    let mut store = InMemoryJobStore::new();
    store.insert_job(&queued_job(1, 1, 10)).unwrap();
    store.insert_job(&queued_job(2, 2, 20)).unwrap();
    store.insert_job(&queued_job(3, 2, 5)).unwrap();
    store.insert_job(&queued_job(4, 1, 1)).unwrap();
    store
        .update_job_state(4, JobState::Queued, JobState::Running, None, 50)
        .unwrap();

    let queued: Vec<u128> = store.fetch_queued_jobs().iter().map(|j| j.id).collect();
    assert_eq!(queued, vec![3u128, 2u128, 1u128]);

    let running: Vec<u128> = store.fetch_running_jobs().iter().map(|j| j.id).collect();
    assert_eq!(running, vec![4u128]);
}
