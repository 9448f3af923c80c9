use job_orchestrator::job::Job;
use job_orchestrator::orchestrator::tick;
use job_orchestrator::state::JobState;
use job_orchestrator::store::InMemoryJobStore;

fn seed(store: &mut InMemoryJobStore, id: u128, priority: i32, created_at: i64) {
    let job = Job {
        id,
        payload: "{}".to_string(),
        priority,
        state: JobState::Queued,
        attempt: 0,
        max_attempts: 3,
        failure: None,
        created_at,
        updated_at: created_at,
    };
    store.insert_job(&job).unwrap();
}

#[test]
fn tick_admits_up_to_free_capacity_in_schedule_order() {
    let mut store = InMemoryJobStore::new();
    seed(&mut store, 1, 1, 10);
    seed(&mut store, 2, 2, 20);
    seed(&mut store, 3, 2, 5);
    seed(&mut store, 4, 1, 1);
    // one job is already running
    seed(&mut store, 9, 0, 0);
    store
        .update_job_state(9, JobState::Queued, JobState::Running, None, 1)
        .unwrap();

    let admitted = tick(&mut store, 3, 100).unwrap();
    assert_eq!(admitted, vec![3u128, 2u128]);

    assert_eq!(store.get_job(3).unwrap().state, JobState::Running);
    assert_eq!(store.get_job(2).unwrap().state, JobState::Running);
    assert_eq!(store.get_job(4).unwrap().state, JobState::Queued);
    assert_eq!(store.get_job(1).unwrap().state, JobState::Queued);
}

#[test]
fn tick_with_no_capacity_admits_nothing() {
    let mut store = InMemoryJobStore::new();
    seed(&mut store, 1, 0, 1);
    seed(&mut store, 2, 0, 2);
    store
        .update_job_state(1, JobState::Queued, JobState::Running, None, 5)
        .unwrap();

    let admitted = tick(&mut store, 1, 100).unwrap();
    assert!(admitted.is_empty());
    assert_eq!(store.get_job(2).unwrap().state, JobState::Queued);
}

#[test]
fn under_admission_self_corrects_on_the_next_tick() {
    let mut store = InMemoryJobStore::new();
    seed(&mut store, 1, 0, 1);
    seed(&mut store, 2, 0, 2);
    seed(&mut store, 3, 0, 3);

    let first = tick(&mut store, 2, 100).unwrap();
    assert_eq!(first, vec![1u128, 2u128]);

    // the two admitted jobs finished; nothing is running any more
    store
        .update_job_state(1, JobState::Running, JobState::Succeeded, None, 101)
        .unwrap();
    store
        .update_job_state(2, JobState::Running, JobState::Succeeded, None, 102)
        .unwrap();

    let second = tick(&mut store, 2, 103).unwrap();
    assert_eq!(second, vec![3u128]);
    assert_eq!(store.get_job(3).unwrap().state, JobState::Running);
}

#[test]
fn tick_writes_one_audit_row_per_admission() {
    let mut store = InMemoryJobStore::new();
    seed(&mut store, 1, 0, 1);
    seed(&mut store, 2, 0, 2);

    let before = store.events().len();
    let admitted = tick(&mut store, 10, 100).unwrap();
    assert_eq!(admitted.len(), 2);
    assert_eq!(store.events().len(), before + 2);
    let events = store.events();
    assert_eq!(events[before].to_state, JobState::Running);
    assert_eq!(events[before].occurred_at, 100);
}

#[test]
fn empty_tick_leaves_the_store_unchanged() {
    let mut store = InMemoryJobStore::new();
    seed(&mut store, 1, 0, 1);
    store
        .update_job_state(1, JobState::Queued, JobState::Running, None, 2)
        .unwrap();
    let events_before = store.events().len();

    // saturated: the selection is empty, and nothing moves
    let admitted = tick(&mut store, 1, 100).unwrap();
    assert!(admitted.is_empty());
    assert_eq!(store.events().len(), events_before);
    assert_eq!(store.get_job(1).unwrap().state, JobState::Running);
    assert_eq!(store.get_job(1).unwrap().updated_at, 2);
}
