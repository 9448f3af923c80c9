use job_orchestrator::job::Job;
use job_orchestrator::scheduler::{select_jobs, SchedulerDecision, SchedulerInput};
use job_orchestrator::state::JobState;

fn job(id: u8, priority: i32, created_at: i64) -> Job {
    Job {
        id: id as u128,
        payload: "{}".to_string(),
        priority,
        state: JobState::Queued,
        attempt: 0,
        max_attempts: 3,
        failure: None,
        created_at,
        updated_at: created_at,
    }
}

#[test]
fn respects_concurrency_limit() {
    let jobs = vec![job(1, 0, 1), job(2, 0, 2), job(3, 0, 3)];

    let decision = select_jobs(SchedulerInput {
        queued_jobs: &jobs,
        running_count: 1,
        max_concurrency: 2,
    });

    assert_eq!(decision.selected_job_ids.len(), 1);
    assert_eq!(decision.remaining_capacity, 0);
}

#[test]
fn orders_by_priority_then_fifo() {
    let jobs = vec![job(1, 1, 10), job(2, 2, 20), job(3, 2, 5), job(4, 1, 1)];

    let decision = select_jobs(SchedulerInput {
        queued_jobs: &jobs,
        running_count: 0,
        max_concurrency: 10,
    });

    let expected = vec![3u128, 2u128, 4u128, 1u128];

    assert_eq!(decision.selected_job_ids, expected);
}

#[test]
fn selects_nothing_when_saturated() {
    let jobs = vec![job(1, 0, 1)];

    let decision = select_jobs(SchedulerInput {
        queued_jobs: &jobs,
        running_count: 5,
        max_concurrency: 5,
    });

    assert_eq!(
        decision,
        SchedulerDecision {
            selected_job_ids: vec![],
            remaining_capacity: 0
        }
    );
}

#[test]
fn ignores_jobs_that_are_not_queued() {
    let mut running = job(9, 100, 0);
    running.state = JobState::Running;
    let jobs = vec![running, job(1, 0, 1)];

    let decision = select_jobs(SchedulerInput {
        queued_jobs: &jobs,
        running_count: 0,
        max_concurrency: 10,
    });

    assert_eq!(decision.selected_job_ids, vec![1u128]);
    assert_eq!(decision.remaining_capacity, 9);
}

#[test]
fn ties_at_equal_key_keep_input_order() {
    let jobs = vec![job(7, 5, 3), job(8, 5, 3), job(9, 5, 3)];

    let decision = select_jobs(SchedulerInput {
        queued_jobs: &jobs,
        running_count: 0,
        max_concurrency: 10,
    });

    assert_eq!(decision.selected_job_ids, vec![7u128, 8u128, 9u128]);
}

#[test]
fn takes_the_prefix_of_the_sorted_order() {
    let jobs = vec![job(1, 1, 10), job(2, 2, 20), job(3, 2, 5), job(4, 1, 1)];

    let decision = select_jobs(SchedulerInput {
        queued_jobs: &jobs,
        running_count: 0,
        max_concurrency: 2,
    });

    assert_eq!(decision.selected_job_ids, vec![3u128, 2u128]);
    assert_eq!(decision.remaining_capacity, 0);
}

#[test]
fn capacity_formula_is_saturating() {
    let jobs: Vec<Job> = vec![];

    let decision = select_jobs(SchedulerInput {
        queued_jobs: &jobs,
        running_count: 12,
        max_concurrency: 10,
    });

    assert!(decision.selected_job_ids.is_empty());
    assert_eq!(decision.remaining_capacity, 0);
}
