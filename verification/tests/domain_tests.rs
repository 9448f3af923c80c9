use job_orchestrator::failure::{Failure, FailureKind};
use job_orchestrator::job::Job;
use job_orchestrator::state::{JobState, StateTransitionError};

fn all_states() -> Vec<JobState> {
    vec![
        JobState::Queued,
        JobState::Running,
        JobState::Succeeded,
        JobState::Failed,
        JobState::Cancelled,
    ]
}

fn edge_allowed(from: JobState, to: JobState) -> bool {
    matches!(
        (from, to),
        (JobState::Queued, JobState::Running)
            | (JobState::Queued, JobState::Cancelled)
            | (JobState::Running, JobState::Succeeded)
            | (JobState::Running, JobState::Failed)
            | (JobState::Running, JobState::Cancelled)
    )
}

#[test]
fn transition_table_is_exact() {
    let f = Failure::user("boom".to_string());
    for from in all_states() {
        for to in all_states() {
            let r = from.transition(to, Some(&f));
            assert_eq!(r.is_ok(), edge_allowed(from, to));
            match r {
                Ok(next) => assert_eq!(next, to),
                Err(StateTransitionError::InvalidTransition { from: a, to: b }) => {
                    assert_eq!(a, from);
                    assert_eq!(b, to);
                }
            }
        }
    }
}

#[test]
fn failing_needs_a_failure_descriptor() {
    let r = JobState::Running.transition(JobState::Failed, None);
    assert!(matches!(
        r,
        Err(StateTransitionError::InvalidTransition {
            from: JobState::Running,
            to: JobState::Failed
        })
    ));

    let f = Failure::timeout("too slow".to_string());
    let ok = JobState::Running.transition(JobState::Failed, Some(&f));
    assert_eq!(ok.unwrap(), JobState::Failed);
}

#[test]
fn succeeding_needs_no_failure_descriptor() {
    let r = JobState::Running.transition(JobState::Succeeded, None);
    assert_eq!(r.unwrap(), JobState::Succeeded);
}

#[test]
fn terminal_states_reject_every_transition() {
    let f = Failure::system("x".to_string());
    for from in [JobState::Succeeded, JobState::Failed, JobState::Cancelled] {
        for to in all_states() {
            assert!(from.transition(to, Some(&f)).is_err());
        }
    }
}

#[test]
fn failure_constructors_set_kind_and_reason() {
    let u = Failure::user("bad input".to_string());
    assert_eq!(u.kind, FailureKind::UserError);
    assert_eq!(u.reason, "bad input");

    let s = Failure::system("disk gone".to_string());
    assert_eq!(s.kind, FailureKind::SystemError);
    assert_eq!(s.reason, "disk gone");

    let t = Failure::timeout("deadline".to_string());
    assert_eq!(t.kind, FailureKind::Timeout);
    assert_eq!(t.reason, "deadline");
}

#[test]
fn can_retry_compares_attempt_to_max() {
    let mut j = Job {
        id: 1,
        payload: String::new(),
        priority: 0,
        state: JobState::Queued,
        attempt: 2,
        max_attempts: 3,
        failure: None,
        created_at: 0,
        updated_at: 0,
    };
    assert!(j.can_retry());
    j.attempt = 3;
    assert!(!j.can_retry());
}
