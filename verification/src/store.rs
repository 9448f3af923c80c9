use vstd::prelude::*;

use crate::failure::Failure;
use crate::job::ids_unique;
use crate::job::running_pred;
use crate::job::Job;
use crate::scheduler::schedule_order;
use crate::scheduler::sorted_queued;
use crate::state::is_terminal;
use crate::state::lemma_reachable_transitive;
use crate::state::lemma_transition_edge_reachable;
use crate::state::reachable_from;
use crate::state::transition_allowed;
use crate::state::JobState;

verus! {

/// The repository's single error: the store failed or refused an operation;
/// the message describes the fault.
#[derive(Debug)]
pub enum RepositoryError {
    Database(String),
}

/// One append-only audit row, written atomically with a job mutation.
#[derive(Debug)]
pub struct JobEvent {
    pub job_id: u128,
    pub from_state: JobState,
    pub to_state: JobState,
    pub event_reason: String,
    pub occurred_at: i64,
}

impl Clone for JobEvent {
    fn clone(&self) -> (r: Self)
        ensures
            r == *self,
    {
        JobEvent {
            job_id: self.job_id,
            from_state: self.from_state,
            to_state: self.to_state,
            event_reason: self.event_reason.clone(),
            occurred_at: self.occurred_at,
        }
    }
}

/// Some row of `s` carries this id.
pub open spec fn has_job(s: Seq<Job>, id: u128) -> bool {
    exists|i: int| 0 <= i < s.len() && (#[trigger] s[i]).id == id
}

/// Some row of `s` carries this id and is currently in state `st`.
pub open spec fn has_job_in_state(s: Seq<Job>, id: u128, st: JobState) -> bool {
    exists|i: int| 0 <= i < s.len() && (#[trigger] s[i]).id == id && s[i].state == st
}

/// The index of the row carrying this id; meaningful when ids are unique.
pub open spec fn job_index(s: Seq<Job>, id: u128) -> int {
    choose|i: int| 0 <= i < s.len() && (#[trigger] s[i]).id == id
}

/// With unique ids, the row found at `i` is the row `job_index` names.
pub proof fn lemma_job_index_of(s: Seq<Job>, id: u128, i: int)
    requires
        ids_unique(s),
        0 <= i < s.len(),
        s[i].id == id,
    ensures
        has_job(s, id),
        job_index(s, id) == i,
{
    assert(has_job(s, id));
    let i2 = job_index(s, id);
    if i2 != i {
        assert(s[i].id != s[i2].id);
    }
}

/// The failure descriptor handed to a conditional update, by value.
pub open spec fn failure_value(failure: Option<&Failure>) -> Option<Failure> {
    match failure {
        Some(f) => Some(*f),
        None => None,
    }
}

/// The row a matched conditional update writes: the new state; the attempt
/// counter incremented exactly when the target is `Failed`; the failure
/// columns set on `Failed` and cleared otherwise; `updated_at` set to the
/// server's clock.
pub open spec fn updated_row(j: Job, to: JobState, failure: Option<Failure>, now: i64) -> Job {
    Job {
        state: to,
        attempt: if to == JobState::Failed {
            (j.attempt + 1) as u32
        } else {
            j.attempt
        },
        failure: if to == JobState::Failed {
            failure
        } else {
            None
        },
        updated_at: now,
        ..j
    }
}

/// One requested conditional update of a single job row.
pub struct UpdateRequest {
    pub from: JobState,
    pub to: JobState,
    pub failure: Option<Failure>,
    pub now: i64,
}

/// A request the store accepts: an edge of the transition table, with a
/// failure descriptor whenever the target is `Failed`.
pub open spec fn request_wf(c: UpdateRequest) -> bool {
    transition_allowed(c.from, c.to) && (c.to == JobState::Failed ==> c.failure is Some)
}

/// What one conditional update does to one row: the update applies exactly
/// when the row's current state equals the expected one, and otherwise the
/// row is untouched (a lost race).
pub open spec fn apply_request(j: Job, c: UpdateRequest) -> Job {
    if j.state == c.from {
        updated_row(j, c.to, c.failure, c.now)
    } else {
        j
    }
}

/// `j` after a whole sequence of conditional updates, applied in order.
pub open spec fn apply_requests(j: Job, cs: Seq<UpdateRequest>) -> Job
    decreases cs.len(),
{
    if cs.len() == 0 {
        j
    } else {
        apply_requests(apply_request(j, cs[0]), cs.drop_first())
    }
}

/// For any sequence of accepted conditional updates on one job, the final
/// state is reachable from the starting state under the transition graph.
pub proof fn lemma_update_sequence_reachable(j: Job, cs: Seq<UpdateRequest>)
    requires
        forall|i: int| 0 <= i < cs.len() ==> request_wf(#[trigger] cs[i]),
    ensures
        reachable_from(j.state, apply_requests(j, cs).state),
    decreases cs.len(),
{
    if cs.len() == 0 {
    } else {
        let j1 = apply_request(j, cs[0]);
        if j.state == cs[0].from {
            lemma_transition_edge_reachable(cs[0].from, cs[0].to);
        }
        assert(forall|i: int|
            0 <= i < cs.drop_first().len() ==> request_wf(#[trigger] cs.drop_first()[i]));
        lemma_update_sequence_reachable(j1, cs.drop_first());
        lemma_reachable_transitive(j.state, j1.state, apply_requests(j1, cs.drop_first()).state);
    }
}

/// Terminal states are absorbing: an accepted conditional update never moves
/// a job whose state is terminal.
pub proof fn lemma_terminal_states_absorbing(j: Job, c: UpdateRequest)
    requires
        request_wf(c),
        is_terminal(j.state),
    ensures
        apply_request(j, c) == j,
{
}

/// Once terminal, always terminal: a whole sequence of accepted conditional
/// updates leaves a job whose state is terminal untouched.
pub proof fn lemma_terminal_absorbing_sequence(j: Job, cs: Seq<UpdateRequest>)
    requires
        forall|i: int| 0 <= i < cs.len() ==> request_wf(#[trigger] cs[i]),
        is_terminal(j.state),
    ensures
        apply_requests(j, cs) == j,
    decreases cs.len(),
{
    if cs.len() == 0 {
    } else {
        lemma_terminal_states_absorbing(j, cs[0]);
        assert(forall|i: int|
            0 <= i < cs.drop_first().len() ==> request_wf(#[trigger] cs.drop_first()[i]));
        lemma_terminal_absorbing_sequence(j, cs.drop_first());
    }
}

/// After a matched conditional update, a subsequent read of the id sees the
/// new state, the attached failure when the target was `Failed`, and no
/// failure otherwise (`get_job` returns exactly the row `job_index` names).
pub proof fn lemma_update_read_back(
    s: Seq<Job>,
    job_id: u128,
    to: JobState,
    failure: Option<Failure>,
    now: i64,
)
    requires
        ids_unique(s),
        has_job(s, job_id),
    ensures
        ({
            let i = job_index(s, job_id);
            let s1 = s.update(i, updated_row(s[i], to, failure, now));
            &&& has_job(s1, job_id)
            &&& job_index(s1, job_id) == i
            &&& s1[job_index(s1, job_id)].state == to
            &&& (to == JobState::Failed ==> s1[job_index(s1, job_id)].failure == failure)
            &&& (to != JobState::Failed ==> s1[job_index(s1, job_id)].failure is None)
        }),
{
    let k = choose|k: int| 0 <= k < s.len() && (#[trigger] s[k]).id == job_id;
    lemma_job_index_of(s, job_id, k);
    let i = job_index(s, job_id);
    let s1 = s.update(i, updated_row(s[i], to, failure, now));
    assert(ids_unique(s1)) by {
        assert(forall|m: int| 0 <= m < s.len() ==> (#[trigger] s1[m]).id == s[m].id);
    }
    lemma_job_index_of(s1, job_id, i);
}

/// An in-memory job store realizing the repository contract: reads over a
/// snapshot, and a conditional state change written atomically with one
/// append-only audit row.
#[derive(Debug)]
pub struct InMemoryJobStore {
    jobs: Vec<Job>,
    events: Vec<JobEvent>,
}

impl InMemoryJobStore {
    /// The job rows, in insertion order.
    pub closed spec fn jobs_view(self) -> Seq<Job> {
        self.jobs@
    }

    /// The audit rows, in commit order.
    pub closed spec fn events_view(self) -> Seq<JobEvent> {
        self.events@
    }

    /// Ids are unique and every row is well formed.
    pub open spec fn wf(self) -> bool {
        ids_unique(self.jobs_view()) && forall|i: int|
            0 <= i < self.jobs_view().len() ==> (#[trigger] self.jobs_view()[i]).wf()
    }

    /// The row carrying this id, if any, has not exhausted its attempts:
    /// counting one more failure keeps `attempt <= max_attempts`.
    pub open spec fn can_count_failure(self, job_id: u128) -> bool {
        forall|i: int|
            0 <= i < self.jobs_view().len() && (#[trigger] self.jobs_view()[i]).id == job_id
                ==> self.jobs_view()[i].attempt < self.jobs_view()[i].max_attempts
    }

    /// The clock value `now` is at or after the last update of the row
    /// carrying this id: the server's clock does not run backwards.
    pub open spec fn row_not_after(self, job_id: u128, now: i64) -> bool {
        forall|i: int|
            0 <= i < self.jobs_view().len() && (#[trigger] self.jobs_view()[i]).id == job_id
                ==> self.jobs_view()[i].updated_at <= now
    }

    /// The clock value `now` is at or after the last update of every row.
    pub open spec fn clock_at_or_after(self, now: i64) -> bool {
        forall|i: int|
            0 <= i < self.jobs_view().len() ==> (#[trigger] self.jobs_view()[i]).updated_at <= now
    }

    pub fn new() -> (r: Self)
        ensures
            r.wf(),
            r.jobs_view() == Seq::<Job>::empty(),
            r.events_view() == Seq::<JobEvent>::empty(),
    {
        InMemoryJobStore { jobs: Vec::new(), events: Vec::new() }
    }

    /// The audit rows, in commit order.
    pub fn events(&self) -> (r: &Vec<JobEvent>)
        ensures
            r@ == self.events_view(),
    {
        &self.events
    }

    /// The row carrying this id, if the store holds one.
    pub fn get_job(&self, job_id: u128) -> (r: Option<&Job>)
        requires
            self.wf(),
        ensures
            match r {
                Some(j) => has_job(self.jobs_view(), job_id) && *j == self.jobs_view()[job_index(
                    self.jobs_view(),
                    job_id,
                )],
                None => !has_job(self.jobs_view(), job_id),
            },
    {
        let n = self.jobs.len();
        let mut i: usize = 0;
        while i < n
            invariant
                0 <= i <= n,
                n == self.jobs@.len(),
                self.wf(),
                forall|k: int| 0 <= k < i ==> (#[trigger] self.jobs@[k]).id != job_id,
            decreases n - i,
        {
            if self.jobs[i].id == job_id {
                proof {
                    lemma_job_index_of(self.jobs@, job_id, i as int);
                }
                return Some(&self.jobs[i]);
            }
            i = i + 1;
        }
        None
    }

    /// Writes the job row and its `created` audit event atomically; refused
    /// when the id conflicts with an existing row.
    pub fn insert_job(&mut self, job: &Job) -> (r: Result<(), RepositoryError>)
        requires
            old(self).wf(),
            job.wf(),
        ensures
            final(self).wf(),
            r is Ok <==> !has_job(old(self).jobs_view(), job.id),
            r is Err ==> *final(self) == *old(self),
            r is Ok ==> final(self).jobs_view() == old(self).jobs_view().push(*job),
            r is Ok ==> final(self).events_view().drop_last() == old(self).events_view()
                && final(self).events_view().len() == old(self).events_view().len() + 1 && ({
                let e = final(self).events_view().last();
                e.job_id == job.id && e.from_state == job.state && e.to_state == job.state
                    && e.event_reason@ == "job created"@ && e.occurred_at == job.created_at
            }),
    {
        let n = self.jobs.len();
        let mut i: usize = 0;
        while i < n
            invariant
                0 <= i <= n,
                n == self.jobs@.len(),
                *self == *old(self),
                self.wf(),
                forall|k: int| 0 <= k < i ==> (#[trigger] self.jobs@[k]).id != job.id,
            decreases n - i,
        {
            if self.jobs[i].id == job.id {
                proof {
                    assert(has_job(self.jobs@, job.id));
                }
                return Err(
                    RepositoryError::Database(
                        String::from_str("insert refused: job id conflicts with an existing row"),
                    ),
                );
            }
            i = i + 1;
        }
        self.jobs.push(job.clone());
        self.events.push(
            JobEvent {
                job_id: job.id,
                from_state: job.state,
                to_state: job.state,
                event_reason: String::from_str("job created"),
                occurred_at: job.created_at,
            },
        );
        proof {
            assert(self.events@.drop_last() =~= old(self).events@);
            assert forall|a: int, b: int|
                0 <= a < b < self.jobs@.len() implies (#[trigger] self.jobs@[a]).id != (
            #[trigger] self.jobs@[b]).id by {
                if b == self.jobs@.len() - 1 {
                    assert(self.jobs@[a] == old(self).jobs@[a]);
                }
            }
            assert forall|k: int| 0 <= k < self.jobs@.len() implies (#[trigger] self.jobs@[k]).wf() by {
                if k < old(self).jobs@.len() {
                    assert(self.jobs@[k] == old(self).jobs@[k]);
                } else {
                    assert(self.jobs@[k] == *job);
                }
            }
        }
        Ok(())
    }

    /// The conditional state change: applied only when the row carrying
    /// `job_id` is currently in state `from`, and then atomically paired with
    /// one audit event. `Ok(true)` says exactly one row was updated; a lost
    /// race is the distinguished success `Ok(false)`, never an error. A
    /// target of `Failed` without a failure descriptor is refused.
    #[verifier::loop_isolation(false)]
    pub fn update_job_state(
        &mut self,
        job_id: u128,
        from: JobState,
        to: JobState,
        failure: Option<&Failure>,
        now: i64,
    ) -> (r: Result<bool, RepositoryError>)
        requires
            old(self).wf(),
            transition_allowed(from, to),
            to == JobState::Failed ==> old(self).can_count_failure(job_id),
            old(self).row_not_after(job_id, now),
        ensures
            final(self).wf(),
            r is Err <==> to == JobState::Failed && failure is None,
            r is Err ==> *final(self) == *old(self),
            r == Ok::<bool, RepositoryError>(false) ==> *final(self) == *old(self),
            r == Ok::<bool, RepositoryError>(true) <==> !(to == JobState::Failed && failure is None)
                && has_job_in_state(old(self).jobs_view(), job_id, from),
            r == Ok::<bool, RepositoryError>(true) ==> ({
                let v0 = old(self).jobs_view();
                let i = job_index(v0, job_id);
                final(self).jobs_view() == v0.update(
                    i,
                    apply_request(
                        v0[i],
                        UpdateRequest { from, to, failure: failure_value(failure), now },
                    ),
                )
            }),
            r == Ok::<bool, RepositoryError>(true) ==> ({
                let v0 = old(self).jobs_view();
                let v1 = final(self).jobs_view();
                let i = job_index(v1, job_id);
                &&& has_job(v1, job_id)
                &&& i == job_index(v0, job_id)
                &&& v1[i].state == to
                &&& v1[i].failure == (if to == JobState::Failed {
                    failure_value(failure)
                } else {
                    None::<Failure>
                })
                &&& v1[i].attempt == (if to == JobState::Failed {
                    v0[i].attempt + 1
                } else {
                    v0[i].attempt as int
                })
                &&& v1[i].updated_at == now
                &&& v1[i].updated_at >= v0[i].updated_at
                &&& v1[i].id == v0[i].id
                &&& v1[i].priority == v0[i].priority
                &&& v1[i].payload == v0[i].payload
                &&& v1[i].max_attempts == v0[i].max_attempts
                &&& v1[i].created_at == v0[i].created_at
            }),
            r == Ok::<bool, RepositoryError>(true) ==> final(self).events_view().drop_last() == old(self).events_view()
                && final(self).events_view().len() == old(self).events_view().len() + 1 && ({
                let e = final(self).events_view().last();
                e.job_id == job_id && e.from_state == from && e.to_state == to && e.event_reason@
                    == "state transition"@ && e.occurred_at == now
            }),
            r == Ok::<bool, RepositoryError>(false) ==> !has_job_in_state(old(self).jobs_view(), job_id, from),
    {
        if to == JobState::Failed && failure.is_none() {
            return Err(
                RepositoryError::Database(
                    String::from_str(
                        "update refused: a transition to the failed state needs a failure",
                    ),
                ),
            );
        }
        let n = self.jobs.len();
        let mut i: usize = 0;
        while i < n
            invariant
                0 <= i <= n,
                n == self.jobs@.len(),
                *self == *old(self),
                forall|k: int| 0 <= k < i ==> (#[trigger] self.jobs@[k]).id != job_id,
            decreases n - i,
        {
            if self.jobs[i].id == job_id {
                proof {
                    lemma_job_index_of(self.jobs@, job_id, i as int);
                }
                if self.jobs[i].state == from {
                    let new_row = Job {
                        id: self.jobs[i].id,
                        payload: self.jobs[i].payload.clone(),
                        priority: self.jobs[i].priority,
                        state: to,
                        attempt: if to == JobState::Failed {
                            self.jobs[i].attempt + 1
                        } else {
                            self.jobs[i].attempt
                        },
                        max_attempts: self.jobs[i].max_attempts,
                        failure: if to == JobState::Failed {
                            match failure {
                                Some(f) => Some(f.clone()),
                                None => None,
                            }
                        } else {
                            None
                        },
                        created_at: self.jobs[i].created_at,
                        updated_at: now,
                    };
                    proof {
                        assert(new_row == apply_request(
                            self.jobs@[i as int],
                            UpdateRequest { from, to, failure: failure_value(failure), now },
                        ));
                    }
                    self.jobs[i] = new_row;
                    self.events.push(
                        JobEvent {
                            job_id,
                            from_state: from,
                            to_state: to,
                            event_reason: String::from_str("state transition"),
                            occurred_at: now,
                        },
                    );
                    proof {
                        let v0 = old(self).jobs_view();
                        let v1 = self.jobs_view();
                        assert(v1 == v0.update(i as int, new_row));
                        assert(self.events@.drop_last() =~= old(self).events@);
                        assert(has_job_in_state(v0, job_id, from));
                        assert forall|a: int, b: int|
                            0 <= a < b < v1.len() implies (#[trigger] v1[a]).id != (
                        #[trigger] v1[b]).id by {
                            assert(v1[a].id == v0[a].id && v1[b].id == v0[b].id);
                        }
                        assert forall|k: int| 0 <= k < v1.len() implies (#[trigger] v1[k]).wf() by {
                            if k != i as int {
                                assert(v1[k] == v0[k]);
                            }
                        }
                        lemma_job_index_of(v1, job_id, i as int);
                    }
                    return Ok(true);
                } else {
                    proof {
                        let v0 = old(self).jobs_view();
                        if has_job_in_state(v0, job_id, from) {
                            let k = choose|k: int|
                                0 <= k < v0.len() && (#[trigger] v0[k]).id == job_id && v0[k].state
                                    == from;
                            if k != i as int {
                                assert(v0[k].id != v0[i as int].id);
                            }
                        }
                    }
                    return Ok(false);
                }
            }
            i = i + 1;
        }
        proof {
            if has_job_in_state(self.jobs@, job_id, from) {
                let k = choose|k: int|
                    0 <= k < self.jobs@.len() && (#[trigger] self.jobs@[k]).id == job_id
                        && self.jobs@[k].state == from;
            }
        }
        Ok(false)
    }

    /// A snapshot of the rows whose state is `Queued`, ordered by
    /// `(priority descending, created_at ascending)`.
    pub fn fetch_queued_jobs(&self) -> (r: Vec<Job>)
        ensures
            r@ == schedule_order(self.jobs_view()),
    {
        sorted_queued(self.jobs.as_slice())
    }

    /// A snapshot of the rows whose state is `Running`, in row order.
    pub fn fetch_running_jobs(&self) -> (r: Vec<Job>)
        ensures
            r@ == self.jobs_view().filter(running_pred()),
    {
        let n = self.jobs.len();
        let mut out: Vec<Job> = Vec::new();
        let mut i: usize = 0;
        proof {
            assert(self.jobs@.take(0) =~= Seq::<Job>::empty());
            reveal(Seq::filter);
            assert(out@ =~= self.jobs@.take(0).filter(running_pred()));
        }
        while i < n
            invariant
                0 <= i <= n,
                n == self.jobs@.len(),
                out@ == self.jobs@.take(i as int).filter(running_pred()),
            decreases n - i,
        {
            proof {
                crate::job::lemma_filter_push(
                    self.jobs@.take(i as int),
                    self.jobs@[i as int],
                    running_pred(),
                );
                assert(self.jobs@.take(i as int).push(self.jobs@[i as int]) =~= self.jobs@.take(
                    i + 1,
                ));
            }
            if self.jobs[i].state == JobState::Running {
                out.push(self.jobs[i].clone());
            }
            i = i + 1;
        }
        proof {
            assert(self.jobs@.take(n as int) =~= self.jobs@);
        }
        out
    }
}

} // verus!
