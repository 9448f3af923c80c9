use vstd::prelude::*;

use crate::failure::Failure;
use crate::state::JobState;

verus! {

/// A unit of work held by the store.
///
/// The identifier is an opaque 128-bit value; the payload is a structured
/// document carried as text, opaque to the orchestration core; the two
/// timestamps are wall-clock instants encoded as integers, comparable by
/// their numeric order.
#[derive(Debug)]
pub struct Job {
    pub id: u128,
    pub payload: String,
    pub priority: i32,
    pub state: JobState,
    pub attempt: u32,
    pub max_attempts: u32,
    pub failure: Option<Failure>,
    pub created_at: i64,
    pub updated_at: i64,
}

impl Clone for Job {
    fn clone(&self) -> (r: Self)
        ensures
            r == *self,
    {
        Job {
            id: self.id,
            payload: self.payload.clone(),
            priority: self.priority,
            state: self.state,
            attempt: self.attempt,
            max_attempts: self.max_attempts,
            failure: match &self.failure {
                Some(f) => Some(f.clone()),
                None => None,
            },
            created_at: self.created_at,
            updated_at: self.updated_at,
        }
    }
}

impl Job {
    /// A job in `Failed` carries a failure descriptor, its attempt counter
    /// never passes the cap fixed at insert time, and it was not updated
    /// before it was created.
    pub open spec fn wf(self) -> bool {
        &&& self.state == JobState::Failed ==> self.failure is Some
        &&& self.attempt <= self.max_attempts
        &&& self.created_at <= self.updated_at
    }

    /// Whether another run may still be attempted for this job.
    pub fn can_retry(&self) -> (r: bool)
        ensures
            r == (self.attempt < self.max_attempts),
    {
        self.attempt < self.max_attempts
    }
}

/// Holds of a job exactly when its state is `Queued`.
pub open spec fn queued_pred() -> spec_fn(Job) -> bool {
    |j: Job| j.state == JobState::Queued
}

/// Holds of a job exactly when its state is `Running`.
pub open spec fn running_pred() -> spec_fn(Job) -> bool {
    |j: Job| j.state == JobState::Running
}

/// Holds of a job exactly when its state is not `Running`.
pub open spec fn not_running_pred() -> spec_fn(Job) -> bool {
    |j: Job| j.state != JobState::Running
}

/// The ids of the jobs of `s`, in order.
pub open spec fn ids_of(s: Seq<Job>) -> Seq<u128> {
    s.map_values(|j: Job| j.id)
}

/// No two jobs of `s` share an id.
pub open spec fn ids_unique(s: Seq<Job>) -> bool {
    forall|i: int, j: int| 0 <= i < j < s.len() ==> (#[trigger] s[i]).id != (#[trigger] s[j]).id
}

/// No id occurs twice.
pub open spec fn ids_nodup(ids: Seq<u128>) -> bool {
    forall|i: int, j: int| 0 <= i < j < ids.len() ==> ids[i] != ids[j]
}

/// Filtering rows with unique ids yields ids without duplicates.
pub proof fn lemma_filtered_ids_nodup(s: Seq<Job>, pred: spec_fn(Job) -> bool)
    requires
        ids_unique(s),
    ensures
        ids_nodup(ids_of(s.filter(pred))),
    decreases s.len(),
{
    reveal(Seq::filter);
    if s.len() == 0 {
    } else {
        let s0 = s.drop_last();
        lemma_filtered_ids_nodup(s0, pred);
        assert(forall|i: int, j: int|
            0 <= i < j < s0.len() ==> (#[trigger] s0[i]).id != (#[trigger] s0[j]).id);
        if pred(s.last()) {
            let f0 = s0.filter(pred);
            assert forall|i: int| 0 <= i < f0.len() implies (#[trigger] f0[i]).id != s.last().id by {
                assert(f0.contains(f0[i]));
                s0.lemma_filter_contains_rev(pred, f0[i]);
                let k = s0.lemma_contains_to_index(f0[i]);
                assert(s[k].id != s[s.len() - 1].id);
            }
            assert(ids_of(f0.push(s.last())) =~= ids_of(f0).push(s.last().id));
        }
    }
}

/// Filtering by a predicate that every element satisfies keeps the sequence.
pub proof fn lemma_filter_all(s: Seq<Job>, pred: spec_fn(Job) -> bool)
    requires
        forall|i: int| 0 <= i < s.len() ==> pred(#[trigger] s[i]),
    ensures
        s.filter(pred) == s,
    decreases s.len(),
{
    reveal(Seq::filter);
    if s.len() == 0 {
        assert(s.filter(pred) =~= s);
    } else {
        lemma_filter_all(s.drop_last(), pred);
        assert(s.drop_last().push(s.last()) =~= s);
    }
}

/// Filtering commutes with appending one element.
pub proof fn lemma_filter_push(s: Seq<Job>, x: Job, pred: spec_fn(Job) -> bool)
    ensures
        s.push(x).filter(pred) == if pred(x) {
            s.filter(pred).push(x)
        } else {
            s.filter(pred)
        },
{
    reveal(Seq::filter);
    assert(s.push(x).drop_last() =~= s);
    assert(s.push(x).last() == x);
}

} // verus!
