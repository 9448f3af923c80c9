use vstd::prelude::*;

use crate::failure::Failure;
use crate::failure::FailureKind;
use crate::job::ids_nodup;
use crate::job::ids_of;
use crate::job::ids_unique;
use crate::job::lemma_filter_all;
use crate::job::lemma_filtered_ids_nodup;
use crate::job::lemma_filter_push;
use crate::job::not_running_pred;
use crate::job::running_pred;
use crate::job::Job;
use crate::state::JobState;
use crate::store::has_job_in_state;
use crate::store::lemma_job_index_of;
use crate::store::updated_row;
use crate::store::InMemoryJobStore;

verus! {

broadcast use vstd::seq_lib::group_filter_ensures;

/// The ids of the jobs of `s` whose state is `Running`, in input order:
/// the jobs that a startup pass marks for force-failure.
pub open spec fn reconciled_of(s: Seq<Job>) -> Seq<u128> {
    ids_of(s.filter(running_pred()))
}

/// The ids of the other jobs of `s`, in input order.
pub open spec fn skipped_of(s: Seq<Job>) -> Seq<u128> {
    ids_of(s.filter(not_running_pred()))
}

/// The result of startup reconciliation: a partition of the snapshot's ids.
#[derive(Debug)]
pub struct RecoveryOutcome {
    pub reconciled_job_ids: Vec<u128>,
    pub skipped_job_ids: Vec<u128>,
}

/// Partitions a snapshot of jobs: those in `Running` at observation time are
/// to be force-failed by the caller, all others are untouched.
pub fn reconcile_jobs(jobs: &[Job]) -> (r: RecoveryOutcome)
    ensures
        r.reconciled_job_ids@ == reconciled_of(jobs@),
        r.skipped_job_ids@ == skipped_of(jobs@),
{
    let n = jobs.len();
    let mut reconciled: Vec<u128> = Vec::new();
    let mut skipped: Vec<u128> = Vec::new();
    let mut k: usize = 0;
    proof {
        assert(jobs@.take(0) =~= Seq::<Job>::empty());
        reveal(Seq::filter);
        assert(reconciled@ =~= reconciled_of(jobs@.take(0)));
        assert(skipped@ =~= skipped_of(jobs@.take(0)));
    }
    while k < n
        invariant
            0 <= k <= n,
            n == jobs@.len(),
            reconciled@ == reconciled_of(jobs@.take(k as int)),
            skipped@ == skipped_of(jobs@.take(k as int)),
        decreases n - k,
    {
        proof {
            lemma_filter_push(jobs@.take(k as int), jobs@[k as int], running_pred());
            lemma_filter_push(jobs@.take(k as int), jobs@[k as int], not_running_pred());
            assert(jobs@.take(k as int).push(jobs@[k as int]) =~= jobs@.take(k + 1));
        }
        match jobs[k].state {
            JobState::Running => {
                reconciled.push(jobs[k].id);
                proof {
                    assert(reconciled@ =~= reconciled_of(jobs@.take(k + 1)));
                    assert(skipped@ =~= skipped_of(jobs@.take(k + 1)));
                }
            },
            _ => {
                skipped.push(jobs[k].id);
                proof {
                    assert(reconciled@ =~= reconciled_of(jobs@.take(k + 1)));
                    assert(skipped@ =~= skipped_of(jobs@.take(k + 1)));
                }
            },
        }
        k = k + 1;
    }
    proof {
        assert(jobs@.take(n as int) =~= jobs@);
    }
    RecoveryOutcome { reconciled_job_ids: reconciled, skipped_job_ids: skipped }
}

/// The partition's ids, filtered by a predicate that reads the state alone,
/// depend only on the ids and states of the snapshot.
proof fn lemma_filtered_ids_depend_on_state(a: Seq<Job>, b: Seq<Job>, pred: spec_fn(Job) -> bool)
    requires
        a.len() == b.len(),
        forall|i: int|
            0 <= i < a.len() ==> (#[trigger] a[i]).id == (#[trigger] b[i]).id && a[i].state
                == b[i].state,
        forall|x: Job, y: Job| x.state == y.state ==> #[trigger] pred(x) == #[trigger] pred(y),
    ensures
        ids_of(a.filter(pred)) == ids_of(b.filter(pred)),
    decreases a.len(),
{
    reveal(Seq::filter);
    if a.len() == 0 {
        assert(a =~= b);
    } else {
        let a0 = a.drop_last();
        let b0 = b.drop_last();
        lemma_filtered_ids_depend_on_state(a0, b0, pred);
        assert(pred(a.last()) == pred(b.last()));
        if pred(a.last()) {
            assert(ids_of(a0.filter(pred).push(a.last())) =~= ids_of(a0.filter(pred)).push(
                a.last().id,
            ));
            assert(ids_of(b0.filter(pred).push(b.last())) =~= ids_of(b0.filter(pred)).push(
                b.last().id,
            ));
        }
    }
}

/// The partition is a total function of the snapshot's ids and states: two
/// snapshots that agree on those, row by row, are partitioned identically.
pub proof fn lemma_reconcile_function_of_state(a: Seq<Job>, b: Seq<Job>)
    requires
        a.len() == b.len(),
        forall|i: int|
            0 <= i < a.len() ==> (#[trigger] a[i]).id == (#[trigger] b[i]).id && a[i].state
                == b[i].state,
    ensures
        reconciled_of(a) == reconciled_of(b),
        skipped_of(a) == skipped_of(b),
{
    lemma_filtered_ids_depend_on_state(a, b, running_pred());
    lemma_filtered_ids_depend_on_state(a, b, not_running_pred());
}

/// Reconciliation is idempotent: once every reconciled job has been
/// force-failed, a second pass over the new snapshot reconciles nothing and
/// skips every job, in the order the first pass saw them.
pub proof fn lemma_reconcile_idempotent(before: Seq<Job>, after: Seq<Job>)
    requires
        after.len() == before.len(),
        forall|i: int| 0 <= i < before.len() ==> (#[trigger] after[i]).id == (#[trigger] before[i]).id,
        forall|i: int|
            0 <= i < before.len() ==> (#[trigger] after[i]).state == (if before[i].state
                == JobState::Running {
                JobState::Failed
            } else {
                before[i].state
            }),
    ensures
        reconciled_of(after) == Seq::<u128>::empty(),
        skipped_of(after) == ids_of(before),
    decreases before.len(),
{
    reveal(Seq::filter);
    if before.len() == 0 {
        assert(after =~= Seq::<Job>::empty());
        assert(ids_of(before) =~= Seq::<u128>::empty());
        assert(ids_of(after.filter(running_pred())) =~= Seq::<u128>::empty());
        assert(ids_of(after.filter(not_running_pred())) =~= Seq::<u128>::empty());
    } else {
        let b0 = before.drop_last();
        let a0 = after.drop_last();
        lemma_reconcile_idempotent(b0, a0);
        assert(!running_pred()(after.last()));
        assert(not_running_pred()(after.last()));
        assert(after.filter(running_pred()) == a0.filter(running_pred()));
        assert(after.filter(not_running_pred()) == a0.filter(not_running_pred()).push(
            after.last(),
        ));
        assert(ids_of(a0.filter(not_running_pred()).push(after.last())) =~= ids_of(
            a0.filter(not_running_pred()),
        ).push(after.last().id));
        assert(ids_of(before) =~= ids_of(b0).push(before.last().id));
    }
}

/// Every row of `s` that is `Running` has not exhausted its attempts, so
/// counting its force-failure keeps `attempt <= max_attempts`.
pub open spec fn running_attempts_have_room(s: Seq<Job>) -> bool {
    forall|i: int|
        0 <= i < s.len() && (#[trigger] s[i]).state == JobState::Running ==> s[i].attempt
            < s[i].max_attempts
}

/// The startup force-fail pass, wired over the store: reconciles the running
/// snapshot and issues the conditional update
/// `Running -> Failed` with a synthesized system failure for each reconciled
/// id, through the same primitive every other writer uses. Returns the
/// reconciled ids, all of which were force-failed.
pub fn force_fail_stranded(store: &mut InMemoryJobStore, now: i64) -> (r: Vec<u128>)
    requires
        old(store).wf(),
        running_attempts_have_room(old(store).jobs_view()),
        old(store).clock_at_or_after(now),
    ensures
        final(store).wf(),
        r@ == reconciled_of(old(store).jobs_view()),
        final(store).jobs_view().len() == old(store).jobs_view().len(),
        final(store).events_view().take(old(store).events_view().len() as int) == old(
            store,
        ).events_view(),
        final(store).events_view().len() == old(store).events_view().len() + r@.len(),
        forall|k: int|
            0 <= k < old(store).jobs_view().len() ==> ({
                let before = old(store).jobs_view()[k];
                let after = #[trigger] final(store).jobs_view()[k];
                if before.state == JobState::Running {
                    &&& after.state == JobState::Failed
                    &&& after.attempt == before.attempt + 1
                    &&& after.updated_at == now
                    &&& (after.failure matches Some(g) && g.kind == FailureKind::SystemError
                        && g.reason@ == "stranded on restart"@)
                    &&& after.id == before.id
                    &&& after.payload == before.payload
                    &&& after.priority == before.priority
                    &&& after.created_at == before.created_at
                    &&& after.max_attempts == before.max_attempts
                } else {
                    after == before
                }
            }),
{
    let ghost v0 = store.jobs_view();
    let ghost ev0 = store.events_view();
    let running = store.fetch_running_jobs();
    let outcome = reconcile_jobs(running.as_slice());
    let ids = outcome.reconciled_job_ids;
    proof {
        assert(running@ == v0.filter(running_pred()));
        assert(forall|i: int|
            0 <= i < running@.len() ==> running_pred()(#[trigger] running@[i]));
        lemma_filter_all(running@, running_pred());
        assert(ids@ == reconciled_of(v0));
        lemma_filtered_ids_nodup(v0, running_pred());
    }
    let failure = Failure::system(String::from_str("stranded on restart"));
    let n = ids.len();
    let mut done: Vec<u128> = Vec::new();
    let mut idx: usize = 0;
    proof {
        assert(done@ =~= ids@.take(0));
    }
    while idx < n
        invariant
            0 <= idx <= n,
            n == ids@.len(),
            ids@ == reconciled_of(v0),
            ids@ == ids_of(v0.filter(running_pred())),
            ids_nodup(ids@),
            ids_unique(v0),
            running_attempts_have_room(v0),
            failure.kind == FailureKind::SystemError,
            failure.reason@ == "stranded on restart"@,
            store.wf(),
            store.jobs_view().len() == v0.len(),
            store.clock_at_or_after(now),
            store.events_view().len() == ev0.len() + done@.len(),
            store.events_view().take(ev0.len() as int) == ev0,
            done@ == ids@.take(idx as int),
            forall|k: int|
                0 <= k < v0.len() ==> #[trigger] store.jobs_view()[k] == (if v0[k].state
                    == JobState::Running && ids@.take(idx as int).contains(v0[k].id) {
                    updated_row(v0[k], JobState::Failed, Some(failure), now)
                } else {
                    v0[k]
                }),
        decreases n - idx,
    {
        let id = ids[idx];
        let ghost v_pre = store.jobs_view();
        proof {
            // the id names the unique running row, untouched so far
            let fseq = v0.filter(running_pred());
            assert(ids@[idx as int] == fseq[idx as int].id);
            let x = fseq[idx as int];
            assert(running_pred()(x));
            assert(fseq.contains(x));
            v0.lemma_filter_contains_rev(running_pred(), x);
            let k = v0.lemma_contains_to_index(x);
            assert(v0[k].state == JobState::Running);
            assert(!ids@.take(idx as int).contains(v0[k].id)) by {
                if ids@.take(idx as int).contains(v0[k].id) {
                    let j = choose|j: int|
                        0 <= j < idx && #[trigger] ids@.take(idx as int)[j] == v0[k].id;
                    assert(ids@[j] == ids@[idx as int]);
                }
            }
            assert(v_pre[k] == v0[k]);
            assert(has_job_in_state(v_pre, id, JobState::Running));
            assert forall|m: int|
                0 <= m < v_pre.len() && (#[trigger] v_pre[m]).id == id implies v_pre[m].attempt
                < v_pre[m].max_attempts by {
                assert(v_pre[m].id == v0[m].id && v_pre[k].id == v0[k].id);
                if m != k {
                    assert(v0[m].id != v0[k].id);
                }
            }
        }
        let res = store.update_job_state(
            id,
            JobState::Running,
            JobState::Failed,
            Some(&failure),
            now,
        );
        match res {
            Ok(true) => {
                done.push(id);
                proof {
                    let fseq = v0.filter(running_pred());
                    let x = fseq[idx as int];
                    v0.lemma_filter_contains_rev(running_pred(), x);
                    let k = v0.lemma_contains_to_index(x);
                    lemma_job_index_of(v_pre, id, k);
                    assert(store.jobs_view() == v_pre.update(
                        k,
                        updated_row(v_pre[k], JobState::Failed, Some(failure), now),
                    ));
                    assert(ids@.take(idx as int).push(ids@[idx as int]) =~= ids@.take(
                        idx as int + 1,
                    ));
                    assert forall|m: int|
                        0 <= m < v0.len() implies #[trigger] store.jobs_view()[m] == (if v0[m].state
                        == JobState::Running && ids@.take(idx as int + 1).contains(v0[m].id) {
                        updated_row(v0[m], JobState::Failed, Some(failure), now)
                    } else {
                        v0[m]
                    }) by {
                        if m == k {
                            assert(ids@.take(idx as int + 1).contains(v0[k].id)) by {
                                assert(ids@.take(idx as int + 1).last() == v0[k].id);
                            }
                        } else {
                            assert(v0[m].id != v0[k].id);
                            assert(ids@.take(idx as int + 1).contains(v0[m].id)
                                <==> ids@.take(idx as int).contains(v0[m].id)) by {
                                assert(ids@.take(idx as int + 1).drop_last() =~= ids@.take(
                                    idx as int,
                                ));
                            }
                        }
                    }
                    assert forall|m: int|
                        0 <= m < store.jobs_view().len() implies (
                    #[trigger] store.jobs_view()[m]).updated_at <= now by {
                        if m != k {
                            assert(store.jobs_view()[m] == v_pre[m]);
                        }
                    }
                    assert(store.events_view().take(ev0.len() as int) =~= ev0);
                }
            },
            _ => {},
        }
        idx = idx + 1;
    }
    proof {
        assert(ids@.take(n as int) =~= ids@);
        assert forall|k: int|
            0 <= k < v0.len() && v0[k].state == JobState::Running implies ids@.contains(
            #[trigger] v0[k].id,
        ) by {
            let fseq = v0.filter(running_pred());
            v0.lemma_filter_contains(running_pred(), k);
            let j = fseq.lemma_contains_to_index(v0[k]);
            assert(ids@[j] == v0[k].id);
        }
    }
    done
}

} // verus!
