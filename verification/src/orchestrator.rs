use vstd::prelude::*;

use crate::job::ids_nodup;
use crate::job::ids_unique;
use crate::job::running_pred;
use crate::job::Job;
use crate::scheduler::lemma_schedule_order_idempotent;
use crate::scheduler::select_jobs;
use crate::scheduler::selection_of;
use crate::scheduler::SchedulerInput;
use crate::state::JobState;
use crate::store::has_job_in_state;
use crate::store::job_index;
use crate::store::lemma_job_index_of;
use crate::store::updated_row;
use crate::store::InMemoryJobStore;
use crate::store::RepositoryError;

verus! {

/// The orchestrator's error: a repository failure surfaced by a tick.
#[derive(Debug)]
pub enum OrchestrationError {
    Repository(RepositoryError),
}

/// One admission pass: for each id in order, the conditional transition
/// `Queued -> Running` is attempted; a matched row is rewritten and its id
/// admitted, an unmatched id is passed over (a lost race). Yields the rows
/// after the pass and the admitted ids in admission order.
pub open spec fn admit_sequence(s: Seq<Job>, ids: Seq<u128>, now: i64) -> (Seq<Job>, Seq<u128>)
    decreases ids.len(),
{
    if ids.len() == 0 {
        (s, Seq::empty())
    } else {
        let id = ids[0];
        if has_job_in_state(s, id, JobState::Queued) {
            let i = job_index(s, id);
            let s1 = s.update(i, updated_row(s[i], JobState::Running, None, now));
            let rest = admit_sequence(s1, ids.drop_first(), now);
            (rest.0, seq![id] + rest.1)
        } else {
            admit_sequence(s, ids.drop_first(), now)
        }
    }
}

/// With unique row ids, no repeated requested id, and every requested id
/// naming a queued row, the admission pass admits every requested id: in the
/// absence of concurrent writers, no conditional update is lost.
pub proof fn lemma_admission_complete(s: Seq<Job>, ids: Seq<u128>, now: i64)
    requires
        ids_unique(s),
        ids_nodup(ids),
        forall|j: int|
            0 <= j < ids.len() ==> has_job_in_state(s, #[trigger] ids[j], JobState::Queued),
    ensures
        admit_sequence(s, ids, now).1 == ids,
    decreases ids.len(),
{
    if ids.len() == 0 {
        assert(admit_sequence(s, ids, now).1 =~= ids);
    } else {
        let id = ids[0];
        assert(has_job_in_state(s, id, JobState::Queued));
        let k = choose|k: int|
            0 <= k < s.len() && (#[trigger] s[k]).id == id && s[k].state == JobState::Queued;
        lemma_job_index_of(s, id, k);
        let i = job_index(s, id);
        let s1 = s.update(i, updated_row(s[i], JobState::Running, None, now));
        assert(ids_unique(s1)) by {
            assert(forall|m: int| 0 <= m < s.len() ==> (#[trigger] s1[m]).id == s[m].id);
        }
        let tail = ids.drop_first();
        assert forall|j: int|
            0 <= j < tail.len() implies has_job_in_state(s1, #[trigger] tail[j], JobState::Queued) by {
            let id2 = ids[j + 1];
            assert(has_job_in_state(s, id2, JobState::Queued));
            let k2 = choose|k2: int|
                0 <= k2 < s.len() && (#[trigger] s[k2]).id == id2 && s[k2].state
                    == JobState::Queued;
            assert(id2 != id);
            assert(k2 != k);
            assert(s1[k2] == s[k2]);
        }
        lemma_admission_complete(s1, tail, now);
        assert(seq![id] + tail =~= ids);
    }
}

/// One orchestration tick over the store: snapshot, decide, admit.
///
/// The queued snapshot and the running count are read, the scheduler picks
/// the selection, and each selected id is conditionally moved
/// `Queued -> Running` in selection order; ids whose conditional update
/// matched are returned for spawning. With this store the tick never fails.
pub fn tick(store: &mut InMemoryJobStore, max_concurrency: usize, now: i64) -> (r: Result<
    Vec<u128>,
    OrchestrationError,
>)
    requires
        old(store).wf(),
        old(store).clock_at_or_after(now),
    ensures
        final(store).wf(),
        r is Ok,
        r matches Ok(admitted) ==> ({
            let v0 = old(store).jobs_view();
            let selected = selection_of(
                v0,
                v0.filter(running_pred()).len(),
                max_concurrency as nat,
            );
            let pass = admit_sequence(v0, selected, now);
            &&& admitted@ == pass.1
            &&& admitted@ == selected
            &&& final(store).jobs_view() == pass.0
        }),
        final(store).events_view().take(old(store).events_view().len() as int) == old(
            store,
        ).events_view(),
        r matches Ok(admitted) ==> final(store).events_view().len() == old(
            store,
        ).events_view().len() + admitted@.len(),
        r matches Ok(admitted) ==> forall|k: int|
            0 <= k < admitted@.len() ==> ({
                let e = #[trigger] final(store).events_view()[old(store).events_view().len() + k];
                &&& e.job_id == admitted@[k]
                &&& e.from_state == JobState::Queued
                &&& e.to_state == JobState::Running
                &&& e.event_reason@ == "state transition"@
                &&& e.occurred_at == now
            }),
{
    let ghost v0 = store.jobs_view();
    let ghost ev0 = store.events_view();
    let queued = store.fetch_queued_jobs();
    let running = store.fetch_running_jobs();
    let running_count = running.len();

    let decision = select_jobs(
        SchedulerInput { queued_jobs: queued.as_slice(), running_count, max_concurrency },
    );
    let ghost sel = selection_of(v0, v0.filter(running_pred()).len(), max_concurrency as nat);
    proof {
        lemma_schedule_order_idempotent(v0);
        assert(decision.selected_job_ids@ == sel);
    }

    let ids = decision.selected_job_ids;
    let n = ids.len();
    let mut admitted: Vec<u128> = Vec::new();
    let mut idx: usize = 0;
    proof {
        assert(ids@.skip(0) =~= ids@);
        assert(admitted@ + admit_sequence(store.jobs_view(), ids@, now).1 =~= admit_sequence(
            store.jobs_view(),
            ids@,
            now,
        ).1);
    }
    while idx < n
        invariant
            0 <= idx <= n,
            n == ids@.len(),
            ids@ == sel,
            store.wf(),
            admit_sequence(v0, sel, now).0 == admit_sequence(
                store.jobs_view(),
                ids@.skip(idx as int),
                now,
            ).0,
            admit_sequence(v0, sel, now).1 == admitted@ + admit_sequence(
                store.jobs_view(),
                ids@.skip(idx as int),
                now,
            ).1,
            store.clock_at_or_after(now),
            store.events_view().len() == ev0.len() + admitted@.len(),
            store.events_view().take(ev0.len() as int) == ev0,
            forall|k: int|
                0 <= k < admitted@.len() ==> ({
                    let e = #[trigger] store.events_view()[ev0.len() + k];
                    &&& e.job_id == admitted@[k]
                    &&& e.from_state == JobState::Queued
                    &&& e.to_state == JobState::Running
                    &&& e.event_reason@ == "state transition"@
                    &&& e.occurred_at == now
                }),
        decreases n - idx,
    {
        let id = ids[idx];
        let ghost v_pre = store.jobs_view();
        let ghost a_pre = admitted@;
        let ghost tail = ids@.skip(idx as int);
        proof {
            assert(tail.len() == n - idx);
            assert(tail[0] == ids@[idx as int]);
            assert(tail.drop_first() =~= ids@.skip(idx as int + 1));
        }
        let res = store.update_job_state(id, JobState::Queued, JobState::Running, None, now);
        match res {
            Ok(true) => {
                admitted.push(id);
                proof {
                    let i0 = job_index(v_pre, id);
                    assert(has_job_in_state(v_pre, id, JobState::Queued));
                    let k = choose|k: int|
                        0 <= k < v_pre.len() && (#[trigger] v_pre[k]).id == id && v_pre[k].state
                            == JobState::Queued;
                    lemma_job_index_of(v_pre, id, k);
                    assert(v_pre[i0].state == JobState::Queued);
                    assert(store.jobs_view() == v_pre.update(
                        i0,
                        updated_row(v_pre[i0], JobState::Running, None, now),
                    ));
                    assert(admit_sequence(v_pre, tail, now).0 == admit_sequence(
                        store.jobs_view(),
                        tail.drop_first(),
                        now,
                    ).0);
                    let rest = admit_sequence(store.jobs_view(), tail.drop_first(), now);
                    assert(admit_sequence(v_pre, tail, now).1 == seq![id] + rest.1);
                    assert(admitted@ =~= a_pre.push(id));
                    assert(a_pre + (seq![id] + rest.1) =~= admitted@ + rest.1);
                    assert forall|m: int|
                        0 <= m < store.jobs_view().len() implies (
                    #[trigger] store.jobs_view()[m]).updated_at <= now by {
                        if m != i0 {
                            assert(store.jobs_view()[m] == v_pre[m]);
                        }
                    }
                }
            },
            Ok(false) => {
                proof {
                    assert(!has_job_in_state(v_pre, id, JobState::Queued));
                    assert(admit_sequence(v_pre, tail, now) == admit_sequence(
                        store.jobs_view(),
                        tail.drop_first(),
                        now,
                    ));
                }
            },
            Err(e) => {
                return Err(OrchestrationError::Repository(e));
            },
        }
        proof {
            assert(store.events_view().take(ev0.len() as int) =~= ev0);
        }
        idx = idx + 1;
    }
    proof {
        assert(ids@.skip(n as int) =~= Seq::<u128>::empty());
        assert(admit_sequence(store.jobs_view(), ids@.skip(n as int), now).0 == store.jobs_view());
        assert(admitted@ + admit_sequence(store.jobs_view(), ids@.skip(n as int), now).1
            =~= admitted@);
        // no admission is lost: the selected ids are distinct and each names
        // a queued row of the snapshot
        crate::scheduler::lemma_selection_ids_nodup(
            v0,
            v0.filter(running_pred()).len(),
            max_concurrency as nat,
        );
        let sorted_v0 = crate::scheduler::schedule_order(v0);
        assert forall|j: int|
            0 <= j < sel.len() implies has_job_in_state(v0, #[trigger] sel[j], JobState::Queued) by {
            let taken = if sorted_v0.len() <= crate::scheduler::capacity_of(
                v0.filter(running_pred()).len(),
                max_concurrency as nat,
            ) {
                sorted_v0
            } else {
                sorted_v0.take(
                    crate::scheduler::capacity_of(
                        v0.filter(running_pred()).len(),
                        max_concurrency as nat,
                    ) as int,
                )
            };
            let x = taken[j];
            assert(sel[j] == x.id);
            assert(sorted_v0.contains(x)) by {
                if sorted_v0.len() > crate::scheduler::capacity_of(
                    v0.filter(running_pred()).len(),
                    max_concurrency as nat,
                ) {
                    assert(taken[j] == sorted_v0[j]);
                }
            }
            crate::scheduler::lemma_sort_jobs_contains(crate::scheduler::queued_of(v0), x);
            crate::scheduler::lemma_filter_elements(v0, crate::job::queued_pred(), x);
            let k = v0.lemma_contains_to_index(x);
            assert(v0[k].id == sel[j] && v0[k].state == JobState::Queued);
        }
        lemma_admission_complete(v0, sel, now);
    }
    Ok(admitted)
}

} // verus!
