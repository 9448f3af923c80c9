use vstd::multiset::Multiset;
use vstd::prelude::*;

use crate::job::ids_nodup;
use crate::job::ids_of;
use crate::job::ids_unique;
use crate::job::lemma_filter_push;
use crate::job::lemma_filtered_ids_nodup;
use crate::job::queued_pred;
use crate::job::Job;
use crate::state::JobState;

verus! {

broadcast use vstd::seq_lib::group_seq_lib_default, vstd::seq_lib::group_to_multiset_ensures;

/// A snapshot of the scheduling view at one decision point.
#[derive(Debug)]
pub struct SchedulerInput<'a> {
    pub queued_jobs: &'a [Job],
    pub running_count: usize,
    pub max_concurrency: usize,
}

/// The scheduler's decision: an ordered selection of job ids, and the
/// capacity left over after the selection.
#[derive(Debug)]
pub struct SchedulerDecision {
    pub selected_job_ids: Vec<u128>,
    pub remaining_capacity: usize,
}

impl PartialEq for SchedulerDecision {
    fn eq(&self, other: &Self) -> (r: bool) {
        if self.remaining_capacity != other.remaining_capacity {
            return false;
        }
        if self.selected_job_ids.len() != other.selected_job_ids.len() {
            return false;
        }
        let n = self.selected_job_ids.len();
        let mut i: usize = 0;
        while i < n
            invariant
                0 <= i <= n,
                n == self.selected_job_ids@.len() == other.selected_job_ids@.len(),
                forall|k: int| 0 <= k < i ==> self.selected_job_ids@[k] == other.selected_job_ids@[k],
            decreases n - i,
        {
            if self.selected_job_ids[i] != other.selected_job_ids[i] {
                return false;
            }
            i = i + 1;
        }
        proof {
            assert(self.selected_job_ids@ =~= other.selected_job_ids@);
        }
        true
    }
}

impl vstd::std_specs::cmp::PartialEqSpecImpl for SchedulerDecision {
    open spec fn obeys_eq_spec() -> bool {
        true
    }

    open spec fn eq_spec(&self, other: &Self) -> bool {
        self.selected_job_ids@ == other.selected_job_ids@ && self.remaining_capacity
            == other.remaining_capacity
    }
}

/// `a` is strictly more urgent than `b`: higher priority first, and within
/// one priority the earlier `created_at` first.
pub open spec fn precedes(a: Job, b: Job) -> bool {
    a.priority > b.priority || (a.priority == b.priority && a.created_at < b.created_at)
}

/// The jobs of `s` whose state is `Queued`, in input order.
pub open spec fn queued_of(s: Seq<Job>) -> Seq<Job> {
    s.filter(queued_pred())
}

/// Holds of a job exactly when its sort key is `(p, c)`.
pub open spec fn key_pred(p: i32, c: i64) -> spec_fn(Job) -> bool {
    |j: Job| j.priority == p && j.created_at == c
}

/// Places `x` before the first element it strictly precedes, and therefore
/// after every element that is as urgent as `x` itself: the stable insertion.
pub open spec fn insert_ordered(x: Job, s: Seq<Job>) -> Seq<Job>
    decreases s.len(),
{
    if s.len() == 0 {
        seq![x]
    } else if precedes(x, s[0]) {
        seq![x] + s
    } else {
        seq![s[0]] + insert_ordered(x, s.drop_first())
    }
}

/// The stable sort by `(priority descending, created_at ascending)`:
/// insertion, element by element, from the left.
pub open spec fn sort_jobs(s: Seq<Job>) -> Seq<Job>
    decreases s.len(),
{
    if s.len() == 0 {
        Seq::empty()
    } else {
        insert_ordered(s.last(), sort_jobs(s.drop_last()))
    }
}

/// Free admission capacity: `max(0, max_concurrency - running_count)`.
pub open spec fn capacity_of(running_count: nat, max_concurrency: nat) -> nat {
    if max_concurrency > running_count {
        (max_concurrency - running_count) as nat
    } else {
        0
    }
}

/// The order in which queued jobs are admitted: the queued jobs of the
/// snapshot, stably sorted by `(priority descending, created_at ascending)`.
pub open spec fn schedule_order(jobs: Seq<Job>) -> Seq<Job> {
    sort_jobs(queued_of(jobs))
}

/// The ids the scheduler selects: the longest prefix of the schedule order
/// that fits in the free capacity.
pub open spec fn selection_of(jobs: Seq<Job>, running_count: nat, max_concurrency: nat) -> Seq<
    u128,
> {
    let sorted = schedule_order(jobs);
    let cap = capacity_of(running_count, max_concurrency);
    if sorted.len() <= cap {
        ids_of(sorted)
    } else {
        ids_of(sorted.take(cap as int))
    }
}

/// No element is strictly more urgent than one before it.
pub open spec fn schedule_sorted(s: Seq<Job>) -> bool {
    forall|i: int, j: int| 0 <= i < j < s.len() ==> !precedes(s[j], s[i])
}

/// Some job of `jobs` carries this id and is in state `Queued`.
pub open spec fn id_is_queued_in(jobs: Seq<Job>, id: u128) -> bool {
    exists|k: int|
        0 <= k < jobs.len() && #[trigger] jobs[k].id == id && jobs[k].state == JobState::Queued
}

proof fn lemma_insert_ordered_len(x: Job, s: Seq<Job>)
    ensures
        insert_ordered(x, s).len() == s.len() + 1,
    decreases s.len(),
{
    if s.len() == 0 {
    } else if precedes(x, s[0]) {
    } else {
        lemma_insert_ordered_len(x, s.drop_first());
    }
}

/// Characterizes the insertion position: if `x` does not precede any of the
/// first `pos` elements and precedes the element at `pos` (when there is
/// one), the insertion splits `s` exactly there.
proof fn lemma_insert_ordered_at(x: Job, s: Seq<Job>, pos: int)
    requires
        0 <= pos <= s.len(),
        forall|j: int| 0 <= j < pos ==> !precedes(x, #[trigger] s[j]),
        pos < s.len() ==> precedes(x, s[pos]),
    ensures
        insert_ordered(x, s) == s.take(pos) + seq![x] + s.skip(pos),
    decreases pos,
{
    if pos == 0 {
        if s.len() == 0 {
            assert(insert_ordered(x, s) =~= s.take(0) + seq![x] + s.skip(0));
        } else {
            assert(precedes(x, s[0]));
            assert(insert_ordered(x, s) =~= s.take(0) + seq![x] + s.skip(0));
        }
    } else {
        assert(!precedes(x, s[0]));
        let t = s.drop_first();
        assert(forall|j: int| 0 <= j < pos - 1 ==> !precedes(x, #[trigger] t[j]));
        lemma_insert_ordered_at(x, t, pos - 1);
        assert(insert_ordered(x, s) == seq![s[0]] + (t.take(pos - 1) + seq![x] + t.skip(pos - 1)));
        assert(insert_ordered(x, s) =~= s.take(pos) + seq![x] + s.skip(pos));
    }
}

/// Sorting one more element is inserting it into the sorted rest.
proof fn lemma_sort_jobs_push(s: Seq<Job>, x: Job)
    ensures
        sort_jobs(s.push(x)) == insert_ordered(x, sort_jobs(s)),
{
    let p = s.push(x);
    assert(p.len() == s.len() + 1);
    assert(p.last() == x);
    assert(p.drop_last() =~= s);
}

proof fn lemma_insert_ordered_multiset(x: Job, s: Seq<Job>)
    ensures
        insert_ordered(x, s).to_multiset() == s.to_multiset().insert(x),
    decreases s.len(),
{
    broadcast use vstd::multiset::group_multiset_axioms;

    if s.len() == 0 {
        assert(seq![x] =~= Seq::<Job>::empty().push(x));
        assert(s =~= Seq::<Job>::empty());
    } else if precedes(x, s[0]) {
        vstd::seq_lib::lemma_multiset_commutative(seq![x], s);
        assert(seq![x] =~= Seq::<Job>::empty().push(x));
        assert(Seq::<Job>::empty().push(x).to_multiset() =~= Multiset::<Job>::empty().insert(x));
        assert((seq![x] + s).to_multiset() =~= s.to_multiset().insert(x));
    } else {
        let t = s.drop_first();
        lemma_insert_ordered_multiset(x, t);
        vstd::seq_lib::lemma_multiset_commutative(seq![s[0]], insert_ordered(x, t));
        vstd::seq_lib::lemma_multiset_commutative(seq![s[0]], t);
        assert(s =~= seq![s[0]] + t);
        assert(insert_ordered(x, s).to_multiset() =~= s.to_multiset().insert(x));
    }
}

/// The sort is a permutation: it keeps exactly the input's elements.
pub proof fn lemma_sort_jobs_multiset(s: Seq<Job>)
    ensures
        sort_jobs(s).to_multiset() == s.to_multiset(),
    decreases s.len(),
{
    if s.len() == 0 {
        assert(sort_jobs(s) =~= s);
    } else {
        let s0 = s.drop_last();
        lemma_sort_jobs_multiset(s0);
        lemma_insert_ordered_multiset(s.last(), sort_jobs(s0));
        assert(s0.push(s.last()) =~= s);
    }
}

/// The sort keeps exactly the input's elements.
pub proof fn lemma_sort_jobs_contains(s: Seq<Job>, x: Job)
    ensures
        sort_jobs(s).contains(x) <==> s.contains(x),
{
    lemma_sort_jobs_multiset(s);
    assert(sort_jobs(s).contains(x) <==> sort_jobs(s).to_multiset().count(x) > 0);
    assert(s.contains(x) <==> s.to_multiset().count(x) > 0);
}

proof fn lemma_insert_ordered_sorted(x: Job, s: Seq<Job>)
    requires
        schedule_sorted(s),
    ensures
        schedule_sorted(insert_ordered(x, s)),
    decreases s.len(),
{
    if s.len() == 0 {
    } else if precedes(x, s[0]) {
        let r = seq![x] + s;
        assert forall|i: int, j: int| 0 <= i < j < r.len() implies !precedes(r[j], r[i]) by {
            if i == 0 {
                // r[j] is s[j - 1]; x precedes s[0] and s is sorted.
                assert(!precedes(s[j - 1], s[0]));
            }
        }
    } else {
        let t = s.drop_first();
        lemma_insert_ordered_sorted(x, t);
        let ti = insert_ordered(x, t);
        lemma_insert_ordered_len(x, t);
        let r = seq![s[0]] + ti;
        lemma_insert_ordered_multiset(x, t);
        assert forall|i: int, j: int| 0 <= i < j < r.len() implies !precedes(r[j], r[i]) by {
            if i == 0 {
                // every element of the tail is x or an element of s.
                assert(ti.contains(ti[j - 1]));
                assert(ti.to_multiset().count(ti[j - 1]) > 0);
                if ti[j - 1] == x {
                    assert(!precedes(x, s[0]));
                } else {
                    assert(t.to_multiset().count(ti[j - 1]) > 0);
                    assert(t.contains(ti[j - 1]));
                    let k = choose|k: int| 0 <= k < t.len() && t[k] == ti[j - 1];
                    assert(!precedes(s[k + 1], s[0]));
                }
            }
        }
    }
}

/// The sort's order: no element is strictly more urgent than one before it.
pub proof fn lemma_sort_jobs_sorted(s: Seq<Job>)
    ensures
        schedule_sorted(sort_jobs(s)),
    decreases s.len(),
{
    if s.len() == 0 {
    } else {
        lemma_sort_jobs_sorted(s.drop_last());
        lemma_insert_ordered_sorted(s.last(), sort_jobs(s.drop_last()));
    }
}

proof fn lemma_insert_ordered_stable(x: Job, s: Seq<Job>, p: i32, c: i64)
    requires
        schedule_sorted(s),
    ensures
        insert_ordered(x, s).filter(key_pred(p, c)) == if x.priority == p && x.created_at == c {
            s.filter(key_pred(p, c)).push(x)
        } else {
            s.filter(key_pred(p, c))
        },
    decreases s.len(),
{
    let pred = key_pred(p, c);
    if s.len() == 0 {
        reveal(Seq::filter);
        assert(seq![x] =~= Seq::<Job>::empty().push(x));
        lemma_filter_push(Seq::<Job>::empty(), x, pred);
        assert(s.filter(pred) =~= Seq::<Job>::empty());
    } else if precedes(x, s[0]) {
        s.lemma_filter_prepend(x, pred);
        if pred(x) {
            // no element of `s` shares x's key: x strictly precedes s[0] and
            // no element of `s` strictly precedes s[0].
            assert forall|j: int| 0 <= j < s.len() implies !pred(#[trigger] s[j]) by {
                if j > 0 {
                    assert(!precedes(s[j], s[0]));
                }
            }
            s.lemma_all_neg_filter_empty(pred);
            assert(seq![x] + s.filter(pred) =~= s.filter(pred).push(x));
        } else {
            assert((seq![x] + s).filter(pred) =~= s.filter(pred));
        }
    } else {
        let t = s.drop_first();
        lemma_insert_ordered_stable(x, t, p, c);
        let ti = insert_ordered(x, t);
        t.lemma_filter_prepend(s[0], pred);
        ti.lemma_filter_prepend(s[0], pred);
        assert(s =~= seq![s[0]] + t);
        assert(insert_ordered(x, s) == seq![s[0]] + ti);
        let head = if pred(s[0]) {
            seq![s[0]]
        } else {
            Seq::<Job>::empty()
        };
        if pred(x) {
            assert((seq![s[0]] + ti).filter(pred) == head + t.filter(pred).push(x));
            assert(head + t.filter(pred).push(x) =~= (head + t.filter(pred)).push(x));
            assert(s.filter(pred) == head + t.filter(pred));
        } else {
            assert((seq![s[0]] + ti).filter(pred) == head + t.filter(pred));
        }
    }
}

/// The sort is stable: for any one key `(priority, created_at)`, the jobs
/// carrying that key come out in exactly their input order.
pub proof fn lemma_sort_jobs_stable(s: Seq<Job>, p: i32, c: i64)
    ensures
        sort_jobs(s).filter(key_pred(p, c)) == s.filter(key_pred(p, c)),
    decreases s.len(),
{
    let pred = key_pred(p, c);
    if s.len() == 0 {
        assert(sort_jobs(s) =~= s);
    } else {
        let s0 = s.drop_last();
        lemma_sort_jobs_stable(s0, p, c);
        lemma_sort_jobs_sorted(s0);
        lemma_insert_ordered_stable(s.last(), sort_jobs(s0), p, c);
        lemma_filter_push(s0, s.last(), pred);
        assert(s0.push(s.last()) =~= s);
    }
}

/// Every element of a filtered sequence is an element of the input that
/// satisfies the predicate.
pub proof fn lemma_filter_elements(s: Seq<Job>, pred: spec_fn(Job) -> bool, x: Job)
    requires
        s.filter(pred).contains(x),
    ensures
        s.contains(x),
        pred(x),
{
    s.lemma_filter_contains_rev(pred, x);
    let i = s.filter(pred).lemma_contains_to_index(x);
}

/// Sorting a sequence that is already in schedule order keeps it as it is.
pub proof fn lemma_sort_jobs_of_sorted(s: Seq<Job>)
    requires
        schedule_sorted(s),
    ensures
        sort_jobs(s) == s,
    decreases s.len(),
{
    if s.len() == 0 {
        assert(sort_jobs(s) =~= s);
    } else {
        let s0 = s.drop_last();
        let x = s.last();
        lemma_sort_jobs_of_sorted(s0);
        assert(forall|j: int| 0 <= j < s0.len() ==> !precedes(x, #[trigger] s0[j]));
        lemma_insert_ordered_at(x, s0, s0.len() as int);
        assert(s0.take(s0.len() as int) + seq![x] + s0.skip(s0.len() as int) =~= s);
    }
}

/// The schedule order is deterministic and idempotent: ordering an already
/// ordered snapshot changes nothing, so the selection drawn from either is
/// the same.
pub proof fn lemma_schedule_order_idempotent(s: Seq<Job>)
    ensures
        schedule_order(schedule_order(s)) == schedule_order(s),
{
    let w = schedule_order(s);
    assert forall|i: int| 0 <= i < w.len() implies queued_pred()(#[trigger] w[i]) by {
        assert(w.contains(w[i]));
        lemma_sort_jobs_contains(queued_of(s), w[i]);
        lemma_filter_elements(s, queued_pred(), w[i]);
    }
    crate::job::lemma_filter_all(w, queued_pred());
    lemma_sort_jobs_sorted(queued_of(s));
    lemma_sort_jobs_of_sorted(w);
}

/// With unique ids in the snapshot, the selection repeats no id.
pub proof fn lemma_selection_ids_nodup(jobs: Seq<Job>, rc: nat, mc: nat)
    requires
        ids_unique(jobs),
    ensures
        ids_nodup(selection_of(jobs, rc, mc)),
{
    let q = queued_of(jobs);
    let w = sort_jobs(q);
    lemma_filtered_ids_nodup(jobs, queued_pred());
    // the queued rows are pairwise distinct values, so their sort is too
    assert(q.no_duplicates()) by {
        assert forall|i: int, j: int|
            0 <= i < q.len() && 0 <= j < q.len() && i != j implies q[i] != q[j] by {
            assert(ids_of(q)[i] == q[i].id && ids_of(q)[j] == q[j].id);
        }
    }
    q.lemma_multiset_has_no_duplicates();
    lemma_sort_jobs_multiset(q);
    w.lemma_multiset_has_no_duplicates_conv();
    // distinct sorted rows carry distinct ids
    assert forall|i: int, j: int| 0 <= i < j < w.len() implies w[i].id != w[j].id by {
        assert(w[i] != w[j]);
        assert(w.contains(w[i]) && w.contains(w[j]));
        lemma_sort_jobs_contains(q, w[i]);
        lemma_sort_jobs_contains(q, w[j]);
        let k1 = q.lemma_contains_to_index(w[i]);
        let k2 = q.lemma_contains_to_index(w[j]);
        assert(k1 != k2);
        assert(ids_of(q)[k1] == q[k1].id && ids_of(q)[k2] == q[k2].id);
    }
    let cap = capacity_of(rc, mc);
    if w.len() <= cap {
        assert forall|i: int, j: int|
            0 <= i < j < ids_of(w).len() implies ids_of(w)[i] != ids_of(w)[j] by {
            assert(ids_of(w)[i] == w[i].id && ids_of(w)[j] == w[j].id);
        }
    } else {
        let t = w.take(cap as int);
        assert forall|i: int, j: int|
            0 <= i < j < ids_of(t).len() implies ids_of(t)[i] != ids_of(t)[j] by {
            assert(t[i] == w[i] && t[j] == w[j]);
            assert(ids_of(t)[i] == t[i].id && ids_of(t)[j] == t[j].id);
        }
    }
}

/// Comparison in schedule order.
fn precedes_exec(a: &Job, b: &Job) -> (r: bool)
    ensures
        r == precedes(*a, *b),
{
    a.priority > b.priority || (a.priority == b.priority && a.created_at < b.created_at)
}

/// Clones the queued jobs of the snapshot into schedule order: the stable
/// sort by `(priority descending, created_at ascending)`.
pub fn sorted_queued(jobs: &[Job]) -> (r: Vec<Job>)
    ensures
        r@ == schedule_order(jobs@),
{
    let n = jobs.len();
    let mut out: Vec<Job> = Vec::new();
    let mut k: usize = 0;
    proof {
        assert(jobs@.take(0) =~= Seq::<Job>::empty());
        reveal(Seq::filter);
        assert(out@ =~= sort_jobs(queued_of(jobs@.take(0))));
    }
    while k < n
        invariant
            0 <= k <= n,
            n == jobs@.len(),
            out@ == sort_jobs(queued_of(jobs@.take(k as int))),
        decreases n - k,
    {
        let ghost prefix = queued_of(jobs@.take(k as int));
        if jobs[k].state == JobState::Queued {
            let x = jobs[k].clone();
            let mut pos: usize = 0;
            while pos < out.len() && !precedes_exec(&x, &out[pos])
                invariant
                    0 <= pos <= out@.len(),
                    0 <= k < n,
                    n == jobs@.len(),
                    x == jobs@[k as int],
                    out@ == sort_jobs(queued_of(jobs@.take(k as int))),
                    forall|j: int| 0 <= j < pos ==> !precedes(x, #[trigger] out@[j]),
                decreases out@.len() - pos,
            {
                pos = pos + 1;
            }
            let ghost out_before = out@;
            proof {
                lemma_insert_ordered_at(x, out_before, pos as int);
                lemma_filter_push(jobs@.take(k as int), jobs@[k as int], queued_pred());
                lemma_sort_jobs_push(prefix, x);
                assert(queued_pred()(jobs@[k as int]));
                assert(jobs@.take(k as int).push(jobs@[k as int]) =~= jobs@.take(k + 1));
                assert(queued_of(jobs@.take(k + 1)) == prefix.push(x));
            }
            out.insert(pos, x);
            proof {
                assert(out@ == out_before.insert(pos as int, x));
                assert(out@ =~= out_before.take(pos as int) + seq![x] + out_before.skip(
                    pos as int,
                ));
                assert(out@ == insert_ordered(x, out_before));
                assert(out@ == sort_jobs(queued_of(jobs@.take(k + 1))));
            }
        } else {
            proof {
                lemma_filter_push(jobs@.take(k as int), jobs@[k as int], queued_pred());
                assert(jobs@.take(k as int).push(jobs@[k as int]) =~= jobs@.take(k + 1));
            }
        }
        k = k + 1;
    }
    proof {
        assert(jobs@.take(n as int) =~= jobs@);
    }
    out
}

/// The deterministic scheduler selection.
///
/// The decision is a pure function of the snapshot: the queued jobs are
/// stably sorted by `(priority descending, created_at ascending)` and the
/// longest prefix that fits in the free capacity
/// `max(0, max_concurrency - running_count)` is selected.
pub fn select_jobs(input: SchedulerInput) -> (r: SchedulerDecision)
    ensures
        r.selected_job_ids@ == selection_of(
            input.queued_jobs@,
            input.running_count as nat,
            input.max_concurrency as nat,
        ),
        r.selected_job_ids@.len() <= capacity_of(
            input.running_count as nat,
            input.max_concurrency as nat,
        ),
        r.remaining_capacity == capacity_of(
            input.running_count as nat,
            input.max_concurrency as nat,
        ) - r.selected_job_ids@.len(),
        forall|i: int|
            0 <= i < r.selected_job_ids@.len() ==> id_is_queued_in(
                input.queued_jobs@,
                #[trigger] r.selected_job_ids@[i],
            ),
{
    let ghost jobs_g = input.queued_jobs@;
    let ghost rc = input.running_count as nat;
    let ghost mc = input.max_concurrency as nat;
    let available_capacity = if input.max_concurrency > input.running_count {
        input.max_concurrency - input.running_count
    } else {
        0
    };
    proof {
        assert(available_capacity == capacity_of(rc, mc));
    }

    if available_capacity == 0 {
        let r = SchedulerDecision { selected_job_ids: Vec::new(), remaining_capacity: 0 };
        proof {
            let sorted = schedule_order(jobs_g);
            if sorted.len() <= 0 {
                assert(ids_of(sorted) =~= Seq::<u128>::empty());
            } else {
                assert(ids_of(sorted.take(0)) =~= Seq::<u128>::empty());
            }
        }
        return r;
    }

    let sorted = sorted_queued(input.queued_jobs);
    let take_n = if available_capacity < sorted.len() {
        available_capacity
    } else {
        sorted.len()
    };
    let ghost sorted_g = schedule_order(jobs_g);
    let ghost taken = if sorted_g.len() <= capacity_of(rc, mc) {
        sorted_g
    } else {
        sorted_g.take(capacity_of(rc, mc) as int)
    };

    let mut ids: Vec<u128> = Vec::new();
    let mut m: usize = 0;
    while m < take_n
        invariant
            0 <= m <= take_n,
            take_n <= sorted@.len(),
            take_n == if capacity_of(rc, mc) < sorted_g.len() {
                capacity_of(rc, mc)
            } else {
                sorted_g.len()
            },
            sorted@ == sorted_g,
            taken == if sorted_g.len() <= capacity_of(rc, mc) {
                sorted_g
            } else {
                sorted_g.take(capacity_of(rc, mc) as int)
            },
            ids@.len() == m,
            forall|i: int| 0 <= i < m ==> ids@[i] == #[trigger] taken[i].id,
        decreases take_n - m,
    {
        ids.push(sorted[m].id);
        m = m + 1;
    }
    let r = SchedulerDecision {
        remaining_capacity: available_capacity - take_n,
        selected_job_ids: ids,
    };
    proof {
        assert(taken.len() == take_n);
        assert(r.selected_job_ids@ =~= ids_of(taken));
        assert(r.selected_job_ids@ == selection_of(jobs_g, rc, mc));
        assert forall|i: int| 0 <= i < r.selected_job_ids@.len() implies id_is_queued_in(
            input.queued_jobs@,
            #[trigger] r.selected_job_ids@[i],
        ) by {
            let x = taken[i];
            assert(sorted_g.contains(x)) by {
                if sorted_g.len() <= capacity_of(rc, mc) {
                } else {
                    assert(sorted_g.take(capacity_of(rc, mc) as int)[i] == sorted_g[i]);
                }
            }
            lemma_sort_jobs_contains(queued_of(jobs_g), x);
            lemma_filter_elements(jobs_g, queued_pred(), x);
            let k = jobs_g.lemma_contains_to_index(x);
            assert(input.queued_jobs@[k].id == r.selected_job_ids@[i] && input.queued_jobs@[k].state
                == JobState::Queued);
        }
    }
    r
}

} // verus!
