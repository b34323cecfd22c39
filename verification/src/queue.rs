//! The ordered job store: a mutation-safe collection of jobs kept in dispatch
//! order — earliest due time first, and among equal due times the higher
//! priority first.

use vstd::prelude::*;
use crate::job::{Job, Status};

verus! {

/// Strict store order: `a` is dispatched strictly before `b`.
pub open spec fn strictly_before(a: Job, b: Job) -> bool {
    a.execution_time < b.execution_time
    || (a.execution_time == b.execution_time && a.priority > b.priority)
}

/// Non-strict store order: `a` need not wait for `b`.
pub open spec fn in_order(a: Job, b: Job) -> bool {
    !strictly_before(b, a)
}

/// The store invariant: every pair of jobs stands in dispatch order.
pub open spec fn store_sorted(s: Seq<Job>) -> bool {
    forall|i: int, k: int| 0 <= i < k < s.len() ==> #[trigger] in_order(s[i], s[k])
}

/// Index at which a new job enters a store kept in dispatch order: directly
/// after every stored job that does not have to wait for it.
pub open spec fn insert_pos(s: Seq<Job>, j: Job) -> int
    decreases s.len(),
{
    if s.len() == 0 {
        0
    } else if strictly_before(j, s[0]) {
        0
    } else {
        1 + insert_pos(s.drop_first(), j)
    }
}

/// How many jobs at the front of `s` are due at instant `now`.
pub open spec fn ready_count(s: Seq<Job>, now: i64) -> int
    decreases s.len(),
{
    if s.len() > 0 && s[0].execution_time <= now {
        1 + ready_count(s.drop_first(), now)
    } else {
        0
    }
}

/// Whether some stored job carries the given id.
pub open spec fn contains_id(s: Seq<Job>, id: u128) -> bool {
    exists|i: int| 0 <= i < s.len() && #[trigger] s[i].id == id
}

/// Index of the first job with the given id (the store length if absent).
pub open spec fn find_index(s: Seq<Job>, id: u128) -> int
    decreases s.len(),
{
    if s.len() == 0 {
        0
    } else if s[0].id == id {
        0
    } else {
        1 + find_index(s.drop_first(), id)
    }
}

/// An ordered, mutation-safe job store. Jobs leave from the front, either one
/// at a time or as the whole due prefix.
pub struct QueueManager {
    jobs: Vec<Job>,
}

impl View for QueueManager {
    type V = Seq<Job>;

    closed spec fn view(&self) -> Seq<Job> {
        self.jobs@
    }
}

pub proof fn lemma_insert_pos_props(s: Seq<Job>, j: Job)
    ensures
        0 <= insert_pos(s, j) <= s.len(),
        forall|k: int| 0 <= k < insert_pos(s, j) ==> !strictly_before(j, #[trigger] s[k]),
        insert_pos(s, j) < s.len() ==> strictly_before(j, s[insert_pos(s, j)]),
    decreases s.len(),
{
    if s.len() == 0 {
    } else if strictly_before(j, s[0]) {
    } else {
        lemma_insert_pos_props(s.drop_first(), j);
        assert forall|k: int| 0 <= k < insert_pos(s, j) implies
            !strictly_before(j, #[trigger] s[k]) by {
            if k > 0 {
                assert(s[k] == s.drop_first()[k - 1]);
            }
        }
        if insert_pos(s, j) < s.len() {
            assert(s[insert_pos(s, j)] == s.drop_first()[insert_pos(s.drop_first(), j)]);
        }
    }
}

/// The insertion index is pinned by what stands left and right of it.
pub proof fn lemma_insert_pos_unique(s: Seq<Job>, j: Job, p: int)
    requires
        0 <= p <= s.len(),
        forall|k: int| 0 <= k < p ==> !strictly_before(j, #[trigger] s[k]),
        p == s.len() || strictly_before(j, s[p]),
    ensures
        p == insert_pos(s, j),
{
    lemma_insert_pos_props(s, j);
    if p < insert_pos(s, j) {
        assert(!strictly_before(j, s[p]));
        assert(false);
    }
    if p > insert_pos(s, j) {
        assert(strictly_before(j, s[insert_pos(s, j)]));
        assert(false);
    }
}

pub proof fn lemma_ready_count_props(s: Seq<Job>, now: i64)
    ensures
        0 <= ready_count(s, now) <= s.len(),
        forall|k: int| 0 <= k < ready_count(s, now) ==> #[trigger] s[k].execution_time <= now,
        ready_count(s, now) < s.len() ==> s[ready_count(s, now)].execution_time > now,
    decreases s.len(),
{
    if s.len() > 0 && s[0].execution_time <= now {
        lemma_ready_count_props(s.drop_first(), now);
        assert forall|k: int| 0 <= k < ready_count(s, now) implies
            #[trigger] s[k].execution_time <= now by {
            if k > 0 {
                assert(s[k] == s.drop_first()[k - 1]);
            }
        }
        if ready_count(s, now) < s.len() {
            assert(s[ready_count(s, now)]
                == s.drop_first()[ready_count(s.drop_first(), now)]);
        }
    }
}

/// The count of due jobs is pinned by what stands left and right of the cut.
pub proof fn lemma_ready_count_unique(s: Seq<Job>, now: i64, k: int)
    requires
        0 <= k <= s.len(),
        forall|i: int| 0 <= i < k ==> #[trigger] s[i].execution_time <= now,
        k == s.len() || s[k].execution_time > now,
    ensures
        k == ready_count(s, now),
{
    lemma_ready_count_props(s, now);
    if k < ready_count(s, now) {
        assert(s[k].execution_time <= now);
        assert(false);
    }
    if k > ready_count(s, now) {
        assert(s[ready_count(s, now)].execution_time <= now);
        assert(false);
    }
}

pub proof fn lemma_find_index_props(s: Seq<Job>, id: u128)
    ensures
        0 <= find_index(s, id) <= s.len(),
        forall|k: int| 0 <= k < find_index(s, id) ==> #[trigger] s[k].id != id,
        contains_id(s, id) <==> find_index(s, id) < s.len(),
        find_index(s, id) < s.len() ==> s[find_index(s, id)].id == id,
    decreases s.len(),
{
    if s.len() == 0 {
    } else if s[0].id == id {
    } else {
        lemma_find_index_props(s.drop_first(), id);
        assert forall|k: int| 0 <= k < find_index(s, id) implies #[trigger] s[k].id != id by {
            if k > 0 {
                assert(s[k] == s.drop_first()[k - 1]);
            }
        }
        if find_index(s, id) < s.len() {
            assert(s[find_index(s, id)] == s.drop_first()[find_index(s.drop_first(), id)]);
        }
        if contains_id(s, id) {
            let w = choose|i: int| 0 <= i < s.len() && #[trigger] s[i].id == id;
            assert(s.drop_first()[w - 1].id == id);
            assert(contains_id(s.drop_first(), id));
        }
        if contains_id(s.drop_first(), id) {
            let w = choose|i: int| 0 <= i < s.drop_first().len()
                && #[trigger] s.drop_first()[i].id == id;
            assert(s[w + 1].id == id);
        }
    }
}

/// Inserting a job at its insertion index keeps the store sorted.
pub proof fn lemma_insert_keeps_sorted(s: Seq<Job>, j: Job)
    requires
        store_sorted(s),
    ensures
        store_sorted(s.insert(insert_pos(s, j), j)),
{
    let p = insert_pos(s, j);
    lemma_insert_pos_props(s, j);
    let t = s.insert(p, j);
    assert forall|i: int, k: int| 0 <= i < k < t.len() implies #[trigger] in_order(t[i], t[k]) by {
        if i < p && k < p {
            assert(t[i] == s[i] && t[k] == s[k]);
            assert(in_order(s[i], s[k]));
        } else if i < p && k == p {
            assert(t[i] == s[i] && t[k] == j);
        } else if i < p && k > p {
            assert(t[i] == s[i] && t[k] == s[k - 1]);
            assert(in_order(s[i], s[k - 1]));
        } else if i == p && k > p {
            assert(t[i] == j && t[k] == s[k - 1]);
            if strictly_before(s[k - 1], j) {
                // j enters before s[p]; from p on, everything waits for j.
                assert(strictly_before(j, s[p]));
                if p < k - 1 {
                    assert(in_order(s[p], s[k - 1]));
                }
                assert(false);
            }
        } else {
            assert(t[i] == s[i - 1] && t[k] == s[k - 1]);
            assert(in_order(s[i - 1], s[k - 1]));
        }
    }
}

/// Removing a job keeps the store sorted.
pub proof fn lemma_remove_keeps_sorted(s: Seq<Job>, p: int)
    requires
        store_sorted(s),
        0 <= p < s.len(),
    ensures
        store_sorted(s.remove(p)),
{
    let t = s.remove(p);
    assert forall|i: int, k: int| 0 <= i < k < t.len() implies #[trigger] in_order(t[i], t[k]) by {
        let si = if i < p { i } else { i + 1 };
        let sk = if k < p { k } else { k + 1 };
        assert(t[i] == s[si] && t[k] == s[sk]);
        assert(in_order(s[si], s[sk]));
    }
}

/// Replacing a job by one with the same due time and priority keeps the store
/// sorted.
pub proof fn lemma_update_keeps_sorted(s: Seq<Job>, p: int, j: Job)
    requires
        store_sorted(s),
        0 <= p < s.len(),
        j.execution_time == s[p].execution_time,
        j.priority == s[p].priority,
    ensures
        store_sorted(s.update(p, j)),
{
    let t = s.update(p, j);
    assert forall|i: int, k: int| 0 <= i < k < t.len() implies #[trigger] in_order(t[i], t[k]) by {
        assert(in_order(s[i], s[k]));
    }
}

/// Every suffix of a sorted store is sorted.
pub proof fn lemma_sorted_skip(s: Seq<Job>, p: int)
    requires
        store_sorted(s),
        0 <= p <= s.len(),
    ensures
        store_sorted(s.skip(p)),
{
    let t = s.skip(p);
    assert forall|i: int, k: int| 0 <= i < k < t.len() implies #[trigger] in_order(t[i], t[k]) by {
        assert(t[i] == s[p + i] && t[k] == s[p + k]);
        assert(in_order(s[p + i], s[p + k]));
    }
}

/// In a sorted store everything at or past the due cut is still in the
/// future.
pub proof fn lemma_unready_after_cut(s: Seq<Job>, now: i64)
    requires
        store_sorted(s),
    ensures
        forall|i: int| ready_count(s, now) <= i < s.len()
            ==> #[trigger] s[i].execution_time > now,
{
    lemma_ready_count_props(s, now);
    let rc = ready_count(s, now);
    assert forall|i: int| rc <= i < s.len() implies #[trigger] s[i].execution_time > now by {
        if i > rc {
            assert(in_order(s[rc], s[i]));
        }
    }
}

impl QueueManager {
    /// The store invariant.
    pub open spec fn wf(&self) -> bool {
        store_sorted(self@)
    }

    /// A new, empty store.
    pub fn new() -> (q: Self)
        ensures
            q@ == Seq::<Job>::empty(),
            q.wf(),
    {
        QueueManager { jobs: Vec::new() }
    }

    /// Insert a job at its place in the dispatch order.
    #[verifier::loop_isolation(false)]
    pub fn push(&mut self, job: Job)
        ensures
            final(self)@ == old(self)@.insert(insert_pos(old(self)@, job), job),
            final(self)@.to_multiset() == old(self)@.to_multiset().insert(job),
            old(self).wf() ==> final(self).wf(),
    {
        let mut i: usize = 0;
        while i < self.jobs.len()
            && !(job.execution_time < self.jobs[i].execution_time
                || (job.execution_time == self.jobs[i].execution_time
                    && job.priority > self.jobs[i].priority))
            invariant
                *self == *old(self),
                0 <= i <= self@.len(),
                forall|k: int| 0 <= k < i ==> !strictly_before(job, #[trigger] self@[k]),
            decreases self@.len() - i,
        {
            i += 1;
        }
        proof {
            lemma_insert_pos_unique(self@, job, i as int);
            vstd::seq_lib::to_multiset_insert(self@, i as int, job);
            if self.wf() {
                lemma_insert_keeps_sorted(self@, job);
            }
        }
        self.jobs.insert(i, job);
    }

    /// Remove and return the single earliest job by the store order, if any.
    pub fn pop(&mut self) -> (r: Option<Job>)
        ensures
            old(self)@.len() == 0 ==> r is None && *final(self) == *old(self),
            old(self)@.len() > 0 ==> r == Some(old(self)@[0])
                && final(self)@ == old(self)@.drop_first(),
            old(self).wf() ==> final(self).wf(),
    {
        if self.jobs.len() == 0 {
            None
        } else {
            let j = self.jobs.remove(0);
            proof {
                assert(self@ =~= old(self)@.drop_first());
                if old(self).wf() {
                    lemma_sorted_skip(old(self)@, 1);
                    assert(old(self)@.skip(1) =~= old(self)@.drop_first());
                }
            }
            Some(j)
        }
    }

    /// A read-only view of the earliest job, if any.
    pub fn peek(&self) -> (r: Option<&Job>)
        ensures
            self@.len() == 0 ==> r is None,
            self@.len() > 0 ==> (r matches Some(j) && *j == self@[0]),
    {
        if self.jobs.len() == 0 {
            None
        } else {
            Some(&self.jobs[0])
        }
    }

    /// Remove and return, in store order, exactly the jobs already due at
    /// `now`; the remainder stays in the store, in its original relative
    /// order.
    #[verifier::loop_isolation(false)]
    #[verifier::rlimit(30)]
    pub fn pop_ready(&mut self, now: i64) -> (r: Vec<Job>)
        requires
            old(self).wf(),
        ensures
            final(self).wf(),
            r@ == old(self)@.take(ready_count(old(self)@, now)),
            final(self)@ == old(self)@.skip(ready_count(old(self)@, now)),
            r@ + final(self)@ == old(self)@,
            forall|i: int| 0 <= i < r@.len() ==> #[trigger] r@[i].execution_time <= now,
            forall|i: int| 0 <= i < final(self)@.len()
                ==> #[trigger] final(self)@[i].execution_time > now,
    {
        let ghost s0 = self@;
        let mut ready: Vec<Job> = Vec::new();
        while self.jobs.len() > 0 && self.jobs[0].execution_time <= now
            invariant
                ready@.len() + self@.len() == s0.len(),
                ready@ == s0.take(ready@.len() as int),
                self@ == s0.skip(ready@.len() as int),
                forall|k: int| 0 <= k < ready@.len()
                    ==> #[trigger] s0[k].execution_time <= now,
            decreases self@.len(),
        {
            let ghost k = ready@.len() as int;
            let j = self.jobs.remove(0);
            ready.push(j);
            proof {
                assert(s0.skip(k)[0] == s0[k]);
                assert(self@ =~= s0.skip(k + 1));
                assert(ready@ =~= s0.take(k + 1));
            }
        }
        proof {
            let k = ready@.len() as int;
            if k < s0.len() {
                assert(s0[k] == s0.skip(k)[0]);
            }
            lemma_ready_count_unique(s0, now, k);
            lemma_sorted_skip(s0, k);
            lemma_unready_after_cut(s0, now);
            assert(ready@ + self@ =~= s0);
            assert forall|i: int| 0 <= i < self@.len() implies
                #[trigger] self@[i].execution_time > now by {
                assert(self@[i] == s0[k + i]);
            }
        }
        ready
    }

    /// Remove the job with the given id, if present; the rest of the store is
    /// untouched, in its original order.
    #[verifier::loop_isolation(false)]
    pub fn remove(&mut self, id: u128) -> (r: Option<Job>)
        ensures
            r is Some <==> contains_id(old(self)@, id),
            r is None ==> *final(self) == *old(self),
            r matches Some(j) ==> j == old(self)@[find_index(old(self)@, id)]
                && j.id == id
                && final(self)@ == old(self)@.remove(find_index(old(self)@, id))
                && final(self)@.len() == old(self)@.len() - 1,
            old(self).wf() ==> final(self).wf(),
    {
        proof {
            lemma_find_index_props(self@, id);
        }
        let mut i: usize = 0;
        while i < self.jobs.len()
            invariant
                *self == *old(self),
                0 <= i <= self@.len(),
                forall|k: int| 0 <= k < i ==> #[trigger] self@[k].id != id,
            decreases self@.len() - i,
        {
            if self.jobs[i].id == id {
                proof {
                    assert(self@[i as int].id == id);
                    assert(contains_id(self@, id));
                    if (i as int) != find_index(self@, id) {
                        assert(self@[find_index(self@, id)].id == id);
                        assert(false);
                    }
                    if old(self).wf() {
                        lemma_remove_keeps_sorted(self@, i as int);
                    }
                }
                let j = self.jobs.remove(i);
                return Some(j);
            }
            i += 1;
        }
        proof {
            if contains_id(self@, id) {
                assert(self@[find_index(self@, id)].id == id);
                assert(false);
            }
        }
        None
    }

    /// Set the status of the stored job with the given id, if present;
    /// reports whether it was found. Nothing else about the store changes.
    #[verifier::loop_isolation(false)]
    pub fn update_status(&mut self, id: u128, new_status: Status) -> (found: bool)
        ensures
            found <==> contains_id(old(self)@, id),
            !found ==> *final(self) == *old(self),
            found ==> final(self)@ == old(self)@.update(
                find_index(old(self)@, id),
                (Job { status: new_status, ..old(self)@[find_index(old(self)@, id)] }),
            ),
            old(self).wf() ==> final(self).wf(),
    {
        proof {
            lemma_find_index_props(self@, id);
        }
        let mut i: usize = 0;
        while i < self.jobs.len()
            invariant
                *self == *old(self),
                0 <= i <= self@.len(),
                forall|k: int| 0 <= k < i ==> #[trigger] self@[k].id != id,
            decreases self@.len() - i,
        {
            if self.jobs[i].id == id {
                proof {
                    assert(self@[i as int].id == id);
                    assert(contains_id(self@, id));
                    if (i as int) != find_index(self@, id) {
                        assert(self@[find_index(self@, id)].id == id);
                        assert(false);
                    }
                }
                let mut j = self.jobs.remove(i);
                j.status = new_status;
                self.jobs.insert(i, j);
                proof {
                    let updated = Job { status: new_status, ..old(self)@[i as int] };
                    assert(self@ =~= old(self)@.update(i as int, updated));
                    if old(self).wf() {
                        lemma_update_keeps_sorted(old(self)@, i as int, updated);
                    }
                }
                return true;
            }
            i += 1;
        }
        proof {
            if contains_id(self@, id) {
                assert(self@[find_index(self@, id)].id == id);
                assert(false);
            }
        }
        false
    }

    /// How many jobs the store holds.
    pub fn len(&self) -> (n: usize)
        ensures
            n == self@.len(),
    {
        self.jobs.len()
    }

    /// Whether the store holds no job.
    pub fn is_empty(&self) -> (b: bool)
        ensures
            b == (self@.len() == 0),
    {
        self.jobs.len() == 0
    }

    /// A complete copy of the store's contents in store order; the store
    /// itself is unchanged.
    #[verifier::loop_isolation(false)]
    pub fn snapshot(&self) -> (r: Vec<Job>)
        ensures
            r@ == self@,
    {
        let mut r: Vec<Job> = Vec::new();
        let mut i: usize = 0;
        while i < self.jobs.len()
            invariant
                0 <= i <= self@.len(),
                r@ == self@.take(i as int),
            decreases self@.len() - i,
        {
            r.push(self.jobs[i].clone());
            proof {
                assert(r@ =~= self@.take(i + 1));
            }
            i += 1;
        }
        proof {
            assert(self@.take(self@.len() as int) =~= self@);
        }
        r
    }

    /// Replace the store's contents by the given jobs, re-establishing the
    /// dispatch order.
    #[verifier::loop_isolation(false)]
    pub fn load_from_vec(&mut self, jobs: Vec<Job>)
        ensures
            final(self).wf(),
            final(self)@.to_multiset() == jobs@.to_multiset(),
    {
        self.jobs = Vec::new();
        proof {
            assert(jobs@.take(0) =~= self@);
            assert(jobs@.take(0).to_multiset() =~= self@.to_multiset());
        }
        let mut i: usize = 0;
        while i < jobs.len()
            invariant
                self.wf(),
                self@.to_multiset() == jobs@.take(i as int).to_multiset(),
                0 <= i <= jobs@.len(),
            decreases jobs@.len() - i,
        {
            self.push(jobs[i].clone());
            proof {
                vstd::seq_lib::to_multiset_build(jobs@.take(i as int), jobs@[i as int]);
                assert(jobs@.take(i + 1) =~= jobs@.take(i as int).push(jobs@[i as int]));
            }
            i += 1;
        }
        proof {
            assert(jobs@.take(jobs@.len() as int) =~= jobs@);
        }
    }
}

/// Store-order law: in a well-formed store the jobs stand in dispatch order —
/// non-decreasing due time and, among equal due times, non-increasing
/// priority — so repeated `pop` calls return them in exactly that order.
pub proof fn lemma_store_dispatch_order(q: QueueManager, i: int, k: int)
    requires
        q.wf(),
        0 <= i <= k < q@.len(),
    ensures
        q@[i].execution_time <= q@[k].execution_time,
        q@[i].execution_time == q@[k].execution_time ==> q@[i].priority >= q@[k].priority,
{
    if i < k {
        assert(in_order(q@[i], q@[k]));
    }
}

} // verus!
