use vstd::prelude::*;
use crate::scheduler::Scheduler;

verus! {

/// Sum of the first `k` weights.
pub open spec fn weight_sum(w: Seq<int>, k: int) -> int
    decreases k,
{
    if k <= 0 {
        0
    } else {
        weight_sum(w, k - 1) + w[k - 1]
    }
}

/// Sum of `w[i]` over the positions `i` whose value in `s` is still unset.
pub open spec fn unset_weight(s: Seq<Option<u64>>, w: Seq<int>) -> int
    decreases s.len(),
{
    if s.len() == 0 {
        0
    } else {
        unset_weight(s.drop_last(), w) + if s.last() is None {
            w[s.len() - 1]
        } else {
            0
        }
    }
}

pub proof fn lemma_unset_weight_range(s: Seq<Option<u64>>, w: Seq<int>)
    requires
        forall|i: int| 0 <= i < s.len() ==> #[trigger] w[i] >= 0,
    ensures
        0 <= unset_weight(s, w) <= weight_sum(w, s.len() as int),
    decreases s.len(),
{
    if s.len() > 0 {
        lemma_unset_weight_range(s.drop_last(), w);
    }
}

pub proof fn lemma_unset_weight_set(s: Seq<Option<u64>>, w: Seq<int>, i: int, v: u64)
    requires
        0 <= i < s.len(),
        s[i] is None,
    ensures
        unset_weight(s.update(i, Some(v)), w) == unset_weight(s, w) - w[i],
    decreases s.len(),
{
    let t = s.update(i, Some(v));
    if i == s.len() - 1 {
        assert(t.drop_last() =~= s.drop_last());
    } else {
        lemma_unset_weight_set(s.drop_last(), w, i, v);
        assert(t.drop_last() =~= s.drop_last().update(i, Some(v)));
    }
}

/// A set in which every member has another member with a smaller value of
/// `f`, with `f` bounded below, is empty.
pub proof fn lemma_no_descent(s: Set<int>, f: spec_fn(int) -> int)
    requires
        forall|x: int| s.contains(x) ==> #[trigger] f(x) >= 0,
        forall|x: int| #[trigger] s.contains(x) ==> exists|y: int| s.contains(y) && f(y) < f(x),
    ensures
        forall|x: int| !s.contains(x),
{
    assert forall|x: int| !s.contains(x) by {
        if s.contains(x) {
            lemma_no_descent_below(s, f, (f(x) + 1) as nat);
        }
    }
}

proof fn lemma_no_descent_below(s: Set<int>, f: spec_fn(int) -> int, k: nat)
    requires
        forall|x: int| s.contains(x) ==> #[trigger] f(x) >= 0,
        forall|x: int| #[trigger] s.contains(x) ==> exists|y: int| s.contains(y) && f(y) < f(x),
    ensures
        forall|x: int| s.contains(x) ==> #[trigger] f(x) >= k,
    decreases k,
{
    if k > 0 {
        lemma_no_descent_below(s, f, (k - 1) as nat);
        assert forall|x: int| s.contains(x) implies #[trigger] f(x) >= k by {
            if f(x) < k {
                let y = choose|y: int| s.contains(y) && f(y) < f(x);
                assert(f(y) >= k - 1);
            }
        }
    }
}

impl Scheduler {
    /// Durations as integers, by position.
    pub open spec fn durations(&self) -> Seq<int> {
        Seq::new(self.tasks@.len(), |i: int| self.tasks@[i].duration as int)
    }

    /// Sum of all durations.
    pub open spec fn total_duration(&self) -> int {
        weight_sum(self.durations(), self.count())
    }

    pub open spec fn early_seq(&self) -> Seq<Option<u64>> {
        Seq::new(self.tasks@.len(), |i: int| self.tasks@[i].earlier_start)
    }

    pub open spec fn late_seq(&self) -> Seq<Option<u64>> {
        Seq::new(self.tasks@.len(), |i: int| self.tasks@[i].latest_start)
    }

    pub open spec fn start(&self, j: int) -> int {
        self.tasks@[j].earlier_start->0 as int
    }

    pub open spec fn late(&self, j: int) -> int {
        self.tasks@[j].latest_start->0 as int
    }

    pub open spec fn finish(&self, j: int) -> int {
        self.start(j) + self.dur(j)
    }

    /// Latest finish among the tasks at positions `ds`; 0 when there are none.
    pub open spec fn latest_finish(&self, ds: Seq<usize>) -> int
        decreases ds.len(),
    {
        if ds.len() == 0 {
            0
        } else {
            let a = self.latest_finish(ds.drop_last());
            let b = self.finish(ds.last() as int);
            if a >= b {
                a
            } else {
                b
            }
        }
    }

    /// Earliest latest start among the tasks at positions `ds` (which is not empty).
    pub open spec fn earliest_late(&self, ds: Seq<usize>) -> int
        decreases ds.len(),
    {
        if ds.len() <= 1 {
            self.late(ds[0] as int)
        } else {
            let a = self.earliest_late(ds.drop_last());
            let b = self.late(ds.last() as int);
            if a <= b {
                a
            } else {
                b
            }
        }
    }

    /// Latest finish among the first `k` tasks; 0 when `k` is 0.
    pub open spec fn finish_upto(&self, k: int) -> int
        decreases k,
    {
        if k <= 0 {
            0
        } else {
            let a = self.finish_upto(k - 1);
            let b = self.finish(k - 1);
            if a >= b {
                a
            } else {
                b
            }
        }
    }

    /// The project's duration by the current earliest starts.
    pub open spec fn project_end(&self) -> int {
        self.finish_upto(self.count())
    }

    /// Latest start that task `i` must keep by the current latest starts of
    /// its dependants, or by `end` when nothing waits on it.
    pub open spec fn expected_late(&self, i: int) -> int {
        if self.dependants_of(i).len() == 0 {
            self.end->0 - self.dur(i)
        } else {
            self.earliest_late(self.dependants_of(i)) - self.dur(i)
        }
    }

    /// Some task waits on nothing.
    pub open spec fn has_root(&self) -> bool {
        exists|i: int| 0 <= i < self.count() && #[trigger] self.deps_of(i).len() == 0
    }

    /// Some task is waited on by no other task.
    pub open spec fn has_leaf(&self) -> bool {
        exists|i: int| 0 <= i < self.count() && #[trigger] self.dependants_of(i).len() == 0
    }

    /// `r` numbers the tasks so that every task comes after each task it waits on.
    pub open spec fn is_ranking(&self, r: Seq<int>) -> bool {
        &&& r.len() == self.count()
        &&& forall|i: int| 0 <= i < self.count() ==> #[trigger] r[i] >= 0
        &&& forall|i: int, k: int| 0 <= i < self.count() && 0 <= k < self.deps_of(i).len()
            ==> r[#[trigger] self.deps_of(i)[k] as int] < r[i]
    }

    /// No chain of waiting leads from a task back to itself.
    pub open spec fn acyclic(&self) -> bool {
        exists|r: Seq<int>| self.is_ranking(r)
    }

    /// Every task carries both start times, and they solve the scheduling
    /// equations: a task starts as soon as the last task it waits on finishes,
    /// `end` is the latest finish, and a task starts no later than its
    /// dependants allow, or than `end` allows where nothing waits on it.
    pub open spec fn scheduled(&self) -> bool {
        &&& self.end is Some
        &&& self.end->0 == self.project_end()
        &&& forall|i: int| 0 <= i < self.count() ==> {
            &&& (#[trigger] self.tasks@[i]).earlier_start is Some
            &&& self.tasks@[i].latest_start is Some
            &&& self.start(i) == self.latest_finish(self.deps_of(i))
            &&& self.late(i) == self.expected_late(i)
        }
    }

    pub proof fn lemma_latest_finish_ge(&self, ds: Seq<usize>, k: int)
        requires
            0 <= k < ds.len(),
        ensures
            self.latest_finish(ds) >= self.finish(ds[k] as int),
        decreases ds.len(),
    {
        if k < ds.len() - 1 {
            self.lemma_latest_finish_ge(ds.drop_last(), k);
        }
    }

    pub proof fn lemma_earliest_late_le(&self, ds: Seq<usize>, k: int)
        requires
            0 <= k < ds.len(),
        ensures
            self.earliest_late(ds) <= self.late(ds[k] as int),
        decreases ds.len(),
    {
        if k < ds.len() - 1 {
            self.lemma_earliest_late_le(ds.drop_last(), k);
        }
    }

    pub proof fn lemma_earliest_late_attained(&self, ds: Seq<usize>)
        requires
            ds.len() > 0,
        ensures
            exists|w: int| 0 <= w < ds.len() && self.earliest_late(ds) == self.late(#[trigger] ds[w] as int),
        decreases ds.len(),
    {
        if ds.len() > 1 {
            self.lemma_earliest_late_attained(ds.drop_last());
            let w = choose|w: int| 0 <= w < ds.drop_last().len()
                && self.earliest_late(ds.drop_last()) == self.late(#[trigger] ds.drop_last()[w] as int);
            if self.earliest_late(ds) == self.late(ds[ds.len() - 1] as int) {
                assert(self.earliest_late(ds) == self.late(ds[ds.len() - 1] as int));
            } else {
                assert(ds.drop_last()[w] == ds[w]);
            }
        } else {
            assert(self.earliest_late(ds) == self.late(ds[0] as int));
        }
    }

    pub proof fn lemma_latest_finish_frame(a: &Scheduler, b: &Scheduler, ds: Seq<usize>)
        requires
            forall|k: int| 0 <= k < ds.len() ==> a.finish(#[trigger] ds[k] as int) == b.finish(ds[k] as int),
        ensures
            a.latest_finish(ds) == b.latest_finish(ds),
        decreases ds.len(),
    {
        if ds.len() > 0 {
            Self::lemma_latest_finish_frame(a, b, ds.drop_last());
            assert(a.finish(ds[ds.len() - 1] as int) == b.finish(ds[ds.len() - 1] as int));
        }
    }

    pub proof fn lemma_earliest_late_frame(a: &Scheduler, b: &Scheduler, ds: Seq<usize>)
        requires
            forall|k: int| 0 <= k < ds.len() ==> a.late(#[trigger] ds[k] as int) == b.late(ds[k] as int),
        ensures
            ds.len() > 0 ==> a.earliest_late(ds) == b.earliest_late(ds),
        decreases ds.len(),
    {
        if ds.len() > 1 {
            Self::lemma_earliest_late_frame(a, b, ds.drop_last());
            assert(a.late(ds[ds.len() - 1] as int) == b.late(ds[ds.len() - 1] as int));
        } else if ds.len() == 1 {
            assert(a.late(ds[0] as int) == b.late(ds[0] as int));
        }
    }

    pub proof fn lemma_finish_upto_ge(&self, k: int, i: int)
        requires
            0 <= i < k,
        ensures
            self.finish_upto(k) >= self.finish(i),
        decreases k,
    {
        if i < k - 1 {
            self.lemma_finish_upto_ge(k - 1, i);
        }
    }

    pub proof fn lemma_finish_upto_frame(a: &Scheduler, b: &Scheduler, k: int)
        requires
            forall|i: int| 0 <= i < k ==> #[trigger] a.finish(i) == b.finish(i),
        ensures
            a.finish_upto(k) == b.finish_upto(k),
        decreases k,
    {
        if k > 0 {
            Self::lemma_finish_upto_frame(a, b, k - 1);
            assert(a.finish(k - 1) == b.finish(k - 1));
        }
    }
}

} // verus!
