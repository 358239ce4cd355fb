use vstd::prelude::*;
use crate::schedule::lemma_no_descent;
use crate::scheduler::Scheduler;

verus! {

proof fn lemma_finish_upto_attained(s: &Scheduler, k: int)
    requires
        0 < k <= s.count(),
    ensures
        exists|i: int| 0 <= i < k && s.finish(i) == s.finish_upto(k),
    decreases k,
{
    if k > 1 {
        lemma_finish_upto_attained(s, k - 1);
        let i = choose|i: int| 0 <= i < k - 1 && s.finish(i) == s.finish_upto(k - 1);
        if s.finish_upto(k - 1) < s.finish(k - 1) {
            assert(s.finish(k - 1) == s.finish_upto(k));
        } else {
            assert(s.finish(i) == s.finish_upto(k));
        }
    } else {
        assert(s.finish(0) >= 0);
        assert(s.finish_upto(0) == 0);
        assert(s.finish(0) == s.finish_upto(1));
    }
}

proof fn lemma_bound_of(r: Seq<int>, n: int) -> (b: int)
    requires
        0 <= n <= r.len(),
    ensures
        forall|i: int| 0 <= i < n ==> r[i] <= b,
    decreases n,
{
    if n == 0 {
        0
    } else {
        let b0 = lemma_bound_of(r, n - 1);
        if r[n - 1] > b0 {
            r[n - 1]
        } else {
            b0
        }
    }
}

/// In a finished schedule the end is the latest finish over all tasks: no
/// task finishes after it and, when there are tasks, one finishes exactly at
/// it. Every task that nothing waits on has its latest start at the end minus
/// its duration, so it finishes exactly at the end when started late.
pub proof fn lemma_end_is_latest_finish(s: &Scheduler)
    requires
        s.scheduled(),
    ensures
        forall|i: int| 0 <= i < s.count() ==> #[trigger] s.finish(i) <= s.end->0,
        s.count() > 0 ==> exists|i: int| 0 <= i < s.count() && s.finish(i) == s.end->0,
        forall|i: int| 0 <= i < s.count() && #[trigger] s.dependants_of(i).len() == 0
            ==> s.late(i) + s.dur(i) == s.end->0,
{
    assert forall|i: int| 0 <= i < s.count() implies #[trigger] s.finish(i) <= s.end->0 by {
        s.lemma_finish_upto_ge(s.count(), i);
    }
    if s.count() > 0 {
        lemma_finish_upto_attained(s, s.count());
    }
    assert forall|i: int| 0 <= i < s.count() && #[trigger] s.dependants_of(i).len() == 0
        implies s.late(i) + s.dur(i) == s.end->0 by {
        assert(s.tasks@[i] == s.tasks@[i]);
    }
}

proof fn lemma_rank_facts(a: &Scheduler, r: Seq<int>)
    requires
        a.well_linked(),
        a.is_ranking(r),
        a.count() <= usize::MAX,
    ensures
        forall|x: int, k: int| 0 <= x < a.count() && 0 <= k < a.deps_of(x).len()
            ==> (#[trigger] a.deps_of(x)[k]) < a.count(),
        forall|x: int, k: int| 0 <= x < a.count() && 0 <= k < a.dependants_of(x).len()
            ==> (#[trigger] a.dependants_of(x)[k]) < a.count() && r[x] < r[a.dependants_of(x)[k] as int],
{
    let n = a.count();
    assert forall|x: int, k: int| 0 <= x < n && 0 <= k < a.deps_of(x).len()
        implies (#[trigger] a.deps_of(x)[k]) < n by {}
    assert forall|x: int, k: int| 0 <= x < n && 0 <= k < a.dependants_of(x).len()
        implies (#[trigger] a.dependants_of(x)[k]) < n && r[x] < r[a.dependants_of(x)[k] as int] by {
        let y = a.dependants_of(x)[k] as int;
        assert(a.deps_of(y).contains(x as usize));
        let w = choose|w: int| 0 <= w < a.deps_of(y).len() && a.deps_of(y)[w] == x as usize;
        assert(a.deps_of(y)[w] as int == x);
        assert(r[a.deps_of(y)[w] as int] < r[y]);
    }
}

#[verifier::rlimit(100)]
#[verifier::spinoff_prover]
proof fn lemma_starts_unique(a: &Scheduler, b: &Scheduler, r: Seq<int>)
    requires
        a.is_ranking(r),
        forall|x: int, k: int| 0 <= x < a.count() && 0 <= k < a.deps_of(x).len()
            ==> (#[trigger] a.deps_of(x)[k]) < a.count(),
        a.count() == b.count(),
        forall|i: int| 0 <= i < a.count() ==> #[trigger] a.deps_of(i) == b.deps_of(i) && a.dur(i) == b.dur(i),
        a.scheduled(),
        b.scheduled(),
    ensures
        forall|x: int| 0 <= x < a.count() ==> #[trigger] a.finish(x) == b.finish(x),
{
    let n = a.count();
    let early = Set::new(|x: int| 0 <= x < n && a.start(x) != b.start(x));
    assert forall|x: int| early.contains(x) implies #[trigger] r[x] >= 0 by {
        assert(a.tasks@[x] == a.tasks@[x]);
    }
    assert forall|x: int| #[trigger] early.contains(x)
        implies exists|y: int| early.contains(y) && r[y] < r[x] by {
        assert(a.tasks@[x] == a.tasks@[x]);
        assert(b.tasks@[x] == b.tasks@[x]);
        let ds = a.deps_of(x);
        if forall|k: int| 0 <= k < ds.len() ==> a.finish(#[trigger] ds[k] as int) == b.finish(ds[k] as int) {
            Scheduler::lemma_latest_finish_frame(a, b, ds);
        }
        let k = choose|k: int| 0 <= k < ds.len() && a.finish(#[trigger] ds[k] as int) != b.finish(ds[k] as int);
        let y = ds[k] as int;
        assert(y < n);
        assert(early.contains(y));
        assert(r[y] < r[x]);
    }
    lemma_no_descent(early, |x: int| r[x]);
    assert forall|x: int| 0 <= x < n implies #[trigger] a.finish(x) == b.finish(x) by {
        assert(!early.contains(x));
    }
}

proof fn lemma_conclude(a: &Scheduler, b: &Scheduler)
    requires
        a.count() == b.count(),
        a.scheduled(),
        b.scheduled(),
        forall|i: int| 0 <= i < a.count() ==> #[trigger] a.dur(i) == b.dur(i),
        forall|i: int| 0 <= i < a.count() ==> #[trigger] a.finish(i) == b.finish(i),
        forall|i: int| 0 <= i < a.count() ==> #[trigger] a.late(i) == b.late(i),
    ensures
        forall|i: int| 0 <= i < a.count() ==> {
            &&& (#[trigger] a.tasks@[i]).earlier_start == b.tasks@[i].earlier_start
            &&& a.tasks@[i].latest_start == b.tasks@[i].latest_start
        },
{
    assert forall|i: int| 0 <= i < a.count() implies {
        &&& (#[trigger] a.tasks@[i]).earlier_start == b.tasks@[i].earlier_start
        &&& a.tasks@[i].latest_start == b.tasks@[i].latest_start
    } by {
        assert(a.finish(i) == b.finish(i));
        assert(a.dur(i) == b.dur(i));
        assert(a.late(i) == b.late(i));
        assert(b.tasks@[i] == b.tasks@[i]);
    }
}

/// A schedule is determined by its graph: two finished schedules of the same
/// acyclic graph agree on every earliest start, every latest start and the end.
/// A task whose latest start differs between `a` and `b` has a dependant
/// whose latest start differs too.
#[verifier::rlimit(100)]
#[verifier::spinoff_prover]
proof fn lemma_late_step(a: &Scheduler, b: &Scheduler, r: Seq<int>, x: int) -> (y: int)
    requires
        0 <= x < a.count(),
        a.count() == b.count(),
        a.late(x) != b.late(x),
        a.dur(x) == b.dur(x),
        a.end == b.end,
        a.late(x) == a.expected_late(x),
        b.late(x) == b.expected_late(x),
        forall|k: int| 0 <= k < a.dependants_of(x).len() ==> (#[trigger] a.dependants_of(x)[k]) < a.count()
            && b.dependants_of(x).contains(a.dependants_of(x)[k]) && r[x] < r[a.dependants_of(x)[k] as int],
        forall|k: int| 0 <= k < b.dependants_of(x).len() ==> (#[trigger] b.dependants_of(x)[k]) < a.count()
            && a.dependants_of(x).contains(b.dependants_of(x)[k]) && r[x] < r[b.dependants_of(x)[k] as int],
    ensures
        0 <= y < a.count(),
        a.late(y) != b.late(y),
        r[x] < r[y],
{
    let da = a.dependants_of(x);
    let db = b.dependants_of(x);
    if da.len() == 0 {
        if db.len() > 0 {
            assert(da.contains(db[0]));
        }
        assert(false);
        0
    } else {
        if db.len() == 0 {
            assert(db.contains(da[0]));
        }
        let ma = a.earliest_late(da);
        let mb = b.earliest_late(db);
        a.lemma_earliest_late_attained(da);
        b.lemma_earliest_late_attained(db);
        if ma < mb {
            let w = choose|w: int| 0 <= w < da.len() && ma == a.late(#[trigger] da[w] as int);
            let ya = da[w];
            assert(db.contains(ya));
            let v = choose|v: int| 0 <= v < db.len() && db[v] == ya;
            b.lemma_earliest_late_le(db, v);
            ya as int
        } else {
            let w = choose|w: int| 0 <= w < db.len() && mb == b.late(#[trigger] db[w] as int);
            let yb = db[w];
            assert(da.contains(yb));
            let v = choose|v: int| 0 <= v < da.len() && da[v] == yb;
            a.lemma_earliest_late_le(da, v);
            yb as int
        }
    }
}

#[verifier::rlimit(100)]
#[verifier::spinoff_prover]
proof fn lemma_lates_unique(a: &Scheduler, b: &Scheduler, r: Seq<int>)
    requires
        r.len() == a.count(),
        a.count() == b.count(),
        forall|x: int, k: int| 0 <= x < a.count() && 0 <= k < a.dependants_of(x).len()
            ==> (#[trigger] a.dependants_of(x)[k]) < a.count() && b.dependants_of(x).contains(a.dependants_of(x)[k])
                && r[x] < r[a.dependants_of(x)[k] as int],
        forall|x: int, k: int| 0 <= x < a.count() && 0 <= k < b.dependants_of(x).len()
            ==> (#[trigger] b.dependants_of(x)[k]) < a.count() && a.dependants_of(x).contains(b.dependants_of(x)[k])
                && r[x] < r[b.dependants_of(x)[k] as int],
        forall|i: int| 0 <= i < a.count() ==> #[trigger] a.dur(i) == b.dur(i),
        a.scheduled(),
        b.scheduled(),
        a.end == b.end,
    ensures
        forall|x: int| 0 <= x < a.count() ==> #[trigger] a.late(x) == b.late(x),
{
    let n = a.count();
    let top = lemma_bound_of(r, n);
    let late = Set::new(|x: int| 0 <= x < n && a.late(x) != b.late(x));
    assert forall|x: int| late.contains(x) implies #[trigger] (top - r[x]) >= 0 by {}
    assert forall|x: int| #[trigger] late.contains(x)
        implies exists|y: int| late.contains(y) && top - r[y] < top - r[x] by {
        assert(a.tasks@[x] == a.tasks@[x]);
        assert(b.tasks@[x] == b.tasks@[x]);
        assert(a.dur(x) == b.dur(x));
        let y = lemma_late_step(a, b, r, x);
        assert(late.contains(y));
    }
    lemma_no_descent(late, |x: int| top - r[x]);
    assert forall|x: int| 0 <= x < a.count() implies #[trigger] a.late(x) == b.late(x) by {
        assert(!late.contains(x));
    }
}

/// In two well-linked graphs whose tasks wait on the same tasks, each task
/// has the same dependants in both, in whatever order.
proof fn lemma_cross_links(a: &Scheduler, b: &Scheduler, r: Seq<int>)
    requires
        a.count() == b.count(),
        a.count() <= usize::MAX,
        forall|i: int| 0 <= i < a.count() ==> #[trigger] a.deps_of(i) == b.deps_of(i),
        a.well_linked(),
        b.well_linked(),
        a.is_ranking(r),
    ensures
        forall|x: int, k: int| 0 <= x < a.count() && 0 <= k < a.dependants_of(x).len()
            ==> (#[trigger] a.dependants_of(x)[k]) < a.count() && b.dependants_of(x).contains(a.dependants_of(x)[k])
                && r[x] < r[a.dependants_of(x)[k] as int],
        forall|x: int, k: int| 0 <= x < a.count() && 0 <= k < b.dependants_of(x).len()
            ==> (#[trigger] b.dependants_of(x)[k]) < a.count() && a.dependants_of(x).contains(b.dependants_of(x)[k])
                && r[x] < r[b.dependants_of(x)[k] as int],
{
    let n = a.count();
    assert forall|x: int, k: int| 0 <= x < n && 0 <= k < a.dependants_of(x).len()
        implies (#[trigger] a.dependants_of(x)[k]) < n && b.dependants_of(x).contains(a.dependants_of(x)[k])
            && r[x] < r[a.dependants_of(x)[k] as int] by {
        let y = a.dependants_of(x)[k] as int;
        assert(a.deps_of(y).contains(x as usize));
        let w = choose|w: int| 0 <= w < a.deps_of(y).len() && a.deps_of(y)[w] == x as usize;
        assert(a.deps_of(y)[w] as int == x);
        assert(r[a.deps_of(y)[w] as int] < r[y]);
        assert(b.deps_of(y)[w] == x as usize);
        assert(b.dependants_of(b.deps_of(y)[w] as int).contains(y as usize));
    }
    assert forall|x: int, k: int| 0 <= x < n && 0 <= k < b.dependants_of(x).len()
        implies (#[trigger] b.dependants_of(x)[k]) < n && a.dependants_of(x).contains(b.dependants_of(x)[k])
            && r[x] < r[b.dependants_of(x)[k] as int] by {
        let y = b.dependants_of(x)[k] as int;
        assert(b.deps_of(y).contains(x as usize));
        let w = choose|w: int| 0 <= w < b.deps_of(y).len() && b.deps_of(y)[w] == x as usize;
        assert(a.deps_of(y)[w] as int == x);
        assert(r[a.deps_of(y)[w] as int] < r[y]);
        assert(a.dependants_of(a.deps_of(y)[w] as int).contains(y as usize));
    }
}

/// A schedule is determined by its graph: two finished schedules of
/// well-linked graphs with the same tasks, durations and dependency lists,
/// with no cycle, agree on every earliest start, every latest start and the
/// end, whatever order their dependant lists are kept in.
#[verifier::rlimit(100)]
#[verifier::spinoff_prover]
pub proof fn lemma_schedule_unique(a: &Scheduler, b: &Scheduler)
    requires
        a.count() == b.count(),
        a.count() <= usize::MAX,
        forall|i: int| 0 <= i < a.count() ==> #[trigger] a.deps_of(i) == b.deps_of(i) && a.dur(i) == b.dur(i),
        a.well_linked(),
        b.well_linked(),
        a.acyclic(),
        a.scheduled(),
        b.scheduled(),
    ensures
        a.end == b.end,
        forall|i: int| 0 <= i < a.count() ==> {
            &&& (#[trigger] a.tasks@[i]).earlier_start == b.tasks@[i].earlier_start
            &&& a.tasks@[i].latest_start == b.tasks@[i].latest_start
        },
{
    let n = a.count();
    let r = choose|r: Seq<int>| a.is_ranking(r);
    lemma_rank_facts(a, r);
    lemma_starts_unique(a, b, r);
    Scheduler::lemma_finish_upto_frame(a, b, n);
    assert(a.end == b.end);
    lemma_cross_links(a, b, r);
    assert forall|i: int| 0 <= i < n implies #[trigger] a.dur(i) == b.dur(i) by {
        assert(a.deps_of(i) == b.deps_of(i));
    }
    lemma_lates_unique(a, b, r);
    lemma_conclude(a, b);
}

/// When no task waits on another, every task starts at 0 at the earliest and
/// at the end minus its duration at the latest, and the end is the longest
/// duration.
pub proof fn lemma_independent_tasks(s: &Scheduler)
    requires
        s.scheduled(),
        forall|i: int| 0 <= i < s.count() ==> #[trigger] s.deps_of(i).len() == 0
            && s.dependants_of(i).len() == 0,
    ensures
        forall|i: int| 0 <= i < s.count() ==> #[trigger] s.start(i) == 0 && s.late(i) == s.end->0 - s.dur(i),
        forall|i: int| 0 <= i < s.count() ==> #[trigger] s.dur(i) <= s.end->0,
        s.count() > 0 ==> exists|i: int| 0 <= i < s.count() && s.dur(i) == s.end->0,
{
    lemma_end_is_latest_finish(s);
    assert forall|i: int| 0 <= i < s.count() implies #[trigger] s.start(i) == 0 && s.late(i) == s.end->0 - s.dur(i) by {
        assert(s.tasks@[i] == s.tasks@[i]);
        assert(s.deps_of(i).len() == 0);
    }
    assert forall|i: int| 0 <= i < s.count() implies #[trigger] s.dur(i) <= s.end->0 by {
        assert(s.start(i) == 0);
        assert(s.finish(i) <= s.end->0);
    }
    if s.count() > 0 {
        let i = choose|i: int| 0 <= i < s.count() && s.finish(i) == s.end->0;
        assert(s.start(i) == 0);
    }
}

/// Two tasks that wait on each other leave no way to order the tasks, so
/// the graph is cyclic.
pub proof fn lemma_mutual_wait_is_cycle(s: &Scheduler, a: usize, b: usize)
    requires
        a < s.count(),
        b < s.count(),
        s.deps_of(a as int).contains(b),
        s.deps_of(b as int).contains(a),
    ensures
        !s.acyclic(),
{
    assert forall|r: Seq<int>| !s.is_ranking(r) by {
        if s.is_ranking(r) {
            let p = choose|p: int| 0 <= p < s.deps_of(a as int).len() && s.deps_of(a as int)[p] == b;
            let q = choose|q: int| 0 <= q < s.deps_of(b as int).len() && s.deps_of(b as int)[q] == a;
            assert(r[s.deps_of(a as int)[p] as int] < r[a as int]);
            assert(r[s.deps_of(b as int)[q] as int] < r[b as int]);
        }
    }
}

} // verus!
