use vstd::prelude::*;
use crate::error::ScheduleError;
use crate::schedule::{lemma_no_descent, lemma_unset_weight_range, lemma_unset_weight_set, unset_weight};
use crate::scheduler::Scheduler;

verus! {

/// A weight of one for each of `n` positions.
pub open spec fn ones(n: int) -> Seq<int> {
    Seq::new(n as nat, |i: int| 1int)
}

impl Scheduler {
    /// What the rest of the forward pass needs to know of its state.
    proof fn lemma_forward_facts(&self, g: Scheduler, order: Seq<usize>, rank: Seq<int>)
        requires
            self.forward_inv(g, order, rank),
        ensures
            Scheduler::same_graph(self, &g),
            self.well_linked(),
            rank.len() == self.count(),
            forall|p: int| 0 <= p < order.len() ==> {
                &&& (#[trigger] order[p]) < self.count()
                &&& self.tasks@[order[p] as int].earlier_start is Some
                &&& rank[order[p] as int] == p
            },
            forall|x: int| 0 <= x < self.count() && (#[trigger] self.tasks@[x]).earlier_start is Some ==> {
                &&& 0 <= rank[x] < order.len()
                &&& order[rank[x]] == x
                &&& self.start(x) == self.latest_finish(self.deps_of(x))
                &&& self.finish(x) <= self.total_duration()
            },
            forall|x: int, k: int| 0 <= x < self.count() && 0 <= k < self.deps_of(x).len()
                && self.tasks@[x].earlier_start is Some ==> {
                &&& self.tasks@[#[trigger] self.deps_of(x)[k] as int].earlier_start is Some
                &&& rank[self.deps_of(x)[k] as int] < rank[x]
            },
            self.total_duration() <= u64::MAX,
            self.end is None,
            forall|x: int| 0 <= x < self.count() ==> (#[trigger] self.tasks@[x]).latest_start is None,
    {
        reveal(Scheduler::forward_inv);
        lemma_unset_weight_range(self.early_seq(), self.durations());
    }

    /// Forward pass state: `order` lists the tasks whose earliest start is
    /// set, in the order they were set, and `rank` gives their positions in it.
    #[verifier::opaque]
    spec fn forward_inv(&self, g: Scheduler, order: Seq<usize>, rank: Seq<int>) -> bool {
        &&& Scheduler::same_graph(self, &g)
        &&& g.well_linked()
        &&& self.well_linked()
        &&& self.end is None
        &&& self.total_duration() <= u64::MAX
        &&& rank.len() == self.count()
        &&& forall|p: int| 0 <= p < order.len() ==> {
            &&& (#[trigger] order[p]) < self.count()
            &&& self.tasks@[order[p] as int].earlier_start is Some
            &&& rank[order[p] as int] == p
        }
        &&& forall|x: int| 0 <= x < self.count() ==> (#[trigger] self.tasks@[x]).latest_start is None
        &&& forall|x: int| 0 <= x < self.count() && (#[trigger] self.tasks@[x]).earlier_start is Some ==> {
            &&& 0 <= rank[x] < order.len()
            &&& order[rank[x]] == x
            &&& self.start(x) == self.latest_finish(self.deps_of(x))
            &&& self.finish(x) <= self.total_duration() - unset_weight(self.early_seq(), self.durations())
        }
        &&& forall|x: int, k: int| 0 <= x < self.count() && 0 <= k < self.deps_of(x).len()
            && self.tasks@[x].earlier_start is Some ==> {
            &&& self.tasks@[#[trigger] self.deps_of(x)[k] as int].earlier_start is Some
            &&& rank[self.deps_of(x)[k] as int] < rank[x]
        }
    }

    /// Every task without an earliest start waits on a task that has none
    /// either, or that the forward pass has not processed before `head`.
    spec fn forward_blocked(&self, rank: Seq<int>, head: int) -> bool {
        forall|x: int| 0 <= x < self.count() && (#[trigger] self.tasks@[x]).earlier_start is None
            ==> self.waits_early(x, rank, head)
    }

    /// Task `x` waits on a task without an earliest start, or on one that the
    /// forward pass has not processed before `head`.
    spec fn waits_early(&self, x: int, rank: Seq<int>, head: int) -> bool {
        exists|k: int| 0 <= k < self.deps_of(x).len() && ({
            let j = #[trigger] self.deps_of(x)[k] as int;
            self.tasks@[j].earlier_start is None || rank[j] >= head
        })
    }

    proof fn lemma_waits_early_kept(a: &Scheduler, b: &Scheduler, rank: Seq<int>, new_rank: Seq<int>, x: int, head: int, len: int)
        requires
            a.waits_early(x, rank, head),
            a.count() == b.count(),
            0 <= x < a.count(),
            b.deps_of(x) == a.deps_of(x),
            head <= len,
            forall|q: int| 0 <= q < a.deps_of(x).len() ==> (#[trigger] a.deps_of(x)[q]) < a.count(),
            forall|y: int| 0 <= y < a.count() && (#[trigger] a.tasks@[y]).earlier_start is Some
                ==> b.tasks@[y].earlier_start is Some && new_rank[y] == rank[y],
            forall|y: int| 0 <= y < a.count() && a.tasks@[y].earlier_start is None
                && (#[trigger] b.tasks@[y]).earlier_start is Some ==> new_rank[y] >= len,
        ensures
            b.waits_early(x, new_rank, head),
    {
        let k = choose|k: int| 0 <= k < a.deps_of(x).len() && ({
            let j = #[trigger] a.deps_of(x)[k] as int;
            a.tasks@[j].earlier_start is None || rank[j] >= head
        });
        let j = a.deps_of(x)[k] as int;
        assert(b.deps_of(x)[k] as int == j);
        if a.tasks@[j].earlier_start is Some {
            assert(b.tasks@[j].earlier_start is Some);
        } else if b.tasks@[j].earlier_start is Some {
            assert(new_rank[j] >= len);
        }
    }

    /// Positions of the tasks that wait on nothing, in increasing order.
    pub fn find_first_tasks(&self) -> (r: Result<Vec<usize>, ScheduleError>)
        ensures
            match r {
                Ok(v) => {
                    &&& self.has_root()
                    &&& forall|p: int| 0 <= p < v@.len() ==> (#[trigger] v@[p]) < self.count()
                        && self.deps_of(v@[p] as int).len() == 0
                    &&& forall|p: int, q: int| 0 <= p < q < v@.len() ==> v@[p] < v@[q]
                    &&& forall|x: int| 0 <= x < self.count() && #[trigger] self.deps_of(x).len() == 0
                        ==> v@.contains(x as usize)
                },
                Err(e) => e is NoRootTask && !self.has_root(),
            },
    {
        let mut v: Vec<usize> = Vec::new();
        let mut i: usize = 0;
        while i < self.tasks.len()
            invariant
                i <= self.count(),
                forall|p: int| 0 <= p < v@.len() ==> (#[trigger] v@[p]) < i
                    && self.deps_of(v@[p] as int).len() == 0,
                forall|p: int, q: int| 0 <= p < q < v@.len() ==> v@[p] < v@[q],
                forall|x: int| 0 <= x < i && #[trigger] self.deps_of(x).len() == 0
                    ==> v@.contains(x as usize),
            decreases self.count() - i,
        {
            let ghost before = v@;
            if self.tasks[i].deps.len() == 0 {
                v.push(i);
                assert(v@[v@.len() - 1] == i);
            }
            assert forall|x: int| 0 <= x <= i && #[trigger] self.deps_of(x).len() == 0
                implies v@.contains(x as usize) by {
                if x < i {
                    let w = choose|w: int| 0 <= w < before.len() && before[w] == x as usize;
                    assert(v@[w] == x as usize);
                } else {
                    assert(v@[v@.len() - 1] == i);
                }
            }
            i = i + 1;
        }
        if v.len() == 0 {
            assert forall|x: int| 0 <= x < self.count() implies #[trigger] self.deps_of(x).len() != 0 by {
                if self.deps_of(x).len() == 0 {
                    assert(v@.contains(x as usize));
                }
            }
            return Err(ScheduleError::NoRootTask);
        }
        assert(self.deps_of(v@[0] as int).len() == 0);
        Ok(v)
    }

    /// Positions of the tasks that nothing waits on, in increasing order.
    pub fn find_last_tasks(&self) -> (r: Result<Vec<usize>, ScheduleError>)
        ensures
            match r {
                Ok(v) => {
                    &&& self.has_leaf()
                    &&& forall|p: int| 0 <= p < v@.len() ==> (#[trigger] v@[p]) < self.count()
                        && self.dependants_of(v@[p] as int).len() == 0
                    &&& forall|p: int, q: int| 0 <= p < q < v@.len() ==> v@[p] < v@[q]
                    &&& forall|x: int| 0 <= x < self.count() && #[trigger] self.dependants_of(x).len() == 0
                        ==> v@.contains(x as usize)
                },
                Err(e) => e is NoLeafTask && !self.has_leaf(),
            },
    {
        let mut v: Vec<usize> = Vec::new();
        let mut i: usize = 0;
        while i < self.tasks.len()
            invariant
                i <= self.count(),
                forall|p: int| 0 <= p < v@.len() ==> (#[trigger] v@[p]) < i
                    && self.dependants_of(v@[p] as int).len() == 0,
                forall|p: int, q: int| 0 <= p < q < v@.len() ==> v@[p] < v@[q],
                forall|x: int| 0 <= x < i && #[trigger] self.dependants_of(x).len() == 0
                    ==> v@.contains(x as usize),
            decreases self.count() - i,
        {
            let ghost before = v@;
            if self.tasks[i].dependants.len() == 0 {
                v.push(i);
                assert(v@[v@.len() - 1] == i);
            }
            assert forall|x: int| 0 <= x <= i && #[trigger] self.dependants_of(x).len() == 0
                implies v@.contains(x as usize) by {
                if x < i {
                    let w = choose|w: int| 0 <= w < before.len() && before[w] == x as usize;
                    assert(v@[w] == x as usize);
                } else {
                    assert(v@[v@.len() - 1] == i);
                }
            }
            i = i + 1;
        }
        if v.len() == 0 {
            assert forall|x: int| 0 <= x < self.count() implies #[trigger] self.dependants_of(x).len() != 0 by {
                if self.dependants_of(x).len() == 0 {
                    assert(v@.contains(x as usize));
                }
            }
            return Err(ScheduleError::NoLeafTask);
        }
        assert(self.dependants_of(v@[0] as int).len() == 0);
        Ok(v)
    }

    /// Sets the earliest start of task `d` once every task it waits on has
    /// one, and queues `d` so that its dependants are visited in turn.
    #[verifier::rlimit(30)]
    fn visit_early(&mut self, d: usize, order: &mut Vec<usize>, g: Ghost<Scheduler>, rank: Ghost<Seq<int>>) -> (new_rank: Ghost<Seq<int>>)
        requires
            old(self).forward_inv(g@, old(order)@, rank@),
            d < old(self).count(),
        ensures
            final(self).forward_inv(g@, final(order)@, new_rank@),
            final(self).count() == old(self).count(),
            final(order)@.len() >= old(order)@.len(),
            forall|p: int| 0 <= p < old(order)@.len() ==> #[trigger] final(order)@[p] == old(order)@[p],
            final(order)@.len() + unset_weight(final(self).early_seq(), ones(old(self).count()))
                == old(order)@.len() + unset_weight(old(self).early_seq(), ones(old(self).count())),
            forall|x: int| 0 <= x < old(self).count() && (#[trigger] old(self).tasks@[x]).earlier_start is Some
                ==> final(self).tasks@[x].earlier_start == old(self).tasks@[x].earlier_start && new_rank@[x] == rank@[x],
            forall|x: int| 0 <= x < old(self).count() && x != d
                ==> (#[trigger] final(self).tasks@[x]).earlier_start == old(self).tasks@[x].earlier_start,
            final(self).tasks@[d as int].earlier_start is Some && old(self).tasks@[d as int].earlier_start is None
                ==> new_rank@[d as int] == old(order)@.len(),
            final(self).tasks@[d as int].earlier_start is None ==> exists|k: int|
                0 <= k < old(self).deps_of(d as int).len()
                && final(self).tasks@[#[trigger] old(self).deps_of(d as int)[k] as int].earlier_start is None,
    {
        if self.tasks[d].earlier_start.is_some() {
            return rank;
        }
        let ghost n = self.count();
        proof {
            reveal(Scheduler::forward_inv);
            lemma_unset_weight_range(self.early_seq(), self.durations());
            lemma_unset_weight_range(self.early_seq(), ones(n));
        }
        let m = self.tasks[d].deps.len();
        let mut best: u64 = 0;
        let mut k: usize = 0;
        let ghost s0 = *self;
        assert forall|q: int| 0 <= q < m implies (#[trigger] self.deps_of(d as int)[q]) < n by {}
        while k < m
            invariant
                *self == s0,
                *old(self) == s0,
                order@ == old(order)@,
                s0.forward_inv(g@, order@, rank@),
                self.total_duration() <= u64::MAX,
                n == self.count(),
                forall|q: int| 0 <= q < m ==> (#[trigger] self.deps_of(d as int)[q]) < n,
                forall|x: int| 0 <= x < n && (#[trigger] self.tasks@[x]).earlier_start is Some
                    ==> self.finish(x) <= self.total_duration() - unset_weight(self.early_seq(), self.durations()),
                d < self.count(),
                self.tasks@[d as int].earlier_start is None,
                k <= m,
                m == self.deps_of(d as int).len(),
                0 <= unset_weight(self.early_seq(), self.durations()),
                forall|q: int| 0 <= q < k ==> self.tasks@[#[trigger] self.deps_of(d as int)[q] as int].earlier_start is Some,
                best == self.latest_finish(self.deps_of(d as int).take(k as int)),
                best <= self.total_duration() - unset_weight(self.early_seq(), self.durations()),
            decreases m - k,
        {
            let j = self.tasks[d].deps[k];
            assert(self.deps_of(d as int)[k as int] == j);
            match self.tasks[j].earlier_start {
                None => {
                    return rank;
                },
                Some(st) => {
                    let f = st + self.tasks[j].duration as u64;
                    if f > best {
                        best = f;
                    }
                },
            }
            assert(self.deps_of(d as int).take(k + 1).drop_last() =~= self.deps_of(d as int).take(k as int));
            k = k + 1;
        }
        assert(self.deps_of(d as int).take(m as int) =~= self.deps_of(d as int));
        let ghost old_self = *self;
        let ghost old_order = order@;
        self.tasks[d].earlier_start = Some(best);
        order.push(d);
        let ghost new_rank = rank@.update(d as int, old_order.len() as int);
        proof {
            reveal(Scheduler::forward_inv);
            assert(self.tasks@ =~= old_self.tasks@.update(d as int, self.tasks@[d as int]));
            assert(self.early_seq() =~= old_self.early_seq().update(d as int, Some(best)));
            assert(self.durations() =~= old_self.durations());
            assert(Scheduler::same_graph(self, &g@));
            Scheduler::lemma_same_graph_linked(self, &g@);
            lemma_unset_weight_set(old_self.early_seq(), old_self.durations(), d as int, best);
            lemma_unset_weight_set(old_self.early_seq(), ones(n), d as int, best);
            assert(old_self.durations()[d as int] == self.dur(d as int));
            assert forall|x: int| 0 <= x < n && (#[trigger] self.tasks@[x]).earlier_start is Some implies {
                &&& 0 <= new_rank[x] < order@.len()
                &&& order@[new_rank[x]] == x
                &&& self.start(x) == self.latest_finish(self.deps_of(x))
                &&& self.finish(x) <= self.total_duration() - unset_weight(self.early_seq(), self.durations())
            } by {
                assert forall|q: int| 0 <= q < self.deps_of(x).len()
                    implies self.finish(#[trigger] self.deps_of(x)[q] as int) == old_self.finish(self.deps_of(x)[q] as int) by {
                    let j = self.deps_of(x)[q] as int;
                    assert(old_self.tasks@[j].earlier_start is Some);
                }
                Scheduler::lemma_latest_finish_frame(self, &old_self, self.deps_of(x));
            }
            assert forall|p: int| 0 <= p < order@.len() implies {
                &&& (#[trigger] order@[p]) < n
                &&& self.tasks@[order@[p] as int].earlier_start is Some
                &&& new_rank[order@[p] as int] == p
            } by {
                if p < old_order.len() {
                    assert(old_order[p] == order@[p]);
                }
            }
            assert forall|x: int, q: int| 0 <= x < n && 0 <= q < self.deps_of(x).len()
                && self.tasks@[x].earlier_start is Some implies {
                &&& self.tasks@[#[trigger] self.deps_of(x)[q] as int].earlier_start is Some
                &&& new_rank[self.deps_of(x)[q] as int] < new_rank[x]
            } by {
                assert(old_self.tasks@[self.deps_of(x)[q] as int].earlier_start is Some);
            }
        }
        Ghost(new_rank)
    }

    /// Computes every task's earliest and latest start and the project's end.
    /// Forward pass: sets the earliest start of every task reachable from the
    /// roots through complete chains, visiting the roots first and then the
    /// dependants of each task whose start is set.
    #[verifier::rlimit(60)]
    #[verifier::spinoff_prover]
    fn run_forward(&mut self, roots: &Vec<usize>, g: Ghost<Scheduler>) -> (res: (Vec<usize>, Ghost<Seq<int>>))
        requires
            old(self).forward_inv(g@, Seq::empty(), Seq::new(old(self).count() as nat, |i: int| 0int)),
            forall|x: int| 0 <= x < old(self).count() ==> (#[trigger] old(self).tasks@[x]).earlier_start is None,
            forall|p: int| 0 <= p < roots@.len() ==> (#[trigger] roots@[p]) < old(self).count()
                && old(self).deps_of(roots@[p] as int).len() == 0,
            forall|x: int| 0 <= x < old(self).count() && #[trigger] old(self).deps_of(x).len() == 0
                ==> roots@.contains(x as usize),
        ensures
            final(self).forward_inv(g@, res.0@, res.1@),
            final(self).forward_blocked(res.1@, res.0@.len() as int),
    {
        let ghost g = g@;
        let ghost n = self.count();
        let nn = self.tasks.len();
        assert(n <= usize::MAX);
        let mut order: Vec<usize> = Vec::new();
        let ghost mut rank: Seq<int> = Seq::new(n as nat, |i: int| 0int);
        proof {
            lemma_unset_weight_range(self.early_seq(), ones(n));
            reveal(Scheduler::forward_inv);
        }
        let ghost c = unset_weight(self.early_seq(), ones(n));
        let mut q: usize = 0;
        while q < roots.len()
            invariant
                self.forward_inv(g, order@, rank),
                n == self.count(),
                n <= usize::MAX,
                forall|p: int| 0 <= p < roots@.len() ==> (#[trigger] roots@[p]) < n
                    && self.deps_of(roots@[p] as int).len() == 0,
                forall|x: int| 0 <= x < n && #[trigger] self.deps_of(x).len() == 0
                    ==> roots@.contains(x as usize),
                forall|p: int| 0 <= p < q ==> self.tasks@[#[trigger] roots@[p] as int].earlier_start is Some,
                q <= roots@.len(),
                order@.len() + unset_weight(self.early_seq(), ones(n)) == c,
            decreases roots@.len() - q,
        {
            let d = roots[q];
            let ghost before = *self;
            let ghost old_order = order@;
            let ghost old_rank = rank;
            let nr = self.visit_early(d, &mut order, Ghost(g), Ghost(rank));
            proof {
                rank = nr@;
                self.lemma_forward_facts(g, order@, rank);
                before.lemma_forward_facts(g, old_order, old_rank);
                assert(before.deps_of(d as int).len() == 0);
                assert forall|p: int| 0 <= p <= q implies self.tasks@[#[trigger] roots@[p] as int].earlier_start is Some by {
                    if p < q {
                        assert(before.tasks@[roots@[p] as int].earlier_start is Some);
                    }
                }
                assert forall|x: int| 0 <= x < n implies #[trigger] self.deps_of(x) == before.deps_of(x) by {
                    assert(self.tasks@[x] == self.tasks@[x]);
                    assert(before.tasks@[x] == before.tasks@[x]);
                    assert(g.tasks@[x] == g.tasks@[x]);
                }
            }
            q = q + 1;
        }
        proof {
            self.lemma_forward_facts(g, order@, rank);
            assert forall|x: int| 0 <= x < n && (#[trigger] self.tasks@[x]).earlier_start is None
                implies self.waits_early(x, rank, 0) by {
                if self.deps_of(x).len() == 0 {
                    assert(roots@.contains(x as usize));
                    let w = choose|w: int| 0 <= w < roots@.len() && roots@[w] == x as usize;
                    assert(self.tasks@[roots@[w] as int].earlier_start is Some);
                    assert(roots@[w] as int == x);
                }
                assert(self.deps_of(x).len() > 0);
                let j = self.deps_of(x)[0] as int;
                assert(self.deps_of(x)[0] < n);
                if self.tasks@[j].earlier_start is Some {
                    assert(rank[j] >= 0);
                }
                assert(self.tasks@[j].earlier_start is None || rank[j] >= 0);
            }
            lemma_unset_weight_range(self.early_seq(), ones(n));
        }
        let mut head: usize = 0;
        while head < order.len()
            invariant
                self.forward_inv(g, order@, rank),
                self.forward_blocked(rank, head as int),
                n == self.count(),
                n <= usize::MAX,
                head <= order@.len(),
                order@.len() + unset_weight(self.early_seq(), ones(n)) == c,
                0 <= unset_weight(self.early_seq(), ones(n)),
            decreases c - head,
        {
            proof {
                self.lemma_forward_facts(g, order@, rank);
            }
            let t = order[head];
            let ghost h = head as int;
            let m = self.tasks[t].dependants.len();
            let mut k: usize = 0;
            while k < m
                invariant
                    self.forward_inv(g, order@, rank),
                    self.forward_blocked(rank, h),
                    n == self.count(),
                    n <= usize::MAX,
                n <= usize::MAX,
                    0 <= h < order@.len(),
                    order@[h] == t,
                    t < n,
                    m == self.dependants_of(t as int).len(),
                    k <= m,
                    forall|p: int| 0 <= p < k ==> ({
                        let x = #[trigger] self.dependants_of(t as int)[p] as int;
                        self.tasks@[x].earlier_start is None ==> self.waits_early(x, rank, h + 1)
                    }),
                    order@.len() + unset_weight(self.early_seq(), ones(n)) == c,
                    0 <= unset_weight(self.early_seq(), ones(n)),
                decreases m - k,
            {
                proof {
                    self.lemma_forward_facts(g, order@, rank);
                }
                let d = self.tasks[t].dependants[k];
                let ghost before = *self;
                let ghost old_len = order@.len() as int;
                let ghost old_order = order@;
                let ghost old_rank = rank;
                assert(d < n);
                let nr = self.visit_early(d, &mut order, Ghost(g), Ghost(rank));
                proof {
                    rank = nr@;
                    self.lemma_forward_facts(g, order@, rank);
                    before.lemma_forward_facts(g, old_order, old_rank);
                    assert(order@[h] == old_order[h]);
                    lemma_unset_weight_range(self.early_seq(), ones(n));
                    assert forall|x: int| 0 <= x < n implies #[trigger] self.deps_of(x) == before.deps_of(x)
                        && self.dependants_of(x) == before.dependants_of(x) by {
                        assert(self.tasks@[x] == self.tasks@[x]);
                        assert(before.tasks@[x] == before.tasks@[x]);
                        assert(g.tasks@[x] == g.tasks@[x]);
                    }
                    assert forall|y: int| 0 <= y < n && (#[trigger] before.tasks@[y]).earlier_start is Some
                        implies self.tasks@[y].earlier_start is Some && rank[y] == old_rank[y] by {}
                    assert forall|y: int| 0 <= y < n && before.tasks@[y].earlier_start is None
                        && (#[trigger] self.tasks@[y]).earlier_start is Some implies rank[y] >= old_len by {}
                    assert forall|x: int| 0 <= x < n && (#[trigger] self.tasks@[x]).earlier_start is None
                        implies self.waits_early(x, rank, h) by {
                        assert(before.tasks@[x].earlier_start is None);
                        Scheduler::lemma_waits_early_kept(&before, self, old_rank, rank, x, h, old_len);
                    }
                    assert forall|p: int| 0 <= p <= k implies ({
                        let x = #[trigger] self.dependants_of(t as int)[p] as int;
                        self.tasks@[x].earlier_start is None ==> self.waits_early(x, rank, h + 1)
                    }) by {
                        let x = self.dependants_of(t as int)[p] as int;
                        if self.tasks@[x].earlier_start is None {
                            if p < k {
                                assert(before.dependants_of(t as int)[p] as int == x);
                                assert(before.tasks@[x].earlier_start is None);
                                Scheduler::lemma_waits_early_kept(&before, self, old_rank, rank, x, h + 1, old_len);
                            } else {
                                assert(x == d);
                                let w = choose|w: int| 0 <= w < before.deps_of(d as int).len()
                                    && self.tasks@[#[trigger] before.deps_of(d as int)[w] as int].earlier_start is None;
                                assert(self.deps_of(x)[w] == before.deps_of(d as int)[w]);
                            }
                        }
                    }
                }
                k = k + 1;
            }
            proof {
                self.lemma_forward_facts(g, order@, rank);
                assert forall|x: int| 0 <= x < n && (#[trigger] self.tasks@[x]).earlier_start is None
                    implies self.waits_early(x, rank, h + 1) by {
                    let w = choose|w: int| 0 <= w < self.deps_of(x).len() && ({
                        let j = #[trigger] self.deps_of(x)[w] as int;
                        self.tasks@[j].earlier_start is None || rank[j] >= h
                    });
                    let j = self.deps_of(x)[w] as int;
                    if self.tasks@[j].earlier_start is Some && rank[j] == h {
                        assert(order@[rank[j]] == j);
                        assert(j == t);
                        assert(self.dependants_of(t as int).contains(x as usize));
                        let p = choose|p: int| 0 <= p < self.dependants_of(t as int).len()
                            && self.dependants_of(t as int)[p] == x as usize;
                        assert(self.dependants_of(t as int)[p] as int == x);
                        assert(self.tasks@[self.dependants_of(t as int)[p] as int].earlier_start is None);
                    }
                }
            }
            head = head + 1;
        }
        (order, Ghost(rank))
    }

    /// Backward pass state: the earliest starts and `end` are those of `fw`,
    /// `order` lists the tasks whose latest start is set, in the order they
    /// were set, and `rank` gives their positions in it.
    #[verifier::opaque]
    spec fn backward_inv(&self, g: Scheduler, fw: Scheduler, order: Seq<usize>, rank: Seq<int>) -> bool {
        &&& Scheduler::same_graph(self, &g)
        &&& Scheduler::same_graph(&fw, &g)
        &&& g.well_linked()
        &&& self.well_linked()
        &&& self.end == fw.end
        &&& fw.end is Some
        &&& fw.end->0 >= fw.finish_upto(fw.count())
        &&& forall|x: int| 0 <= x < self.count() ==> {
            &&& (#[trigger] self.tasks@[x]).earlier_start == fw.tasks@[x].earlier_start
            &&& fw.tasks@[x].earlier_start is Some
            &&& fw.start(x) == fw.latest_finish(fw.deps_of(x))
        }
        &&& rank.len() == self.count()
        &&& forall|p: int| 0 <= p < order.len() ==> {
            &&& (#[trigger] order[p]) < self.count()
            &&& self.tasks@[order[p] as int].latest_start is Some
            &&& rank[order[p] as int] == p
        }
        &&& forall|x: int| 0 <= x < self.count() && (#[trigger] self.tasks@[x]).latest_start is Some ==> {
            &&& 0 <= rank[x] < order.len()
            &&& order[rank[x]] == x
            &&& self.late(x) == self.expected_late(x)
            &&& self.start(x) <= self.late(x)
            &&& self.late(x) + self.dur(x) <= self.end->0
            &&& forall|k: int| 0 <= k < self.dependants_of(x).len()
                ==> self.tasks@[#[trigger] self.dependants_of(x)[k] as int].latest_start is Some
        }
    }

    proof fn lemma_backward_facts(&self, g: Scheduler, fw: Scheduler, order: Seq<usize>, rank: Seq<int>)
        requires
            self.backward_inv(g, fw, order, rank),
        ensures
            Scheduler::same_graph(self, &g),
            Scheduler::same_graph(&fw, &g),
            g.well_linked(),
            self.well_linked(),
            self.end == fw.end,
            fw.end is Some,
            fw.end->0 >= fw.finish_upto(fw.count()),
            rank.len() == self.count(),
            forall|x: int| 0 <= x < self.count() ==> {
                &&& (#[trigger] self.tasks@[x]).earlier_start == fw.tasks@[x].earlier_start
                &&& fw.tasks@[x].earlier_start is Some
                &&& fw.start(x) == fw.latest_finish(fw.deps_of(x))
            },
            forall|p: int| 0 <= p < order.len() ==> {
                &&& (#[trigger] order[p]) < self.count()
                &&& self.tasks@[order[p] as int].latest_start is Some
                &&& rank[order[p] as int] == p
            },
            forall|x: int| 0 <= x < self.count() && (#[trigger] self.tasks@[x]).latest_start is Some ==> {
                &&& 0 <= rank[x] < order.len()
                &&& order[rank[x]] == x
                &&& self.late(x) == self.expected_late(x)
                &&& self.start(x) <= self.late(x)
                &&& self.late(x) + self.dur(x) <= self.end->0
            },
    {
        reveal(Scheduler::backward_inv);
    }

    /// Task `x` is waited on by a task without a latest start, or by one that
    /// the backward pass has not processed before `head`.
    spec fn waits_late(&self, x: int, rank: Seq<int>, head: int) -> bool {
        exists|k: int| 0 <= k < self.dependants_of(x).len() && ({
            let j = #[trigger] self.dependants_of(x)[k] as int;
            self.tasks@[j].latest_start is None || rank[j] >= head
        })
    }

    spec fn backward_blocked(&self, rank: Seq<int>, head: int) -> bool {
        forall|x: int| 0 <= x < self.count() && (#[trigger] self.tasks@[x]).latest_start is None
            ==> self.waits_late(x, rank, head)
    }

    proof fn lemma_waits_late_kept(a: &Scheduler, b: &Scheduler, rank: Seq<int>, new_rank: Seq<int>, x: int, head: int, len: int)
        requires
            a.waits_late(x, rank, head),
            a.count() == b.count(),
            0 <= x < a.count(),
            b.dependants_of(x) == a.dependants_of(x),
            head <= len,
            forall|q: int| 0 <= q < a.dependants_of(x).len() ==> (#[trigger] a.dependants_of(x)[q]) < a.count(),
            forall|y: int| 0 <= y < a.count() && (#[trigger] a.tasks@[y]).latest_start is Some
                ==> b.tasks@[y].latest_start is Some && new_rank[y] == rank[y],
            forall|y: int| 0 <= y < a.count() && a.tasks@[y].latest_start is None
                && (#[trigger] b.tasks@[y]).latest_start is Some ==> new_rank[y] >= len,
        ensures
            b.waits_late(x, new_rank, head),
    {
        let k = choose|k: int| 0 <= k < a.dependants_of(x).len() && ({
            let j = #[trigger] a.dependants_of(x)[k] as int;
            a.tasks@[j].latest_start is None || rank[j] >= head
        });
        let j = a.dependants_of(x)[k] as int;
        assert(b.dependants_of(x)[k] as int == j);
        if a.tasks@[j].latest_start is Some {
            assert(b.tasks@[j].latest_start is Some);
        } else if b.tasks@[j].latest_start is Some {
            assert(new_rank[j] >= len);
        }
    }

    /// Sets the latest start of task `d` once every task that waits on it has
    /// one, and queues `d` so that the tasks it waits on are visited in turn.
    #[verifier::rlimit(40)]
    fn visit_last(&mut self, d: usize, order: &mut Vec<usize>, g: Ghost<Scheduler>, fw: Ghost<Scheduler>, rank: Ghost<Seq<int>>) -> (new_rank: Ghost<Seq<int>>)
        requires
            old(self).backward_inv(g@, fw@, old(order)@, rank@),
            d < old(self).count(),
        ensures
            final(self).backward_inv(g@, fw@, final(order)@, new_rank@),
            final(self).count() == old(self).count(),
            final(order)@.len() >= old(order)@.len(),
            forall|p: int| 0 <= p < old(order)@.len() ==> #[trigger] final(order)@[p] == old(order)@[p],
            final(order)@.len() + unset_weight(final(self).late_seq(), ones(old(self).count()))
                == old(order)@.len() + unset_weight(old(self).late_seq(), ones(old(self).count())),
            forall|x: int| 0 <= x < old(self).count() && (#[trigger] old(self).tasks@[x]).latest_start is Some
                ==> final(self).tasks@[x].latest_start == old(self).tasks@[x].latest_start && new_rank@[x] == rank@[x],
            forall|x: int| 0 <= x < old(self).count() && x != d
                ==> (#[trigger] final(self).tasks@[x]).latest_start == old(self).tasks@[x].latest_start,
            final(self).tasks@[d as int].latest_start is Some && old(self).tasks@[d as int].latest_start is None
                ==> new_rank@[d as int] == old(order)@.len(),
            final(self).tasks@[d as int].latest_start is None ==> exists|k: int|
                0 <= k < old(self).dependants_of(d as int).len()
                && final(self).tasks@[#[trigger] old(self).dependants_of(d as int)[k] as int].latest_start is None,
    {
        if self.tasks[d].latest_start.is_some() {
            return rank;
        }
        let ghost n = self.count();
        let ghost s0 = *self;
        proof {
            self.lemma_backward_facts(g@, fw@, order@, rank@);
            lemma_unset_weight_range(self.late_seq(), ones(n));
            fw@.lemma_finish_upto_ge(n, d as int);
            assert(self.tasks@[d as int] == self.tasks@[d as int]);
            assert(fw@.tasks@[d as int] == fw@.tasks@[d as int]);
            assert(g@.tasks@[d as int] == g@.tasks@[d as int]);
        }
        let end = match self.end {
            Some(e) => e,
            None => {
                return rank;
            },
        };
        let st = match self.tasks[d].earlier_start {
            Some(v) => v,
            None => {
                return rank;
            },
        };
        let dur = self.tasks[d].duration as u64;
        let m = self.tasks[d].dependants.len();
        let mut v: u64 = 0;
        if m == 0 {
            assert(fw@.tasks@[d as int].duration == self.tasks@[d as int].duration);
            assert(end as int >= dur as int);
            v = end - dur;
        } else {
            let mut cur: u64 = 0;
            let mut k: usize = 0;
            while k < m
                invariant
                    *self == s0,
                    *old(self) == s0,
                    order@ == old(order)@,
                    s0.backward_inv(g@, fw@, order@, rank@),
                    n == self.count(),
                    d < n,
                    self.tasks@[d as int].latest_start is None,
                    st as int == self.start(d as int),
                    dur as int == self.dur(d as int),
                    end as int == self.end->0,
                    k <= m,
                    m == self.dependants_of(d as int).len(),
                    m > 0,
                    forall|q: int| 0 <= q < k ==> self.tasks@[#[trigger] self.dependants_of(d as int)[q] as int].latest_start is Some,
                    k > 0 ==> cur == self.earliest_late(self.dependants_of(d as int).take(k as int)),
                    k > 0 ==> st + dur <= cur <= end,
                decreases m - k,
            {
                proof {
                    self.lemma_backward_facts(g@, fw@, order@, rank@);
                }
                let y = self.tasks[d].dependants[k];
                assert(self.dependants_of(d as int)[k as int] == y);
                match self.tasks[y].latest_start {
                    None => {
                        return rank;
                    },
                    Some(ly) => {
                        proof {
                            assert(self.deps_of(y as int).contains(d));
                            let w = choose|w: int| 0 <= w < self.deps_of(y as int).len() && self.deps_of(y as int)[w] == d;
                            assert(self.tasks@[y as int] == self.tasks@[y as int]);
                            assert(fw@.tasks@[y as int] == fw@.tasks@[y as int]);
                            assert(g@.tasks@[y as int] == g@.tasks@[y as int]);
                            assert(fw@.deps_of(y as int)[w] == d);
                            fw@.lemma_latest_finish_ge(fw@.deps_of(y as int), w);
                            assert(fw@.finish(d as int) == self.finish(d as int));
                        }
                        if k == 0 || ly < cur {
                            cur = ly;
                        }
                    },
                }
                proof {
                    let ds = self.dependants_of(d as int);
                    assert(ds.take(k + 1).drop_last() =~= ds.take(k as int));
                }
                k = k + 1;
            }
            assert(self.dependants_of(d as int).take(m as int) =~= self.dependants_of(d as int));
            v = cur - dur;
        }
        let ghost old_self = *self;
        let ghost old_order = order@;
        self.tasks[d].latest_start = Some(v);
        order.push(d);
        let ghost new_rank = rank@.update(d as int, old_order.len() as int);
        proof {
            reveal(Scheduler::backward_inv);
            assert(self.tasks@ =~= old_self.tasks@.update(d as int, self.tasks@[d as int]));
            assert(self.late_seq() =~= old_self.late_seq().update(d as int, Some(v)));
            lemma_unset_weight_set(old_self.late_seq(), ones(n), d as int, v);
            assert(Scheduler::same_graph(self, &g@));
            Scheduler::lemma_same_graph_linked(self, &g@);
            assert forall|x: int| 0 <= x < n && (#[trigger] self.tasks@[x]).latest_start is Some implies {
                &&& 0 <= new_rank[x] < order@.len()
                &&& order@[new_rank[x]] == x
                &&& self.late(x) == self.expected_late(x)
                &&& self.start(x) <= self.late(x)
                &&& self.late(x) + self.dur(x) <= self.end->0
                &&& forall|k: int| 0 <= k < self.dependants_of(x).len()
                    ==> self.tasks@[#[trigger] self.dependants_of(x)[k] as int].latest_start is Some
            } by {
                assert forall|q: int| 0 <= q < self.dependants_of(x).len()
                    implies self.late(#[trigger] self.dependants_of(x)[q] as int) == old_self.late(self.dependants_of(x)[q] as int) by {
                    let j = self.dependants_of(x)[q] as int;
                    assert(old_self.tasks@[j].latest_start is Some);
                }
                Scheduler::lemma_earliest_late_frame(self, &old_self, self.dependants_of(x));
            }
            assert forall|p: int| 0 <= p < order@.len() implies {
                &&& (#[trigger] order@[p]) < n
                &&& self.tasks@[order@[p] as int].latest_start is Some
                &&& new_rank[order@[p] as int] == p
            } by {
                if p < old_order.len() {
                    assert(old_order[p] == order@[p]);
                }
            }
        }
        Ghost(new_rank)
    }

    /// Backward pass: sets the latest start of tasks from the leaves inward,
    /// visiting the leaves first and then the tasks that each task whose
    /// latest start is set waits on.
    #[verifier::rlimit(100)]
    #[verifier::spinoff_prover]
    fn run_backward(&mut self, leaves: &Vec<usize>, g: Ghost<Scheduler>, fw: Ghost<Scheduler>) -> (res: (Vec<usize>, Ghost<Seq<int>>))
        requires
            old(self).backward_inv(g@, fw@, Seq::empty(), Seq::new(old(self).count() as nat, |i: int| 0int)),
            forall|x: int| 0 <= x < old(self).count() ==> (#[trigger] old(self).tasks@[x]).latest_start is None,
            forall|p: int| 0 <= p < leaves@.len() ==> (#[trigger] leaves@[p]) < old(self).count()
                && old(self).dependants_of(leaves@[p] as int).len() == 0,
            forall|x: int| 0 <= x < old(self).count() && #[trigger] old(self).dependants_of(x).len() == 0
                ==> leaves@.contains(x as usize),
        ensures
            final(self).backward_inv(g@, fw@, res.0@, res.1@),
            final(self).backward_blocked(res.1@, res.0@.len() as int),
    {
        let ghost g = g@;
        let ghost fw = fw@;
        let ghost n = self.count();
        let nn = self.tasks.len();
        assert(n <= usize::MAX);
        let mut order: Vec<usize> = Vec::new();
        let ghost mut rank: Seq<int> = Seq::new(n as nat, |i: int| 0int);
        proof {
            lemma_unset_weight_range(self.late_seq(), ones(n));
            reveal(Scheduler::backward_inv);
        }
        let ghost c = unset_weight(self.late_seq(), ones(n));
        let mut q: usize = 0;
        while q < leaves.len()
            invariant
                self.backward_inv(g, fw, order@, rank),
                n == self.count(),
                n <= usize::MAX,
                forall|p: int| 0 <= p < leaves@.len() ==> (#[trigger] leaves@[p]) < n
                    && self.dependants_of(leaves@[p] as int).len() == 0,
                forall|x: int| 0 <= x < n && #[trigger] self.dependants_of(x).len() == 0
                    ==> leaves@.contains(x as usize),
                forall|p: int| 0 <= p < q ==> self.tasks@[#[trigger] leaves@[p] as int].latest_start is Some,
                q <= leaves@.len(),
                order@.len() + unset_weight(self.late_seq(), ones(n)) == c,
            decreases leaves@.len() - q,
        {
            let d = leaves[q];
            let ghost before = *self;
            let ghost old_order = order@;
            let ghost old_rank = rank;
            let nr = self.visit_last(d, &mut order, Ghost(g), Ghost(fw), Ghost(rank));
            proof {
                rank = nr@;
                self.lemma_backward_facts(g, fw, order@, rank);
                before.lemma_backward_facts(g, fw, old_order, old_rank);
                assert(before.dependants_of(d as int).len() == 0);
                assert forall|p: int| 0 <= p <= q implies self.tasks@[#[trigger] leaves@[p] as int].latest_start is Some by {
                    if p < q {
                        assert(before.tasks@[leaves@[p] as int].latest_start is Some);
                    }
                }
                assert forall|x: int| 0 <= x < n implies #[trigger] self.dependants_of(x) == before.dependants_of(x) by {
                    assert(self.tasks@[x] == self.tasks@[x]);
                    assert(before.tasks@[x] == before.tasks@[x]);
                    assert(g.tasks@[x] == g.tasks@[x]);
                }
            }
            q = q + 1;
        }
        proof {
            self.lemma_backward_facts(g, fw, order@, rank);
            assert forall|x: int| 0 <= x < n && (#[trigger] self.tasks@[x]).latest_start is None
                implies self.waits_late(x, rank, 0) by {
                if self.dependants_of(x).len() == 0 {
                    assert(leaves@.contains(x as usize));
                    let w = choose|w: int| 0 <= w < leaves@.len() && leaves@[w] == x as usize;
                    assert(self.tasks@[leaves@[w] as int].latest_start is Some);
                    assert(leaves@[w] as int == x);
                }
                assert(self.dependants_of(x).len() > 0);
                let j = self.dependants_of(x)[0] as int;
                assert(self.dependants_of(x)[0] < n);
                if self.tasks@[j].latest_start is Some {
                    assert(rank[j] >= 0);
                }
                assert(self.tasks@[j].latest_start is None || rank[j] >= 0);
            }
            lemma_unset_weight_range(self.late_seq(), ones(n));
        }
        let mut head: usize = 0;
        while head < order.len()
            invariant
                self.backward_inv(g, fw, order@, rank),
                self.backward_blocked(rank, head as int),
                n == self.count(),
                n <= usize::MAX,
                head <= order@.len(),
                order@.len() + unset_weight(self.late_seq(), ones(n)) == c,
                0 <= unset_weight(self.late_seq(), ones(n)),
            decreases c - head,
        {
            proof {
                self.lemma_backward_facts(g, fw, order@, rank);
            }
            let t = order[head];
            let ghost h = head as int;
            let m = self.tasks[t].deps.len();
            let mut k: usize = 0;
            while k < m
                invariant
                    self.backward_inv(g, fw, order@, rank),
                    self.backward_blocked(rank, h),
                    n == self.count(),
                    n <= usize::MAX,
                n <= usize::MAX,
                    0 <= h < order@.len(),
                    order@[h] == t,
                    t < n,
                    m == self.deps_of(t as int).len(),
                    k <= m,
                    forall|p: int| 0 <= p < k ==> ({
                        let x = #[trigger] self.deps_of(t as int)[p] as int;
                        self.tasks@[x].latest_start is None ==> self.waits_late(x, rank, h + 1)
                    }),
                    order@.len() + unset_weight(self.late_seq(), ones(n)) == c,
                    0 <= unset_weight(self.late_seq(), ones(n)),
                decreases m - k,
            {
                proof {
                    self.lemma_backward_facts(g, fw, order@, rank);
                }
                let d = self.tasks[t].deps[k];
                let ghost before = *self;
                let ghost old_len = order@.len() as int;
                let ghost old_order = order@;
                let ghost old_rank = rank;
                assert(d < n);
                let nr = self.visit_last(d, &mut order, Ghost(g), Ghost(fw), Ghost(rank));
                proof {
                    rank = nr@;
                    self.lemma_backward_facts(g, fw, order@, rank);
                    before.lemma_backward_facts(g, fw, old_order, old_rank);
                    assert(order@[h] == old_order[h]);
                    lemma_unset_weight_range(self.late_seq(), ones(n));
                    assert forall|x: int| 0 <= x < n implies #[trigger] self.dependants_of(x) == before.dependants_of(x)
                        && self.deps_of(x) == before.deps_of(x) by {
                        assert(self.tasks@[x] == self.tasks@[x]);
                        assert(before.tasks@[x] == before.tasks@[x]);
                        assert(g.tasks@[x] == g.tasks@[x]);
                    }
                    assert forall|y: int| 0 <= y < n && (#[trigger] before.tasks@[y]).latest_start is Some
                        implies self.tasks@[y].latest_start is Some && rank[y] == old_rank[y] by {}
                    assert forall|y: int| 0 <= y < n && before.tasks@[y].latest_start is None
                        && (#[trigger] self.tasks@[y]).latest_start is Some implies rank[y] >= old_len by {}
                    assert forall|x: int| 0 <= x < n && (#[trigger] self.tasks@[x]).latest_start is None
                        implies self.waits_late(x, rank, h) by {
                        assert(before.tasks@[x].latest_start is None);
                        Scheduler::lemma_waits_late_kept(&before, self, old_rank, rank, x, h, old_len);
                    }
                    assert forall|p: int| 0 <= p <= k implies ({
                        let x = #[trigger] self.deps_of(t as int)[p] as int;
                        self.tasks@[x].latest_start is None ==> self.waits_late(x, rank, h + 1)
                    }) by {
                        let x = self.deps_of(t as int)[p] as int;
                        if self.tasks@[x].latest_start is None {
                            if p < k {
                                assert(before.deps_of(t as int)[p] as int == x);
                                assert(before.tasks@[x].latest_start is None);
                                Scheduler::lemma_waits_late_kept(&before, self, old_rank, rank, x, h + 1, old_len);
                            } else {
                                assert(x == d);
                                let w = choose|w: int| 0 <= w < before.dependants_of(d as int).len()
                                    && self.tasks@[#[trigger] before.dependants_of(d as int)[w] as int].latest_start is None;
                                assert(self.dependants_of(x)[w] == before.dependants_of(d as int)[w]);
                            }
                        }
                    }
                }
                k = k + 1;
            }
            proof {
                self.lemma_backward_facts(g, fw, order@, rank);
                assert forall|x: int| 0 <= x < n && (#[trigger] self.tasks@[x]).latest_start is None
                    implies self.waits_late(x, rank, h + 1) by {
                    let w = choose|w: int| 0 <= w < self.dependants_of(x).len() && ({
                        let j = #[trigger] self.dependants_of(x)[w] as int;
                        self.tasks@[j].latest_start is None || rank[j] >= h
                    });
                    let j = self.dependants_of(x)[w] as int;
                    if self.tasks@[j].latest_start is Some && rank[j] == h {
                        assert(order@[rank[j]] == j);
                        assert(j == t);
                        assert(self.deps_of(t as int).contains(x as usize));
                        let p = choose|p: int| 0 <= p < self.deps_of(t as int).len()
                            && self.deps_of(t as int)[p] == x as usize;
                        assert(self.deps_of(t as int)[p] as int == x);
                        assert(self.tasks@[self.deps_of(t as int)[p] as int].latest_start is None);
                    }
                }
            }
            head = head + 1;
        }
        (order, Ghost(rank))
    }

    /// A task that the forward pass left without an earliest start lies on
    /// a cycle.
    #[verifier::rlimit(60)]
    proof fn lemma_unreached_is_cycle(&self, g: Scheduler, order: Seq<usize>, rank: Seq<int>, i: int)
        requires
            self.forward_inv(g, order, rank),
            self.forward_blocked(rank, order.len() as int),
            0 <= i < self.count(),
            self.tasks@[i].earlier_start is None,
        ensures
            !g.acyclic(),
            g.declares(self.tasks@[i].name@),
    {
        let n = self.count();
        self.lemma_forward_facts(g, order, rank);
        assert forall|r: Seq<int>| !g.is_ranking(r) by {
            if g.is_ranking(r) {
                let st = Set::new(|x: int| 0 <= x < n && self.tasks@[x].earlier_start is None);
                assert forall|x: int| #[trigger] st.contains(x) implies exists|y: int| st.contains(y) && r[y] < r[x] by {
                    assert(self.tasks@[x].earlier_start is None);
                    let w = choose|w: int| 0 <= w < self.deps_of(x).len() && ({
                        let j = #[trigger] self.deps_of(x)[w] as int;
                        self.tasks@[j].earlier_start is None || rank[j] >= order.len()
                    });
                    let j = self.deps_of(x)[w] as int;
                    assert(g.tasks@[x] == g.tasks@[x]);
                    assert(g.deps_of(x)[w] as int == j);
                    assert(st.contains(j));
                }
                lemma_no_descent(st, |x: int| r[x]);
                assert(st.contains(i));
            }
        }
        assert(self.tasks@[i] == self.tasks@[i]);
        assert(g.tasks@[i].name@ == self.tasks@[i].name@);
        assert(g.declares(self.tasks@[i].name@));
        assert(Scheduler::same_graph(self, &g));
    }

    /// Project end after the forward pass: the latest finish over all tasks,
    /// or the first task that the pass could not reach, which lies on a cycle.
    #[verifier::rlimit(100)]
    #[verifier::spinoff_prover]
    fn scan_end(&self, graph: Ghost<Scheduler>, order: &Vec<usize>, rank: Ghost<Seq<int>>) -> (r: Result<u64, ScheduleError>)
        requires
            self.forward_inv(graph@, order@, rank@),
            self.forward_blocked(rank@, order@.len() as int),
            graph@.has_root(),
        ensures
            match r {
                Ok(end) => {
                    &&& end == self.finish_upto(self.count())
                    &&& forall|j: int| 0 <= j < self.count() ==> (#[trigger] self.tasks@[j]).earlier_start is Some
                },
                Err(e) => {
                    &&& e is CircularDependency
                    &&& !graph@.acyclic()
                    &&& graph@.declares(e->CircularDependency_0@)
                    &&& exists|i: int| 0 <= i < self.count() && (#[trigger] self.tasks@[i]).earlier_start is None
                        && self.tasks@[i].name@ == e->CircularDependency_0@
                },
            },
    {
        let ghost g = graph@;
        let ghost n = self.count();
        proof {
            self.lemma_forward_facts(g, order@, rank@);
        }
        let mut end: u64 = 0;
        let mut i: usize = 0;
        let nn = self.tasks.len();
        while i < self.tasks.len()
            invariant
                g == graph@,
                self.forward_inv(g, order@, rank@),
                self.forward_blocked(rank@, order@.len() as int),
                n == self.count(),
                n <= usize::MAX,
                i <= n,
                forall|j: int| 0 <= j < i ==> (#[trigger] self.tasks@[j]).earlier_start is Some,
                end == self.finish_upto(i as int),
                g.has_root(),
            decreases n - i,
        {
            proof {
                self.lemma_forward_facts(g, order@, rank@);
            }
            match self.tasks[i].earlier_start {
                None => {
                    proof {
                        self.lemma_unreached_is_cycle(g, order@, rank@, i as int);
                    }
                    let e = ScheduleError::CircularDependency(self.tasks[i].name.clone());
                    assert(self.tasks@[i as int].earlier_start is None && self.tasks@[i as int].name@ == e->CircularDependency_0@);
                    return Err(e);
                },
                Some(st) => {
                    let f = st + self.tasks[i].duration as u64;
                    if f > end {
                        end = f;
                    }
                },
            }
            i = i + 1;
        }
        Ok(end)
    }

    /// Sum of all durations, which `execute` needs to fit in 64 bits.
    pub fn duration_sum(&self) -> (r: u128)
        ensures
            r as int == self.total_duration(),
    {
        let mut sum: u128 = 0;
        let mut i: usize = 0;
        while i < self.tasks.len()
            invariant
                i <= self.count(),
                sum as int == crate::schedule::weight_sum(self.durations(), i as int),
                sum <= i * 65535,
            decreases self.count() - i,
        {
            sum = sum + self.tasks[i].duration as u128;
            i = i + 1;
        }
        sum
    }

    #[verifier::rlimit(60)]
    pub fn execute(&mut self) -> (r: Result<(), ScheduleError>)
        requires
            old(self).well_linked(),
            old(self).unscheduled(),
            old(self).total_duration() <= u64::MAX,
        ensures
            Scheduler::same_graph(final(self), old(self)),
            match r {
                Ok(()) => {
                    &&& old(self).has_root()
                    &&& old(self).has_leaf()
                    &&& old(self).acyclic()
                    &&& final(self).scheduled()
                    &&& forall|i: int| 0 <= i < final(self).count() ==> final(self).start(i) <= final(self).late(i)
                },
                Err(e) => {
                    &&& final(self).end is None
                    &&& {
                        ||| e is NoRootTask && !old(self).has_root()
                        ||| e is CircularDependency && old(self).has_root() && !old(self).acyclic()
                            && exists|i: int| 0 <= i < final(self).count()
                                && (#[trigger] final(self).tasks@[i]).earlier_start is None
                                && final(self).tasks@[i].name@ == e->CircularDependency_0@
                    }
                },
            },
    {
        let ghost g = *self;
        let ghost n = self.count();
        let roots = match self.find_first_tasks() {
            Ok(v) => v,
            Err(e) => {
                return Err(e);
            },
        };
        proof {
            assert(Scheduler::same_graph(self, &g));
            reveal(Scheduler::forward_inv);
            assert(roots@.len() > 0);
        }
        let (order, rank) = self.run_forward(&roots, Ghost(g));
        proof {
            self.lemma_forward_facts(g, order@, rank@);
        }
        let end = match self.scan_end(Ghost(g), &order, rank) {
            Ok(v) => v,
            Err(e) => {
                return Err(e);
            },
        };
        proof {
            self.lemma_forward_facts(g, order@, rank@);
            assert(g.is_ranking(rank@)) by {
                assert forall|x: int, k: int| 0 <= x < n && 0 <= k < g.deps_of(x).len()
                    implies rank@[#[trigger] g.deps_of(x)[k] as int] < rank@[x] by {
                    assert(self.tasks@[x] == self.tasks@[x]);
                    assert(self.deps_of(x)[k] == g.deps_of(x)[k]);
                }
                assert forall|x: int| 0 <= x < n implies #[trigger] rank@[x] >= 0 by {
                    assert(self.tasks@[x].earlier_start is Some);
                }
            }
            assert(self.tasks@[roots@[0] as int].earlier_start is Some);
            let last = order@[order@.len() - 1] as int;
            assert(self.tasks@[last].earlier_start is Some);
            if self.dependants_of(last).len() > 0 {
                let y = self.dependants_of(last)[0] as int;
                assert(self.deps_of(y).contains(last as usize));
                let w = choose|w: int| 0 <= w < self.deps_of(y).len() && self.deps_of(y)[w] == last as usize;
                assert(self.tasks@[y].earlier_start is Some);
                assert(rank@[self.deps_of(y)[w] as int] < rank@[y]);
            }
            assert(self.tasks@[last] == self.tasks@[last]);
            assert(g.tasks@[last] == g.tasks@[last]);
            assert(g.dependants_of(last).len() == 0);
            assert(g.has_leaf());
        }
        let leaves = match self.find_last_tasks() {
            Ok(v) => v,
            Err(e) => {
                proof {
                    assert forall|x: int| 0 <= x < n implies #[trigger] self.dependants_of(x) == g.dependants_of(x) by {
                        assert(self.tasks@[x] == self.tasks@[x]);
                        assert(g.tasks@[x] == g.tasks@[x]);
                    }
                    assert(self.has_leaf()) by {
                        let x = choose|x: int| 0 <= x < n && #[trigger] g.dependants_of(x).len() == 0;
                        assert(self.dependants_of(x).len() == 0);
                    }
                }
                return Err(e);
            },
        };
        let ghost pre = *self;
        self.end = Some(end);
        let ghost fw = *self;
        proof {
            assert(fw.tasks@ == pre.tasks@);
            assert forall|x: int| 0 <= x < n implies #[trigger] fw.finish(x) == pre.finish(x) by {}
            Scheduler::lemma_finish_upto_frame(&fw, &pre, n);
            assert(Scheduler::same_graph(self, &g));
            Scheduler::lemma_same_graph_linked(self, &g);
            assert forall|x: int| 0 <= x < n implies {
                &&& (#[trigger] self.tasks@[x]).earlier_start == fw.tasks@[x].earlier_start
                &&& fw.tasks@[x].earlier_start is Some
                &&& fw.start(x) == fw.latest_finish(fw.deps_of(x))
            } by {
                assert(pre.tasks@[x].earlier_start is Some);
                assert forall|q: int| 0 <= q < fw.deps_of(x).len()
                    implies fw.finish(#[trigger] fw.deps_of(x)[q] as int) == pre.finish(fw.deps_of(x)[q] as int) by {}
                Scheduler::lemma_latest_finish_frame(&fw, &pre, fw.deps_of(x));
            }
            reveal(Scheduler::backward_inv);
            assert forall|x: int| 0 <= x < n && #[trigger] self.dependants_of(x).len() == 0
                implies leaves@.contains(x as usize) by {
                assert(pre.dependants_of(x) == self.dependants_of(x));
            }
        }
        let (order2, rank2) = self.run_backward(&leaves, Ghost(g), Ghost(fw));
        proof {
            self.lemma_backward_facts(g, fw, order2@, rank2@);
            let big = order@.len() as int;
            let st = Set::new(|x: int| 0 <= x < n && self.tasks@[x].latest_start is None);
            assert forall|x: int| st.contains(x) implies #[trigger] (big - rank@[x]) >= 0 by {
                assert(pre.tasks@[x].earlier_start is Some);
            }
            assert forall|x: int| #[trigger] st.contains(x)
                implies exists|y: int| st.contains(y) && big - rank@[y] < big - rank@[x] by {
                assert(self.tasks@[x].latest_start is None);
                let w = choose|w: int| 0 <= w < self.dependants_of(x).len() && ({
                    let j = #[trigger] self.dependants_of(x)[w] as int;
                    self.tasks@[j].latest_start is None || rank2@[j] >= order2@.len()
                });
                let y = self.dependants_of(x)[w] as int;
                assert(st.contains(y));
                assert(self.deps_of(y).contains(x as usize));
                let v = choose|v: int| 0 <= v < self.deps_of(y).len() && self.deps_of(y)[v] == x as usize;
                assert(self.tasks@[y] == self.tasks@[y]);
                assert(g.tasks@[y] == g.tasks@[y]);
                assert(g.deps_of(y)[v] as int == x);
                assert(rank@[g.deps_of(y)[v] as int] < rank@[y]);
            }
            lemma_no_descent(st, |x: int| big - rank@[x]);
            assert forall|x: int| 0 <= x < n implies #[trigger] self.finish(x) == fw.finish(x) by {}
            Scheduler::lemma_finish_upto_frame(self, &fw, n);
            assert forall|i: int| 0 <= i < n implies {
                &&& (#[trigger] self.tasks@[i]).earlier_start is Some
                &&& self.tasks@[i].latest_start is Some
                &&& self.start(i) == self.latest_finish(self.deps_of(i))
                &&& self.late(i) == self.expected_late(i)
            } by {
                assert(!st.contains(i));
                assert(self.tasks@[i] == self.tasks@[i]);
                assert(fw.tasks@[i] == fw.tasks@[i]);
                assert(g.tasks@[i] == g.tasks@[i]);
                assert forall|q: int| 0 <= q < self.deps_of(i).len()
                    implies self.finish(#[trigger] self.deps_of(i)[q] as int) == fw.finish(self.deps_of(i)[q] as int) by {}
                Scheduler::lemma_latest_finish_frame(self, &fw, self.deps_of(i));
            }
            assert(Scheduler::same_graph(self, &g));
        }
        Ok(())
    }
}

} // verus!
