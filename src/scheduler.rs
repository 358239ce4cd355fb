use vstd::prelude::*;
use crate::error::ScheduleError;
use crate::task::Task;

verus! {

/// How many times `x` occurs in `s`.
pub open spec fn occurrences(s: Seq<usize>, x: usize) -> nat
    decreases s.len(),
{
    if s.len() == 0 {
        0
    } else {
        occurrences(s.drop_last(), x) + if s.last() == x {
            1nat
        } else {
            0nat
        }
    }
}

/// A task graph together with the schedule computed over it.
///
/// A graph is built with `new` and `try_add`, linked by `finalize`, and then
/// scheduled by `execute`, which only fills in start times and `end`.
#[derive(Debug)]
pub struct Scheduler {
    pub tasks: Vec<Task>,
    /// Total project duration, set once the forward pass has reached every task.
    pub end: Option<u64>,
}

impl Scheduler {
    pub open spec fn count(&self) -> int {
        self.tasks@.len() as int
    }

    pub open spec fn dur(&self, i: int) -> int {
        self.tasks@[i].duration as int
    }

    pub open spec fn deps_of(&self, i: int) -> Seq<usize> {
        self.tasks@[i].deps@
    }

    pub open spec fn dependants_of(&self, i: int) -> Seq<usize> {
        self.tasks@[i].dependants@
    }

    /// Some task carries the identifier `name`.
    pub open spec fn declares(&self, name: Seq<char>) -> bool {
        exists|j: int| 0 <= j < self.count() && #[trigger] self.tasks@[j].name@ == name
    }

    /// No identifier is carried by two tasks.
    pub open spec fn names_unique(&self) -> bool {
        forall|i: int, j: int|
            0 <= i < self.count() && 0 <= j < self.count() && i != j
                ==> #[trigger] self.tasks@[i].name@ != #[trigger] self.tasks@[j].name@
    }

    /// Every identifier that a task waits on is declared by some task.
    pub open spec fn all_resolvable(&self) -> bool {
        forall|i: int, k: int|
            0 <= i < self.count() && 0 <= k < self.tasks@[i].dep_names@.len()
                ==> self.declares(#[trigger] self.tasks@[i].dep_names@[k]@)
    }

    /// No task has been linked or scheduled yet.
    pub open spec fn unlinked(&self) -> bool {
        &&& self.end is None
        &&& forall|i: int| 0 <= i < self.count() ==> {
            &&& (#[trigger] self.tasks@[i]).deps@.len() == 0
            &&& self.tasks@[i].dependants@.len() == 0
            &&& self.tasks@[i].earlier_start is None
            &&& self.tasks@[i].latest_start is None
        }
    }

    /// Every task is linked, but no start time or end is set yet.
    pub open spec fn unscheduled(&self) -> bool {
        &&& self.end is None
        &&& forall|i: int| 0 <= i < self.count() ==> {
            &&& (#[trigger] self.tasks@[i]).earlier_start is None
            &&& self.tasks@[i].latest_start is None
        }
    }

    /// `deps` resolves `dep_names` to positions, and `dependants` is the
    /// inverse relation: `j` waits on `i` exactly when `j` is a dependant of `i`.
    pub open spec fn well_linked(&self) -> bool {
        &&& self.names_unique()
        &&& forall|i: int| 0 <= i < self.count() ==>
            (#[trigger] self.tasks@[i]).deps@.len() == self.tasks@[i].dep_names@.len()
        &&& forall|i: int, k: int| 0 <= i < self.count() && 0 <= k < self.deps_of(i).len() ==> {
            &&& (#[trigger] self.deps_of(i)[k]) < self.count()
            &&& self.tasks@[self.deps_of(i)[k] as int].name@ == self.tasks@[i].dep_names@[k]@
            &&& self.dependants_of(self.deps_of(i)[k] as int).contains(i as usize)
        }
        &&& forall|j: int, k: int| 0 <= j < self.count() && 0 <= k < self.dependants_of(j).len() ==> {
            &&& (#[trigger] self.dependants_of(j)[k]) < self.count()
            &&& self.deps_of(self.dependants_of(j)[k] as int).contains(j as usize)
        }
    }

    /// Every time task `i` lists `j` among the tasks it waits on, `j` lists
    /// `i` once among its dependants.
    pub open spec fn links_counted(&self) -> bool {
        forall|i: int, j: int| 0 <= i < self.count() && 0 <= j < self.count()
            ==> #[trigger] occurrences(self.deps_of(i), j as usize) == occurrences(self.dependants_of(j), i as usize)
    }

    /// `a` and `b` hold the same tasks, with the same identifiers, durations
    /// and dependency lists.
    pub open spec fn same_records(a: &Scheduler, b: &Scheduler) -> bool {
        &&& a.count() == b.count()
        &&& forall|i: int| 0 <= i < a.count() ==> {
            &&& (#[trigger] a.tasks@[i]).name@ == b.tasks@[i].name@
            &&& a.tasks@[i].duration == b.tasks@[i].duration
            &&& a.tasks@[i].dep_names@.len() == b.tasks@[i].dep_names@.len()
            &&& forall|k: int| 0 <= k < a.tasks@[i].dep_names@.len()
                ==> #[trigger] a.tasks@[i].dep_names@[k]@ == b.tasks@[i].dep_names@[k]@
        }
    }

    /// `a` and `b` hold the same records, linked in the same way.
    pub open spec fn same_graph(a: &Scheduler, b: &Scheduler) -> bool {
        &&& Self::same_records(a, b)
        &&& forall|i: int| 0 <= i < a.count() ==> {
            &&& (#[trigger] a.tasks@[i]).deps@ == b.tasks@[i].deps@
            &&& a.tasks@[i].dependants@ == b.tasks@[i].dependants@
        }
    }

    pub proof fn lemma_same_graph_linked(a: &Scheduler, b: &Scheduler)
        requires
            Self::same_graph(a, b),
            b.well_linked(),
        ensures
            a.well_linked(),
    {
        assert forall|i: int, j: int|
            0 <= i < a.count() && 0 <= j < a.count() && i != j
                implies #[trigger] a.tasks@[i].name@ != #[trigger] a.tasks@[j].name@ by {
            assert(b.tasks@[i].name@ != b.tasks@[j].name@);
        }
        assert forall|i: int, k: int| 0 <= i < a.count() && 0 <= k < a.deps_of(i).len() implies {
            &&& (#[trigger] a.deps_of(i)[k]) < a.count()
            &&& a.tasks@[a.deps_of(i)[k] as int].name@ == a.tasks@[i].dep_names@[k]@
            &&& a.dependants_of(a.deps_of(i)[k] as int).contains(i as usize)
        } by {
            assert(a.tasks@[i] == a.tasks@[i]);
            assert(b.deps_of(i)[k] == a.deps_of(i)[k]);
            let t = a.deps_of(i)[k] as int;
            assert(a.tasks@[t] == a.tasks@[t]);
            assert(b.tasks@[i].dep_names@[k]@ == a.tasks@[i].dep_names@[k]@);
        }
        assert forall|j: int, k: int| 0 <= j < a.count() && 0 <= k < a.dependants_of(j).len() implies {
            &&& (#[trigger] a.dependants_of(j)[k]) < a.count()
            &&& a.deps_of(a.dependants_of(j)[k] as int).contains(j as usize)
        } by {
            assert(a.tasks@[j] == a.tasks@[j]);
            assert(b.dependants_of(j)[k] == a.dependants_of(j)[k]);
            let t = a.dependants_of(j)[k] as int;
            assert(a.tasks@[t] == a.tasks@[t]);
        }
        assert forall|i: int| 0 <= i < a.count() implies
            (#[trigger] a.tasks@[i]).deps@.len() == a.tasks@[i].dep_names@.len() by {
            assert(b.tasks@[i] == b.tasks@[i]);
        }
    }

    /// An empty graph.
    pub fn new() -> (r: Scheduler)
        ensures
            r.count() == 0,
            r.end is None,
    {
        Scheduler { tasks: Vec::new(), end: None }
    }

    /// Position of the task called `name`, if there is one.
    pub fn position_of(&self, name: &String) -> (r: Option<usize>)
        ensures
            match r {
                Some(i) => i < self.count() && self.tasks@[i as int].name@ == name@,
                None => !self.declares(name@),
            },
    {
        let mut i: usize = 0;
        while i < self.tasks.len()
            invariant
                i <= self.count(),
                forall|j: int| 0 <= j < i ==> self.tasks@[j].name@ != name@,
            decreases self.count() - i,
        {
            if self.tasks[i].name == *name {
                return Some(i);
            }
            i = i + 1;
        }
        None
    }

    /// Adds a task, refusing an identifier that is already declared.
    pub fn try_add(self, name: &str, duration: u16, deps: &[&str]) -> (r: Result<
        Scheduler,
        ScheduleError,
    >)
        ensures
            match r {
                Ok(s) => {
                    &&& !self.declares(name@)
                    &&& s.count() == self.count() + 1
                    &&& s.end == self.end
                    &&& forall|i: int| 0 <= i < self.count() ==> s.tasks@[i] == self.tasks@[i]
                    &&& s.tasks@[self.count()].name@ == name@
                    &&& s.tasks@[self.count()].duration == duration
                    &&& s.tasks@[self.count()].dep_names@.len() == deps@.len()
                    &&& forall|k: int| 0 <= k < deps@.len()
                        ==> #[trigger] s.tasks@[self.count()].dep_names@[k]@ == deps@[k]@
                    &&& s.tasks@[self.count()].deps@.len() == 0
                    &&& s.tasks@[self.count()].dependants@.len() == 0
                    &&& s.tasks@[self.count()].earlier_start is None
                    &&& s.tasks@[self.count()].latest_start is None
                },
                Err(e) => self.declares(name@) && e is DuplicateTask && e->DuplicateTask_0@ == name@,
            },
    {
        let key = name.to_owned();
        if self.position_of(&key).is_some() {
            return Err(ScheduleError::DuplicateTask(key));
        }
        let mut s = self;
        s.tasks.push(Task::new(name, duration, deps));
        Ok(s)
    }

    /// Resolves every dependency identifier to a position and records, on each
    /// task, the tasks that wait on it.
    #[verifier::rlimit(100)]
    #[verifier::spinoff_prover]
    pub fn finalize(self) -> (r: Result<Scheduler, ScheduleError>)
        requires
            self.names_unique(),
            self.unlinked(),
        ensures
            match r {
                Ok(s) => {
                    &&& self.all_resolvable()
                    &&& s.well_linked()
                    &&& s.links_counted()
                    &&& Self::same_records(&s, &self)
                    &&& s.end is None
                    &&& forall|i: int| 0 <= i < s.count() ==> (#[trigger] s.tasks@[i]).earlier_start is None
                        && s.tasks@[i].latest_start is None
                },
                Err(e) => {
                    &&& !self.all_resolvable()
                    &&& e is MissingDependency
                    &&& !self.declares(e->MissingDependency_0@)
                    &&& exists|i: int, k: int| 0 <= i < self.count() && 0 <= k < self.tasks@[i].dep_names@.len()
                        && #[trigger] self.tasks@[i].dep_names@[k]@ == e->MissingDependency_0@
                },
            },
    {
        let ghost orig = self;
        let mut s = self;
        let n = s.tasks.len();
        let mut i: usize = 0;
        while i < n
            invariant
                n == s.count(),
                i <= n,
                orig == self,
                Self::same_records(&s, &orig),
                s.names_unique(),
                s.end is None,
                forall|j: int| 0 <= j < n ==> {
                    &&& (#[trigger] s.tasks@[j]).dependants@.len() == 0
                    &&& s.tasks@[j].earlier_start is None
                    &&& s.tasks@[j].latest_start is None
                },
                forall|j: int| i <= j < n ==> (#[trigger] s.tasks@[j]).deps@.len() == 0,
                forall|j: int| 0 <= j < i ==> (#[trigger] s.tasks@[j]).deps@.len() == s.tasks@[j].dep_names@.len(),
                forall|j: int, k: int| 0 <= j < i && 0 <= k < s.deps_of(j).len() ==> {
                    &&& (#[trigger] s.deps_of(j)[k]) < n
                    &&& s.tasks@[s.deps_of(j)[k] as int].name@ == s.tasks@[j].dep_names@[k]@
                },
                forall|j: int, k: int| 0 <= j < i && 0 <= k < orig.tasks@[j].dep_names@.len()
                    ==> orig.declares(#[trigger] orig.tasks@[j].dep_names@[k]@),
            decreases n - i,
        {
            let mut ids: Vec<usize> = Vec::new();
            let m = s.tasks[i].dep_names.len();
            let mut k: usize = 0;
            while k < m
                invariant
                    n == s.count(),
                    i < n,
                    orig == self,
                    Self::same_records(&s, &orig),
                    m == s.tasks@[i as int].dep_names@.len(),
                    k <= m,
                    ids@.len() == k,
                    forall|q: int| 0 <= q < k ==> {
                        &&& (#[trigger] ids@[q]) < n
                        &&& s.tasks@[ids@[q] as int].name@ == s.tasks@[i as int].dep_names@[q]@
                    },
                    forall|q: int| 0 <= q < k ==> orig.declares(#[trigger] orig.tasks@[i as int].dep_names@[q]@),
                decreases m - k,
            {
                match s.position_of(&s.tasks[i].dep_names[k]) {
                    Some(p) => {
                        ids.push(p);
                    },
                    None => {
                        proof {
                            assert(orig.tasks@[i as int].dep_names@[k as int]@ == s.tasks@[i as int].dep_names@[k as int]@);
                            assert forall|j: int| 0 <= j < orig.count() implies orig.tasks@[j].name@ != s.tasks@[i as int].dep_names@[k as int]@ by {
                                assert(s.tasks@[j].name@ == orig.tasks@[j].name@);
                            }
                            assert(!orig.declares(orig.tasks@[i as int].dep_names@[k as int]@));
                        }
                        let missing = s.tasks[i].dep_names[k].clone();
                        let e = ScheduleError::MissingDependency(missing);
                        assert(e->MissingDependency_0@ == orig.tasks@[i as int].dep_names@[k as int]@);
                        assert(!orig.declares(e->MissingDependency_0@));
                        assert(!orig.all_resolvable());
                        assert(exists|a: int, b: int| 0 <= a < orig.count() && 0 <= b < orig.tasks@[a].dep_names@.len()
                            && #[trigger] orig.tasks@[a].dep_names@[b]@ == e->MissingDependency_0@);
                        return Err(e);
                    },
                }
                proof {
                    let p = ids@[k as int];
                    assert(orig.tasks@[p as int].name@ == s.tasks@[p as int].name@);
                    assert(orig.tasks@[i as int].dep_names@[k as int]@ == s.tasks@[i as int].dep_names@[k as int]@);
                }
                k = k + 1;
            }
            let ghost before = s;
            s.tasks[i].deps = ids;
            proof {
                assert(forall|t: int| 0 <= t < n && t != i ==> s.tasks@[t] == before.tasks@[t]);
                assert forall|j: int, k: int| 0 <= j <= i && 0 <= k < s.deps_of(j).len() implies {
                    &&& (#[trigger] s.deps_of(j)[k]) < n
                    &&& s.tasks@[s.deps_of(j)[k] as int].name@ == s.tasks@[j].dep_names@[k]@
                } by {
                    if j < i {
                        assert(s.deps_of(j) == before.deps_of(j));
                    } else {
                        assert(s.deps_of(j)[k] == ids@[k]);
                    }
                    let t = s.deps_of(j)[k] as int;
                    assert(s.tasks@[t].name@ == before.tasks@[t].name@);
                }
            }
            i = i + 1;
        }
        let nn = s.tasks.len();
        assert forall|x: int, j: int| 0 <= x < n && 0 <= j < n
            implies #[trigger] occurrences(s.dependants_of(j), x as usize) == 0 by {
            assert(s.tasks@[j].dependants@.len() == 0);
        }
        let mut i: usize = 0;
        while i < n
            invariant
                n == s.count(),
                i <= n,
                Self::same_records(&s, &orig),
                s.names_unique(),
                s.end is None,
                forall|j: int| 0 <= j < n ==> {
                    &&& (#[trigger] s.tasks@[j]).earlier_start is None
                    &&& s.tasks@[j].latest_start is None
                    &&& s.tasks@[j].deps@.len() == s.tasks@[j].dep_names@.len()
                },
                forall|j: int, k: int| 0 <= j < n && 0 <= k < s.deps_of(j).len() ==> {
                    &&& (#[trigger] s.deps_of(j)[k]) < n
                    &&& s.tasks@[s.deps_of(j)[k] as int].name@ == s.tasks@[j].dep_names@[k]@
                },
                forall|j: int, k: int| 0 <= j < i && 0 <= k < s.deps_of(j).len()
                    ==> s.dependants_of(#[trigger] s.deps_of(j)[k] as int).contains(j as usize),
                forall|j: int, k: int| 0 <= j < n && 0 <= k < s.dependants_of(j).len() ==> {
                    &&& (#[trigger] s.dependants_of(j)[k]) < i
                    &&& s.deps_of(s.dependants_of(j)[k] as int).contains(j as usize)
                },
                forall|x: int, j: int| 0 <= x < n && 0 <= j < n
                    ==> #[trigger] occurrences(s.dependants_of(j), x as usize)
                        == if x < i { occurrences(s.deps_of(x), j as usize) } else { 0 },
                n <= usize::MAX,
            decreases n - i,
        {
            let m = s.tasks[i].deps.len();
            let mut k: usize = 0;
            while k < m
                invariant
                    n == s.count(),
                    i < n,
                    k <= m,
                    m == s.deps_of(i as int).len(),
                    Self::same_records(&s, &orig),
                    s.names_unique(),
                    s.end is None,
                    forall|j: int| 0 <= j < n ==> {
                        &&& (#[trigger] s.tasks@[j]).earlier_start is None
                        &&& s.tasks@[j].latest_start is None
                        &&& s.tasks@[j].deps@.len() == s.tasks@[j].dep_names@.len()
                    },
                    forall|j: int, q: int| 0 <= j < n && 0 <= q < s.deps_of(j).len() ==> {
                        &&& (#[trigger] s.deps_of(j)[q]) < n
                        &&& s.tasks@[s.deps_of(j)[q] as int].name@ == s.tasks@[j].dep_names@[q]@
                    },
                    forall|j: int, q: int| 0 <= j < i && 0 <= q < s.deps_of(j).len()
                        ==> s.dependants_of(#[trigger] s.deps_of(j)[q] as int).contains(j as usize),
                    forall|x: int, j: int| 0 <= x < n && 0 <= j < n
                        ==> #[trigger] occurrences(s.dependants_of(j), x as usize) == if x < i {
                            occurrences(s.deps_of(x), j as usize)
                        } else if x == i {
                            occurrences(s.deps_of(i as int).take(k as int), j as usize)
                        } else {
                            0
                        },
                    n <= usize::MAX,
                    forall|q: int| 0 <= q < k
                        ==> s.dependants_of(#[trigger] s.deps_of(i as int)[q] as int).contains(i),
                    forall|j: int, q: int| 0 <= j < n && 0 <= q < s.dependants_of(j).len() ==> {
                        &&& (#[trigger] s.dependants_of(j)[q]) <= i
                        &&& s.deps_of(s.dependants_of(j)[q] as int).contains(j as usize)
                    },
                decreases m - k,
            {
                let d = s.tasks[i].deps[k];
                let ghost before = s;
                s.tasks[d].dependants.push(i);
                proof {
                    assert(s.tasks@.len() == before.tasks@.len());
                    assert(forall|t: int| 0 <= t < n && t != d ==> s.tasks@[t] == before.tasks@[t]);
                    assert(s.dependants_of(d as int) == before.dependants_of(d as int).push(i));
                    assert(s.tasks@[d as int].deps == before.tasks@[d as int].deps);
                    assert(s.deps_of(i as int).take(k + 1).drop_last() =~= s.deps_of(i as int).take(k as int));
                    assert(s.dependants_of(d as int).drop_last() =~= before.dependants_of(d as int));
                    assert forall|x: int, j: int| 0 <= x < n && 0 <= j < n
                        implies #[trigger] occurrences(s.dependants_of(j), x as usize) == if x < i {
                            occurrences(s.deps_of(x), j as usize)
                        } else if x == i {
                            occurrences(s.deps_of(i as int).take(k + 1), j as usize)
                        } else {
                            0
                        } by {
                        assert(occurrences(before.dependants_of(j), x as usize) == if x < i {
                            occurrences(before.deps_of(x), j as usize)
                        } else if x == i {
                            occurrences(before.deps_of(i as int).take(k as int), j as usize)
                        } else {
                            0
                        });
                        assert(s.deps_of(x) == before.deps_of(x));
                        if j != d as int {
                            assert(s.dependants_of(j) == before.dependants_of(j));
                        }
                    }
                    assert forall|j: int, q: int| 0 <= j < n && 0 <= q < s.deps_of(j).len() implies {
                        &&& (#[trigger] s.deps_of(j)[q]) < n
                        &&& s.tasks@[s.deps_of(j)[q] as int].name@ == s.tasks@[j].dep_names@[q]@
                    } by {
                        assert(s.deps_of(j) == before.deps_of(j));
                        let t = s.deps_of(j)[q] as int;
                        assert(s.tasks@[t].name@ == before.tasks@[t].name@);
                        assert(s.tasks@[j].dep_names == before.tasks@[j].dep_names);
                    }
                    assert(s.deps_of(i as int)[k as int] == d);
                    assert(s.dependants_of(d as int)[s.dependants_of(d as int).len() - 1] == i);
                    assert forall|j: int, q: int| 0 <= j < n && 0 <= q < s.deps_of(j).len() && (j < i || (j == i && q <= k))
                        implies s.dependants_of(#[trigger] s.deps_of(j)[q] as int).contains(j as usize) by {
                        assert(s.deps_of(j) == before.deps_of(j));
                        let t = s.deps_of(j)[q] as int;
                        if t == d as int {
                            if j == i && q == k {
                                assert(s.dependants_of(t)[s.dependants_of(t).len() - 1] == i);
                            } else {
                                let w = choose|w: int| 0 <= w < before.dependants_of(t).len() && before.dependants_of(t)[w] == j as usize;
                                assert(s.dependants_of(t)[w] == j as usize);
                            }
                        } else {
                            assert(s.dependants_of(t) == before.dependants_of(t));
                        }
                    }
                    assert forall|j: int, q: int| 0 <= j < n && 0 <= q < s.dependants_of(j).len() implies {
                        &&& (#[trigger] s.dependants_of(j)[q]) <= i
                        &&& s.deps_of(s.dependants_of(j)[q] as int).contains(j as usize)
                    } by {
                        if j == d as int && q == s.dependants_of(j).len() - 1 {
                            assert(s.deps_of(i as int)[k as int] == d);
                        } else {
                            assert(s.dependants_of(j)[q] == before.dependants_of(j)[q]);
                        }
                    }
                }
                k = k + 1;
            }
            assert(s.deps_of(i as int).take(m as int) =~= s.deps_of(i as int));
            i = i + 1;
        }
        proof {
            assert forall|j: int, k: int| 0 <= j < orig.count() && 0 <= k < orig.tasks@[j].dep_names@.len()
                implies orig.declares(#[trigger] orig.tasks@[j].dep_names@[k]@) by {
                let t = s.deps_of(j)[k] as int;
                assert(s.tasks@[j].dep_names@[k]@ == orig.tasks@[j].dep_names@[k]@);
                assert(orig.tasks@[t].name@ == s.tasks@[t].name@);
            }
        }
        Ok(s)
    }
}

} // verus!
