use vstd::prelude::*;

verus! {

/// One schedulable unit of work.
///
/// `deps` and `dependants` hold positions of other tasks in the owning
/// scheduler; the two start times stay unset until the scheduler computes them.
#[derive(Debug)]
pub struct Task {
    pub name: String,
    pub duration: u16,
    /// Identifiers of the tasks that must finish before this one starts.
    pub dep_names: Vec<String>,
    /// Positions of the tasks named in `dep_names`, filled in by `finalize`.
    pub deps: Vec<usize>,
    /// Positions of the tasks that wait on this one, filled in by `finalize`.
    pub dependants: Vec<usize>,
    pub earlier_start: Option<u64>,
    pub latest_start: Option<u64>,
}

impl Task {
    /// A task that is not yet linked to any other and has no start times.
    pub fn new(name: &str, duration: u16, dep_names: &[&str]) -> (r: Task)
        ensures
            r.name@ == name@,
            r.duration == duration,
            r.dep_names@.len() == dep_names@.len(),
            forall|k: int| 0 <= k < dep_names@.len() ==> #[trigger] r.dep_names@[k]@ == dep_names@[k]@,
            r.deps@.len() == 0,
            r.dependants@.len() == 0,
            r.earlier_start is None,
            r.latest_start is None,
    {
        let mut names: Vec<String> = Vec::new();
        let mut k: usize = 0;
        while k < dep_names.len()
            invariant
                k <= dep_names@.len(),
                names@.len() == k,
                forall|j: int| 0 <= j < k ==> #[trigger] names@[j]@ == dep_names@[j]@,
            decreases dep_names@.len() - k,
        {
            names.push(dep_names[k].to_owned());
            k = k + 1;
        }
        Task {
            name: name.to_owned(),
            duration,
            dep_names: names,
            deps: Vec::new(),
            dependants: Vec::new(),
            earlier_start: None,
            latest_start: None,
        }
    }
}

} // verus!
