//! The in-memory job map: a run file holds named jobs, each with its
//! dependencies (`needs`) and an ordered list of steps.

use vstd::prelude::*;

verus! {

/// One command invocation within a job. `startup_delay` is in milliseconds;
/// after spawning, the executor must wait at least that long before the next
/// step begins. A `persistent` step is left running in the background and
/// supervised; a transient one is waited for.
pub struct Step {
    pub command: String,
    pub persistent: bool,
    pub startup_delay: u64,
}

/// A named unit of work: optional display name, ids of the jobs that must
/// complete first, and the steps to run in declared order.
pub struct Job {
    pub name: Option<String>,
    pub needs: Vec<String>,
    pub steps: Vec<Step>,
}

/// The whole job map plus the default target. Jobs are keyed by id; the ids
/// must be pairwise distinct (`wf`), as in a map.
pub struct Runfile {
    pub default: String,
    pub jobs: Vec<(String, Job)>,
}

impl Runfile {
    /// Number of jobs.
    pub open spec fn n(self) -> int {
        self.jobs@.len() as int
    }

    /// Id of the job at index `i`.
    pub open spec fn id_at(self, i: int) -> Seq<char> {
        self.jobs@[i].0@
    }

    /// Whether some job has the id `id`.
    pub open spec fn has_id(self, id: Seq<char>) -> bool {
        exists|i: int| 0 <= i < self.n() && self.id_at(i) == id
    }

    /// Job ids are pairwise distinct: the vector is a genuine map.
    pub open spec fn wf(self) -> bool {
        forall|i: int, j: int|
            0 <= i < j < self.n() ==> self.id_at(i) != self.id_at(j)
    }

    /// The job at index `i` declares a dependency on the job at index `j`.
    pub open spec fn dep_edge(self, i: int, j: int) -> bool {
        &&& 0 <= i < self.n()
        &&& 0 <= j < self.n()
        &&& exists|k: int|
            0 <= k < self.jobs@[i].1.needs@.len() && self.jobs@[i].1.needs@[k]@ == self.id_at(j)
    }

    /// The dependency relation over job indices, as a set of edges
    /// (dependent, dependency).
    pub open spec fn edge_rel(self) -> Set<(int, int)> {
        Set::new(|e: (int, int)| self.dep_edge(e.0, e.1))
    }

    /// A `needs` entry `d` of some job names no job of the map.
    pub open spec fn undefined_dep(self, d: Seq<char>) -> bool {
        &&& !self.has_id(d)
        &&& exists|i: int, k: int|
            0 <= i < self.n() && 0 <= k < self.jobs@[i].1.needs@.len()
                && self.jobs@[i].1.needs@[k]@ == d
    }

    /// Every `needs` entry names a job of the map.
    pub open spec fn deps_defined(self) -> bool {
        forall|i: int, k: int|
            0 <= i < self.n() && 0 <= k < self.jobs@[i].1.needs@.len()
                ==> self.has_id(#[trigger] self.jobs@[i].1.needs@[k]@)
    }
}

} // verus!
