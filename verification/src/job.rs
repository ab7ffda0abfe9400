//! Dependency-graph construction and run-order resolution.
//!
//! `collect_dependencies` turns a job map into an acyclic `DependencyGraph`
//! (rejecting undefined dependencies and cycles), and `create_run_order`
//! linearizes the subgraph of a target job and its transitive dependencies so
//! that every dependency precedes its dependents. `resolve_order` composes
//! the two.

use vstd::prelude::*;

use crate::relation::{
    is_cycle, is_linear_extension, lemma_closed_set_reaches, lemma_cycle_trapped,
    lemma_distinct_full_seq_onto, lemma_reaches_self, lemma_reaches_step,
    lemma_short_distinct_seq_misses, lemma_trapped_no_extension, reaches, trapped,
};
use crate::runfile::Runfile;

verus! {

/// The requested job id names no job of the map.
#[derive(Clone, Debug)]
pub struct JobNotFoundError {
    job_id: String,
}

impl JobNotFoundError {
    /// The offending id.
    pub closed spec fn id(self) -> Seq<char> {
        self.job_id@
    }

    pub fn new(job_id: &str) -> (r: JobNotFoundError)
        ensures
            r.id() == job_id@,
    {
        JobNotFoundError { job_id: job_id.to_owned() }
    }

    /// The id that was not found, for diagnostics.
    pub fn job_id(&self) -> (r: &str)
        ensures
            r@ == self.id(),
    {
        self.job_id.as_str()
    }
}

/// A configuration error found while building or resolving the graph.
#[derive(Debug)]
pub enum OrchestratorError {
    /// Some job's `needs` entry names no job of the map.
    UndefinedDependency(String),
    /// The dependency relation admits no dependencies-first ordering.
    CycleDetected,
    /// The requested target job does not exist.
    JobNotFound(String),
}

/// A directed acyclic dependency graph: one node per job id, an edge
/// `(u, v)` for "job u needs job v", and a stored witness order `topo`
/// in which every dependency precedes its dependents.
pub struct DependencyGraph {
    ids: Vec<String>,
    edges: Vec<(usize, usize)>,
    topo: Vec<usize>,
}

impl DependencyGraph {
    /// Number of nodes.
    pub closed spec fn n(self) -> int {
        self.ids@.len() as int
    }

    /// Id of node `i`.
    pub closed spec fn id_at(self, i: int) -> Seq<char> {
        self.ids@[i]@
    }

    /// Whether some node carries the id `id`.
    pub open spec fn has_id(self, id: Seq<char>) -> bool {
        exists|i: int| 0 <= i < self.n() && self.id_at(i) == id
    }

    /// Node `u` depends on node `v`.
    pub closed spec fn has_edge(self, u: int, v: int) -> bool {
        edge_in(self.edges@, u, v)
    }

    /// The dependency relation as a set of edges.
    pub open spec fn rel(self) -> Set<(int, int)> {
        Set::new(|e: (int, int)| self.has_edge(e.0, e.1))
    }

    /// Number of dependency edges (one per `needs` entry).
    pub closed spec fn n_edges(self) -> int {
        self.edges@.len() as int
    }

    /// Well-formed: distinct ids, in-range edges, and `topo` a permutation
    /// of the nodes in which every dependency precedes its dependents.
    pub closed spec fn wf(self) -> bool {
        &&& forall|i: int, j: int| 0 <= i < j < self.n() ==> self.id_at(i) != self.id_at(j)
        &&& forall|k: int|
            0 <= k < self.edges@.len() ==> (#[trigger] self.edges@[k]).0 < self.n()
                && self.edges@[k].1 < self.n()
        &&& self.topo@.len() == self.n()
        &&& forall|a: int| 0 <= a < self.topo@.len() ==> (#[trigger] self.topo@[a]) < self.n()
        &&& forall|a: int, b: int| 0 <= a < b < self.topo@.len() ==> self.topo@[a] != self.topo@[b]
        &&& forall|a: int, b: int|
            0 <= a < self.topo@.len() && 0 <= b < self.topo@.len() && self.has_edge(
                #[trigger] self.topo@[a] as int,
                #[trigger] self.topo@[b] as int,
            ) ==> b < a
    }

    /// A run order for target node `t`: a duplicate-free list of job ids
    /// covering exactly `t` and its transitive dependencies, in which every
    /// dependency precedes every dependent.
    pub open spec fn is_dependency_order(self, t: int, order: Seq<Seq<char>>) -> bool {
        &&& forall|a: int| 0 <= a < order.len() ==> self.has_id(#[trigger] order[a])
        &&& forall|a: int, b: int| 0 <= a < b < order.len() ==> order[a] != order[b]
        &&& forall|i: int|
            0 <= i < self.n() ==> (order.contains(#[trigger] self.id_at(i)) <==> reaches(
                self.rel(),
                self.n(),
                t,
                i,
            ))
        &&& forall|a: int, b: int, i: int, j: int|
            #![trigger order[a], order[b], self.id_at(i), self.id_at(j)]
            0 <= a < order.len() && 0 <= b < order.len() && 0 <= i < self.n() && 0 <= j < self.n()
                && order[a] == self.id_at(i) && order[b] == self.id_at(j) && self.has_edge(i, j)
                ==> b < a
    }

    pub fn node_count(&self) -> (r: usize)
        ensures
            r == self.n(),
    {
        self.ids.len()
    }

    pub fn edge_count(&self) -> (r: usize)
        ensures
            r == self.n_edges(),
    {
        self.edges.len()
    }
}

/// An edge `(u, v)` occurs in the edge list.
spec fn edge_in(edges: Seq<(usize, usize)>, u: int, v: int) -> bool {
    exists|m: int|
        0 <= m < edges.len() && (#[trigger] edges[m]).0 == u && edges[m].1 == v
}

/// Every edge of the list is a dependency of the job map, with in-range
/// endpoints.
spec fn edges_sound(rf: Runfile, edges: Seq<(usize, usize)>) -> bool {
    forall|m: int|
        0 <= m < edges.len() ==> (#[trigger] edges[m]).0 < rf.n() && edges[m].1 < rf.n()
            && rf.dep_edge(edges[m].0 as int, edges[m].1 as int)
}

/// The `needs` entry `k2` of job `i2` is represented by some edge.
spec fn need_covered(rf: Runfile, edges: Seq<(usize, usize)>, i2: int, k2: int) -> bool {
    exists|m: int|
        0 <= m < edges.len() && (#[trigger] edges[m]).0 == i2 && edges[m].1 < rf.n() && rf.id_at(
            edges[m].1 as int,
        ) == rf.jobs@[i2].1.needs@[k2]@
}

/// All `needs` entries of the jobs before `i`, and the first `k` of job `i`,
/// are represented.
spec fn edges_complete_upto(rf: Runfile, edges: Seq<(usize, usize)>, i: int, k: int) -> bool {
    forall|i2: int, k2: int|
        #![trigger need_covered(rf, edges, i2, k2)]
        0 <= i2 < rf.n() && 0 <= k2 < rf.jobs@[i2].1.needs@.len() && (i2 < i || (i2 == i && k2 < k))
            ==> need_covered(rf, edges, i2, k2)
}

/// Index of the job whose id equals `id`, if any.
fn find_id(ids: &Vec<String>, id: &String) -> (r: Option<usize>)
    ensures
        match r {
            Some(j) => j < ids@.len() && ids@[j as int]@ == id@,
            None => forall|j: int| 0 <= j < ids@.len() ==> ids@[j]@ != id@,
        },
{
    let mut j: usize = 0;
    while j < ids.len()
        invariant
            j <= ids@.len(),
            forall|m: int| 0 <= m < j ==> ids@[m]@ != id@,
        decreases ids@.len() - j,
    {
        if ids[j] == *id {
            return Some(j);
        }
        j += 1;
    }
    None
}

/// Every dependency edge leaving `u` points at an emitted node. Kept
/// opaque so that stating "no node is ready" of every node stays cheap for
/// the solver.
#[verifier::opaque]
spec fn all_deps_emitted(edges: Seq<(usize, usize)>, emitted: Seq<bool>, u: int) -> bool {
    forall|m: int|
        0 <= m < edges.len() ==> ((#[trigger] edges[m]).0 == u ==> emitted[edges[m].1 as int])
}

/// Whether every dependency edge leaving `u` points at an emitted node.
fn deps_emitted(edges: &Vec<(usize, usize)>, emitted: &Vec<bool>, u: usize) -> (r: bool)
    requires
        forall|m: int| 0 <= m < edges@.len() ==> (#[trigger] edges@[m]).1 < emitted@.len(),
    ensures
        r == all_deps_emitted(edges@, emitted@, u as int),
{
    let mut m: usize = 0;
    while m < edges.len()
        invariant
            m <= edges@.len(),
            forall|m: int| 0 <= m < edges@.len() ==> (#[trigger] edges@[m]).1 < emitted@.len(),
            forall|m2: int|
                0 <= m2 < m ==> ((#[trigger] edges@[m2]).0 == u ==> emitted@[edges@[m2].1 as int]),
        decreases edges@.len() - m,
    {
        let e = edges[m];
        if e.0 == u && !emitted[e.1] {
            proof {
                assert(!all_deps_emitted(edges@, emitted@, u as int)) by {
                    reveal(all_deps_emitted);
                }
            }
            return false;
        }
        m += 1;
    }
    proof {
        assert(all_deps_emitted(edges@, emitted@, u as int)) by {
            reveal(all_deps_emitted);
        }
    }
    true
}

/// A node that is not yet emitted and whose dependencies all are, if any.
fn find_ready(edges: &Vec<(usize, usize)>, emitted: &Vec<bool>) -> (r: Option<usize>)
    requires
        forall|m: int| 0 <= m < edges@.len() ==> (#[trigger] edges@[m]).1 < emitted@.len(),
    ensures
        match r {
            Some(u) => u < emitted@.len() && !emitted@[u as int] && all_deps_emitted(
                edges@,
                emitted@,
                u as int,
            ),
            None => forall|u: int|
                0 <= u < emitted@.len() && !emitted@[u] ==> !#[trigger] all_deps_emitted(
                    edges@,
                    emitted@,
                    u,
                ),
        },
{
    let mut u: usize = 0;
    while u < emitted.len()
        invariant
            u <= emitted@.len(),
            forall|m: int| 0 <= m < edges@.len() ==> (#[trigger] edges@[m]).1 < emitted@.len(),
            forall|v: int|
                0 <= v < u && !emitted@[v] ==> !#[trigger] all_deps_emitted(edges@, emitted@, v),
        decreases emitted@.len() - u,
    {
        if !emitted[u] {
            if deps_emitted(edges, emitted, u) {
                return Some(u);
            }
        }
        u += 1;
    }
    None
}

/// Clone the job ids, in map order.
fn build_node_ids(runfile: &Runfile) -> (ids: Vec<String>)
    ensures
        ids@.len() == runfile.n(),
        forall|m: int| 0 <= m < runfile.n() ==> ids@[m]@ == runfile.id_at(m),
{
    let n = runfile.jobs.len();
    let mut ids: Vec<String> = Vec::new();
    let mut i: usize = 0;
    while i < n
        invariant
            n == runfile.n(),
            ids@.len() == i <= n,
            forall|m: int| 0 <= m < i ==> ids@[m]@ == runfile.id_at(m),
        decreases n - i,
    {
        ids.push(runfile.jobs[i].0.clone());
        i += 1;
    }
    ids
}

/// Resolve every `needs` entry to a node index, or report the first entry
/// that names no job.
fn resolve_edges(runfile: &Runfile, ids: &Vec<String>) -> (r: Result<
    Vec<(usize, usize)>,
    OrchestratorError,
>)
    requires
        runfile.wf(),
        ids@.len() == runfile.n(),
        forall|m: int| 0 <= m < runfile.n() ==> ids@[m]@ == runfile.id_at(m),
    ensures
        match r {
            Ok(edges) => {
                &&& edges_sound(*runfile, edges@)
                &&& edges@.len() == total_needs(*runfile)
                &&& runfile.deps_defined()
                &&& forall|u: int, v: int| edge_in(edges@, u, v) <==> runfile.dep_edge(u, v)
            },
            Err(OrchestratorError::UndefinedDependency(d)) => runfile.undefined_dep(d@),
            _ => false,
        },
        (r matches Err(OrchestratorError::UndefinedDependency(_))) <==> !runfile.deps_defined(),
{
    let n = runfile.jobs.len();
    let mut edges: Vec<(usize, usize)> = Vec::new();
    let mut i: usize = 0;
    while i < n
        invariant
            n == runfile.n(),
            runfile.wf(),
            i <= n,
            ids@.len() == n,
            forall|m: int| 0 <= m < n ==> ids@[m]@ == runfile.id_at(m),
            edges_sound(*runfile, edges@),
            edges_complete_upto(*runfile, edges@, i as int, 0),
            edges@.len() == needs_before(*runfile, i as int),
        decreases n - i,
    {
        let needs = &runfile.jobs[i].1.needs;
        let mut k: usize = 0;
        while k < needs.len()
            invariant
                n == runfile.n(),
                runfile.wf(),
                i < n,
                k <= needs@.len(),
                needs == &runfile.jobs@[i as int].1.needs,
                ids@.len() == n,
                forall|m: int| 0 <= m < n ==> ids@[m]@ == runfile.id_at(m),
                edges_sound(*runfile, edges@),
                edges_complete_upto(*runfile, edges@, i as int, k as int),
                edges@.len() == needs_before(*runfile, i as int) + k,
            decreases needs@.len() - k,
        {
            let dep = &needs[k];
            match find_id(ids, dep) {
                Some(j) => {
                    proof {
                        assert(runfile.id_at(j as int) == dep@);
                        assert(runfile.dep_edge(i as int, j as int));
                    }
                    let ghost old_edges = edges@;
                    edges.push((i, j));
                    proof {
                        lemma_push_covers(*runfile, old_edges, i, k as int, j);
                    }
                },
                None => {
                    proof {
                        assert(!runfile.has_id(dep@)) by {
                            assert forall|j: int| 0 <= j < runfile.n() implies runfile.id_at(j)
                                != dep@ by {
                                assert(ids@[j]@ != dep@);
                            }
                        }
                        assert(runfile.undefined_dep(dep@));
                    }
                    return Err(OrchestratorError::UndefinedDependency(dep.clone()));
                },
            }
            k += 1;
        }
        proof {
            lemma_needs_before_step(*runfile, i as int);
            assert forall|i2: int, k2: int|
                #![trigger need_covered(*runfile, edges@, i2, k2)]
                0 <= i2 < runfile.n() && 0 <= k2 < runfile.jobs@[i2].1.needs@.len() && (i2 < i
                    as int + 1 || (i2 == i as int + 1 && k2 < 0)) implies need_covered(
                *runfile,
                edges@,
                i2,
                k2,
            ) by {
                assert(i2 < i as int || (i2 == i as int && k2 < needs@.len()));
                assert(need_covered(*runfile, edges@, i2, k2));
            }
        }
        i += 1;
    }
    proof {
        lemma_complete_edges_mirror(*runfile, edges@);
    }
    Ok(edges)
}

/// Pushing the resolved edge for entry `k` of job `i` keeps the edge list
/// covering every entry resolved so far.
proof fn lemma_push_covers(rf: Runfile, old_edges: Seq<(usize, usize)>, iu: usize, k: int, ju: usize)
    requires
        (iu as int) < rf.n(),
        0 <= k < rf.jobs@[iu as int].1.needs@.len(),
        (ju as int) < rf.n(),
        rf.id_at(ju as int) == rf.jobs@[iu as int].1.needs@[k]@,
        edges_complete_upto(rf, old_edges, iu as int, k),
    ensures
        edges_complete_upto(rf, old_edges.push((iu, ju)), iu as int, k + 1),
{
    let i = iu as int;
    let edges = old_edges.push((iu, ju));
    assert forall|i2: int, k2: int|
        #![trigger need_covered(rf, edges, i2, k2)]
        0 <= i2 < rf.n() && 0 <= k2 < rf.jobs@[i2].1.needs@.len() && (i2 < i || (i2 == i && k2 < k
            + 1)) implies need_covered(rf, edges, i2, k2) by {
        if i2 == i && k2 == k {
            let m = old_edges.len() as int;
            assert((#[trigger] edges[m]).0 == i2 && edges[m].1 < rf.n() && rf.id_at(
                edges[m].1 as int,
            ) == rf.jobs@[i2].1.needs@[k2]@);
        } else {
            assert(need_covered(rf, old_edges, i2, k2));
            let m = choose|m: int|
                0 <= m < old_edges.len() && (#[trigger] old_edges[m]).0 == i2 && old_edges[m].1
                    < rf.n() && rf.id_at(old_edges[m].1 as int) == rf.jobs@[i2].1.needs@[k2]@;
            assert(edges[m] == old_edges[m]);
            assert((#[trigger] edges[m]).0 == i2 && edges[m].1 < rf.n() && rf.id_at(
                edges[m].1 as int,
            ) == rf.jobs@[i2].1.needs@[k2]@);
        }
    }
}

/// A sound and complete edge list mirrors the dependency relation exactly,
/// and witnesses that every `needs` entry is defined.
proof fn lemma_complete_edges_mirror(rf: Runfile, edges: Seq<(usize, usize)>)
    requires
        rf.wf(),
        edges_sound(rf, edges),
        edges_complete_upto(rf, edges, rf.n(), 0),
    ensures
        rf.deps_defined(),
        forall|u: int, v: int| edge_in(edges, u, v) <==> rf.dep_edge(u, v),
{
    assert forall|i2: int, k2: int|
        0 <= i2 < rf.n() && 0 <= k2 < rf.jobs@[i2].1.needs@.len() implies rf.has_id(
        #[trigger] rf.jobs@[i2].1.needs@[k2]@,
    ) by {
        assert(need_covered(rf, edges, i2, k2));
        let m = choose|m: int|
            0 <= m < edges.len() && (#[trigger] edges[m]).0 == i2 && edges[m].1 < rf.n()
                && rf.id_at(edges[m].1 as int) == rf.jobs@[i2].1.needs@[k2]@;
        assert(rf.id_at(edges[m].1 as int) == rf.jobs@[i2].1.needs@[k2]@);
    }
    assert forall|u: int, v: int| rf.dep_edge(u, v) implies edge_in(edges, u, v) by {
        let k2 = choose|k2: int|
            0 <= k2 < rf.jobs@[u].1.needs@.len() && rf.jobs@[u].1.needs@[k2]@ == rf.id_at(v);
        assert(need_covered(rf, edges, u, k2));
        let m = choose|m: int|
            0 <= m < edges.len() && (#[trigger] edges[m]).0 == u && edges[m].1 < rf.n()
                && rf.id_at(edges[m].1 as int) == rf.jobs@[u].1.needs@[k2]@;
        assert(rf.id_at(edges[m].1 as int) == rf.id_at(v));
        assert(edges[m].1 as int == v);
    }
    assert forall|u: int, v: int| edge_in(edges, u, v) implies rf.dep_edge(u, v) by {
        let m = choose|m: int|
            0 <= m < edges.len() && (#[trigger] edges[m]).0 == u && edges[m].1 == v;
        assert(rf.dep_edge(edges[m].0 as int, edges[m].1 as int));
    }
}

/// Emit the nodes dependencies-first, or report that the relation admits no
/// such order.
fn emit_order(runfile: &Runfile, edges: &Vec<(usize, usize)>) -> (r: Result<
    Vec<usize>,
    OrchestratorError,
>)
    requires
        edges_sound(*runfile, edges@),
    ensures
        match r {
            Ok(topo) => {
                &&& topo@.len() == runfile.n()
                &&& forall|a: int| 0 <= a < topo@.len() ==> (#[trigger] topo@[a]) < runfile.n()
                &&& forall|a: int, b: int| 0 <= a < b < topo@.len() ==> topo@[a] != topo@[b]
                &&& forall|a: int, b: int|
                    0 <= a < topo@.len() && 0 <= b < topo@.len() && edge_in(
                        edges@,
                        #[trigger] topo@[a] as int,
                        #[trigger] topo@[b] as int,
                    ) ==> b < a
            },
            Err(OrchestratorError::CycleDetected) => forall|ord: Seq<int>|
                !is_linear_extension(runfile.edge_rel(), runfile.n(), ord),
            _ => false,
        },
{
    let n = runfile.jobs.len();
    let mut emitted: Vec<bool> = Vec::new();
    let mut i: usize = 0;
    while i < n
        invariant
            emitted@.len() == i <= n,
            forall|u: int| 0 <= u < i ==> !emitted@[u],
        decreases n - i,
    {
        emitted.push(false);
        i += 1;
    }

    let mut topo: Vec<usize> = Vec::new();
    while topo.len() < n
        invariant
            n == runfile.n(),
            emitted@.len() == n,
            edges_sound(*runfile, edges@),
            topo@.len() <= n,
            forall|a: int| 0 <= a < topo@.len() ==> (#[trigger] topo@[a]) < n,
            forall|a: int, b: int| 0 <= a < b < topo@.len() ==> topo@[a] != topo@[b],
            forall|u: int|
                0 <= u < n ==> (emitted@[u] <==> exists|a: int|
                    0 <= a < topo@.len() && (#[trigger] topo@[a]) as int == u),
            forall|a: int, m: int|
                #![trigger topo@[a], edges@[m]]
                0 <= a < topo@.len() && 0 <= m < edges@.len() && edges@[m].0 == topo@[a]
                    ==> emitted@[edges@[m].1 as int],
            forall|a: int, b: int|
                0 <= a < topo@.len() && 0 <= b < topo@.len() && edge_in(
                    edges@,
                    #[trigger] topo@[a] as int,
                    #[trigger] topo@[b] as int,
                ) ==> b < a,
        decreases n - topo@.len(),
    {
        match find_ready(edges, &emitted) {
            Some(u) => {
                proof {
                    lemma_emit_preserves(*runfile, edges@, topo@, emitted@, u);
                }
                emitted.set(u, true);
                topo.push(u);
            },
            None => {
                proof {
                    lemma_stall_no_extension(*runfile, edges@, topo@, emitted@);
                }
                return Err(OrchestratorError::CycleDetected);
            },
        }
    }
    Ok(topo)
}

/// Build the dependency graph of a job map.
///
/// Fails with `UndefinedDependency` exactly when some `needs` entry names no
/// job, and with `CycleDetected` exactly when the dependency relation admits
/// no order in which every dependency precedes its dependents (in
/// particular, whenever the relation contains a cycle). On success the graph
/// mirrors the map: node `i` is job `i`, and there is an edge `(u, v)` if
/// and only if job `u` lists job `v`'s id in its `needs`.
pub fn collect_dependencies(runfile: &Runfile) -> (r: Result<DependencyGraph, OrchestratorError>)
    requires
        runfile.wf(),
    ensures
        match r {
            Ok(g) => {
                &&& g.wf()
                &&& g.n() == runfile.n()
                &&& forall|i: int| 0 <= i < g.n() ==> g.id_at(i) == runfile.id_at(i)
                &&& g.n_edges() == total_needs(*runfile)
                &&& forall|u: int, v: int| g.has_edge(u, v) <==> runfile.dep_edge(u, v)
                &&& runfile.deps_defined()
                &&& exists|ord: Seq<int>|
                    is_linear_extension(runfile.edge_rel(), runfile.n(), ord)
            },
            Err(OrchestratorError::UndefinedDependency(d)) => runfile.undefined_dep(d@),
            Err(OrchestratorError::CycleDetected) => {
                &&& runfile.deps_defined()
                &&& forall|ord: Seq<int>|
                    !is_linear_extension(runfile.edge_rel(), runfile.n(), ord)
            },
            Err(OrchestratorError::JobNotFound(_)) => false,
        },
        (r matches Err(OrchestratorError::UndefinedDependency(_))) <==> !runfile.deps_defined(),
        runfile.deps_defined() && (exists|p: Seq<int>|
            is_cycle(runfile.edge_rel(), runfile.n(), p)) ==> (r matches Err(
            OrchestratorError::CycleDetected,
        )),
{
    let ghost rel = runfile.edge_rel();
    let ids = build_node_ids(runfile);
    let edges = match resolve_edges(runfile, &ids) {
        Ok(edges) => edges,
        Err(e) => {
            return Err(e);
        },
    };
    let topo = match emit_order(runfile, &edges) {
        Ok(topo) => topo,
        Err(e) => {
            return Err(e);
        },
    };

    let g = DependencyGraph { ids, edges, topo };
    proof {
        let ints = g.topo@.map_values(|x: usize| x as int);
        assert(is_linear_extension(rel, runfile.n(), ints)) by {
            assert forall|a: int, b: int|
                0 <= a < ints.len() && 0 <= b < ints.len() && rel.contains(
                    (#[trigger] ints[a], #[trigger] ints[b]),
                ) implies b < a by {
                assert(runfile.dep_edge(g.topo@[a] as int, g.topo@[b] as int));
                assert(edge_in(g.edges@, g.topo@[a] as int, g.topo@[b] as int));
            }
        }
        // No cycle can coexist with the order just built.
        if exists|p: Seq<int>| is_cycle(rel, runfile.n(), p) {
            let p = choose|p: Seq<int>| is_cycle(rel, runfile.n(), p);
            lemma_cycle_trapped(rel, runfile.n(), p);
            lemma_trapped_no_extension(rel, runfile.n(), p.to_set(), ints);
        }
        assert(g.n() == runfile.n());
        assert(forall|i: int| 0 <= i < g.n() ==> g.id_at(i) == runfile.id_at(i));
        assert(g.n_edges() == total_needs(*runfile));
        assert(forall|u: int, v: int| g.has_edge(u, v) <==> runfile.dep_edge(u, v));
        assert(g.wf());
    }
    Ok(g)
}

/// Emitting a ready node preserves the emission invariants: the order so
/// far stays duplicate-free and dependencies-first, and the emitted flags
/// keep matching the order's contents.
proof fn lemma_emit_preserves(
    rf: Runfile,
    edges: Seq<(usize, usize)>,
    topo: Seq<usize>,
    emitted: Seq<bool>,
    u: usize,
)
    requires
        emitted.len() == rf.n(),
        edges_sound(rf, edges),
        (u as int) < rf.n(),
        !emitted[u as int],
        all_deps_emitted(edges, emitted, u as int),
        forall|a: int| 0 <= a < topo.len() ==> (#[trigger] topo[a]) < rf.n(),
        forall|a: int, b: int| 0 <= a < b < topo.len() ==> topo[a] != topo[b],
        forall|v: int|
            0 <= v < rf.n() ==> (emitted[v] <==> exists|a: int|
                0 <= a < topo.len() && (#[trigger] topo[a]) as int == v),
        forall|a: int, m: int|
            #![trigger topo[a], edges[m]]
            0 <= a < topo.len() && 0 <= m < edges.len() && edges[m].0 == topo[a]
                ==> emitted[edges[m].1 as int],
        forall|a: int, b: int|
            0 <= a < topo.len() && 0 <= b < topo.len() && edge_in(
                edges,
                #[trigger] topo[a] as int,
                #[trigger] topo[b] as int,
            ) ==> b < a,
    ensures
        ({
            let topo2 = topo.push(u);
            let emitted2 = emitted.update(u as int, true);
            &&& forall|a: int| 0 <= a < topo2.len() ==> (#[trigger] topo2[a]) < rf.n()
            &&& forall|a: int, b: int| 0 <= a < b < topo2.len() ==> topo2[a] != topo2[b]
            &&& forall|v: int|
                0 <= v < rf.n() ==> (emitted2[v] <==> exists|a: int|
                    0 <= a < topo2.len() && (#[trigger] topo2[a]) as int == v)
            &&& forall|a: int, m: int|
                #![trigger topo2[a], edges[m]]
                0 <= a < topo2.len() && 0 <= m < edges.len() && edges[m].0 == topo2[a]
                    ==> emitted2[edges[m].1 as int]
            &&& forall|a: int, b: int|
                0 <= a < topo2.len() && 0 <= b < topo2.len() && edge_in(
                    edges,
                    #[trigger] topo2[a] as int,
                    #[trigger] topo2[b] as int,
                ) ==> b < a
        }),
{
    assert(forall|m: int|
        0 <= m < edges.len() ==> ((#[trigger] edges[m]).0 == u ==> emitted[edges[m].1 as int])) by {
        reveal(all_deps_emitted);
    }
    let topo2 = topo.push(u);
    let emitted2 = emitted.update(u as int, true);
    assert forall|a: int, b: int| 0 <= a < b < topo2.len() implies topo2[a] != topo2[b] by {
        if b == topo.len() {
            assert(topo2[a] == topo[a]);
            if topo[a] == u {
                assert(emitted[topo[a] as int]);
            }
        }
    }
    assert forall|v: int|
        0 <= v < rf.n() implies (emitted2[v] <==> exists|a: int|
        0 <= a < topo2.len() && (#[trigger] topo2[a]) as int == v) by {
        if v == u as int {
            let a = topo.len() as int;
            assert((#[trigger] topo2[a]) as int == v);
        } else {
            if emitted2[v] {
                let a = choose|a: int| 0 <= a < topo.len() && (#[trigger] topo[a]) as int == v;
                assert((#[trigger] topo2[a]) as int == v);
            } else {
                if exists|a: int| 0 <= a < topo2.len() && (#[trigger] topo2[a]) as int == v {
                    let a = choose|a: int|
                        0 <= a < topo2.len() && (#[trigger] topo2[a]) as int == v;
                    assert(a < topo.len());
                    assert((#[trigger] topo[a]) as int == v);
                }
            }
        }
    }
    assert forall|a: int, m: int|
        #![trigger topo2[a], edges[m]]
        0 <= a < topo2.len() && 0 <= m < edges.len() && edges[m].0 == topo2[a] implies emitted2[edges[m].1 as int] by {
        if a < topo.len() {
            assert(topo2[a] == topo[a]);
            assert(emitted[edges[m].1 as int]);
        } else {
            assert(topo2[a] == u);
            assert(emitted[edges[m].1 as int]);
        }
    }
    assert forall|a: int, b: int|
        0 <= a < topo2.len() && 0 <= b < topo2.len() && edge_in(
            edges,
            #[trigger] topo2[a] as int,
            #[trigger] topo2[b] as int,
        ) implies b < a by {
        if b == topo.len() {
            // The new node is nobody's earlier dependency: an edge into `u`
            // from an emitted node would mean `u` was already emitted.
            assert(topo2[b] == u);
            let m = choose|m: int|
                0 <= m < edges.len() && (#[trigger] edges[m]).0 == topo2[a] as int && edges[m].1
                    == u as int;
            if a < topo.len() {
                assert(edges[m].0 == topo[a]);
                assert(emitted[edges[m].1 as int]);
            } else {
                assert(edges[m].0 == u);
                assert(emitted[edges[m].1 as int]);
            }
        } else {
            assert(topo2[b] == topo[b]);
            if a == topo.len() {
                assert(topo2[a] == u);
            } else {
                assert(topo2[a] == topo[a]);
            }
        }
    }
}

/// Linearize the target job and its transitive dependencies.
///
/// Fails exactly when `job_id` names no node. On success the returned list
/// holds the ids of the target and of every job it transitively depends on,
/// each exactly once, with every dependency before every job that needs it.
pub fn create_run_order(job_id: &str, graph: DependencyGraph) -> (r: Result<
    Vec<String>,
    JobNotFoundError,
>)
    requires
        graph.wf(),
    ensures
        match r {
            Ok(order) => graph.has_id(job_id@) && (forall|t: int|
                0 <= t < graph.n() && graph.id_at(t) == job_id@ ==> graph.is_dependency_order(
                    t,
                    order.deep_view(),
                )),
            Err(e) => !graph.has_id(job_id@) && e.id() == job_id@,
        },
{
    let ghost rel = graph.rel();
    let key = job_id.to_owned();
    let n = graph.ids.len();
    let t = match find_id(&graph.ids, &key) {
        Some(t) => t,
        None => {
            return Err(JobNotFoundError::new(job_id));
        },
    };

    // Depth-first reachability from the target along dependency edges.
    let mut visited: Vec<bool> = Vec::new();
    let mut i: usize = 0;
    while i < n
        invariant
            visited@.len() == i <= n,
            forall|u: int| 0 <= u < i ==> !visited@[u],
        decreases n - i,
    {
        visited.push(false);
        i += 1;
    }
    visited.set(t, true);
    let mut stack: Vec<usize> = Vec::new();
    stack.push(t);
    proof {
        lemma_reaches_self(rel, n as int, t as int);
        assert(stack@[0] == t);
        assert(stack@.contains(t));
    }
    let ghost unv = Set::new(|v: int| 0 <= v < n && v != t as int);
    proof {
        crate::relation::lemma_int_range_cardinality(n as int);
        let range = Set::new(|y: int| 0 <= y < n);
        assert(unv.subset_of(range));
        vstd::set_lib::lemma_len_subset(unv, range);
    }
    while stack.len() > 0
        invariant
            n == graph.n(),
            graph.wf(),
            rel == graph.rel(),
            (t as int) < n,
            visited@.len() == n,
            visited@[t as int],
            forall|u: int| 0 <= u < n && visited@[u] ==> reaches(rel, n as int, t as int, u),
            forall|a: int|
                0 <= a < stack@.len() ==> (#[trigger] stack@[a]) < n && visited@[stack@[a] as int],
            forall|u: int, m: int|
                #![trigger visited@[u], graph.edges@[m]]
                0 <= u < n && visited@[u] && !stack@.contains(u as usize) && 0 <= m
                    < graph.edges@.len() && graph.edges@[m].0 == u ==> visited@[graph.edges@[m].1
                    as int],
            unv.finite(),
            forall|v: int| unv.contains(v) <==> (0 <= v < n && !visited@[v]),
        decreases unv.len(), stack@.len(),
    {
        let ghost unv0 = unv;
        let ghost old_stack = stack@;
        let u = match stack.pop() {
            Some(u) => u,
            None => {
                return Err(JobNotFoundError::new(job_id));
            },
        };
        let ghost s0 = stack@;
        proof {
            assert forall|v: usize| #[trigger] old_stack.contains(v) && v != u implies
                stack@.contains(v) by {
                let aa = choose|aa: int| 0 <= aa < old_stack.len() && old_stack[aa] == v;
                assert(old_stack[old_stack.len() - 1] == u);
                assert(aa < old_stack.len() - 1);
                assert(stack@[aa] == v);
            }
        }
        let mut m: usize = 0;
        let ne = graph.edges.len();
        while m < ne
            invariant
                n == graph.n(),
                graph.wf(),
                rel == graph.rel(),
                (t as int) < n,
                (u as int) < n,
                ne == graph.edges@.len(),
                visited@.len() == n,
                visited@[t as int],
                visited@[u as int],
                forall|v: int| 0 <= v < n && visited@[v] ==> reaches(rel, n as int, t as int, v),
                forall|a: int|
                    0 <= a < stack@.len() ==> (#[trigger] stack@[a]) < n && visited@[stack@[a]
                        as int],
                forall|v: int, m2: int|
                    #![trigger visited@[v], graph.edges@[m2]]
                    0 <= v < n && visited@[v] && !stack@.contains(v as usize) && v != u as int && 0
                        <= m2 < graph.edges@.len() && graph.edges@[m2].0 == v
                        ==> visited@[graph.edges@[m2].1 as int],
                forall|m2: int|
                    0 <= m2 < m && (#[trigger] graph.edges@[m2]).0 == u
                        ==> visited@[graph.edges@[m2].1 as int],
                unv.finite(),
                forall|v: int| unv.contains(v) <==> (0 <= v < n && !visited@[v]),
                unv.len() < unv0.len() || (unv == unv0 && stack@ == s0),
            decreases ne - m,
        {
            let e = graph.edges[m];
            if e.0 == u && !visited[e.1] {
                proof {
                    assert(edge_in(graph.edges@, u as int, e.1 as int));
                    assert(rel.contains((u as int, e.1 as int)));
                    lemma_reaches_step(rel, n as int, t as int, u as int, e.1 as int);
                    assert(unv.contains(e.1 as int));
                    assert(unv.remove(e.1 as int).len() == unv.len() - 1);
                }
                let ghost s_mid = stack@;
                visited.set(e.1, true);
                stack.push(e.1);
                proof {
                    unv = unv.remove(e.1 as int);
                    assert(stack@[stack@.len() - 1] == e.1);
                    assert(stack@.contains(e.1));
                    assert forall|v: usize| #[trigger] s_mid.contains(v) implies
                        stack@.contains(v) by {
                        let aa = choose|aa: int| 0 <= aa < s_mid.len() && s_mid[aa] == v;
                        assert(stack@[aa] == v);
                    }
                }
            }
            m += 1;
        }
    }

    // The visited set is exactly what the target reaches: everything in it
    // was reached, and with the stack empty it is closed under edges.
    let ghost sv = Set::new(|v: int| 0 <= v < n && visited@[v]);
    proof {
        assert forall|u: int, v: int|
            sv.contains(u) && rel.contains((u, v)) && 0 <= v < n implies sv.contains(v) by {
            let m = choose|m: int|
                0 <= m < graph.edges@.len() && (#[trigger] graph.edges@[m]).0 == u
                    && graph.edges@[m].1 == v;
            assert(visited@[u] && graph.edges@[m].0 == u);
            assert(visited@[graph.edges@[m].1 as int]);
        }
        assert forall|i2: int|
            0 <= i2 < n && reaches(rel, n as int, t as int, i2) implies visited@[i2] by {
            let p = choose|p: Seq<int>|
                crate::relation::is_path(rel, n as int, p) && p.first() == t as int && p.last()
                    == i2;
            assert(sv.contains(t as int));
            lemma_closed_set_reaches(rel, n as int, t as int, sv, p);
        }
    }

    // Keep the stored dependencies-first order, restricted to the visited
    // nodes.
    let mut order: Vec<String> = Vec::new();
    let ghost pos = Seq::<int>::empty();
    let ghost tpos = Seq::<int>::empty();
    let mut a: usize = 0;
    while a < n
        invariant
            n == graph.n(),
            graph.wf(),
            a <= n,
            visited@.len() == n,
            pos.len() == order@.len(),
            tpos.len() == pos.len(),
            forall|mi: int|
                0 <= mi < pos.len() ==> 0 <= #[trigger] pos[mi] < n && visited@[pos[mi]]
                    && order@[mi]@ == graph.id_at(pos[mi]),
            forall|mi: int|
                0 <= mi < tpos.len() ==> 0 <= #[trigger] tpos[mi] < a && graph.topo@[tpos[mi]]
                    as int == pos[mi],
            forall|mi: int, mj: int| 0 <= mi < mj < tpos.len() ==> tpos[mi] < tpos[mj],
            forall|b: int|
                0 <= b < a && visited@[(#[trigger] graph.topo@[b]) as int] ==> (exists|mi: int|
                    0 <= mi < pos.len() && pos[mi] == graph.topo@[b] as int),
        decreases n - a,
    {
        let u = graph.topo[a];
        if visited[u] {
            order.push(graph.ids[u].clone());
            proof {
                let old_pos = pos;
                pos = pos.push(u as int);
                tpos = tpos.push(a as int);
                assert(pos[pos.len() - 1] == u as int);
                assert forall|b: int|
                    0 <= b < a as int + 1 && visited@[(#[trigger] graph.topo@[b]) as int] implies (
                exists|mi: int| 0 <= mi < pos.len() && pos[mi] == graph.topo@[b] as int) by {
                    if b == a as int {
                        assert(pos[pos.len() - 1] == graph.topo@[b] as int);
                    } else {
                        let mi = choose|mi: int|
                            0 <= mi < old_pos.len() && old_pos[mi] == graph.topo@[b] as int;
                        assert(pos[mi] == graph.topo@[b] as int);
                    }
                }
            }
        }
        a += 1;
    }

    proof {
        let dv = order.deep_view();
        assert(forall|mi: int| 0 <= mi < dv.len() ==> #[trigger] dv[mi] == order@[mi]@);
        let ints = graph.topo@.map_values(|x: usize| x as int);
        // Every entry names a node, entries are pairwise distinct.
        assert forall|ma: int, mb: int| 0 <= ma < mb < dv.len() implies dv[ma] != dv[mb] by {
            assert(tpos[ma] < tpos[mb]);
            assert(graph.topo@[tpos[ma]] != graph.topo@[tpos[mb]]);
            assert(pos[ma] != pos[mb]);
            assert(graph.id_at(pos[ma]) != graph.id_at(pos[mb]));
        }
        // Membership: exactly the nodes the target reaches.
        assert forall|i2: int|
            0 <= i2 < n implies (dv.contains(#[trigger] graph.id_at(i2)) <==> reaches(
            rel,
            n as int,
            t as int,
            i2,
        )) by {
            if reaches(rel, n as int, t as int, i2) {
                assert(visited@[i2]);
                lemma_distinct_full_seq_onto(ints, n as int, i2);
                let b = choose|b: int| 0 <= b < ints.len() && ints[b] == i2;
                assert(visited@[(graph.topo@[b]) as int]);
                let mi = choose|mi: int| 0 <= mi < pos.len() && pos[mi] == graph.topo@[b] as int;
                assert(dv[mi] == graph.id_at(i2));
                assert(dv.contains(graph.id_at(i2)));
            }
            if dv.contains(graph.id_at(i2)) {
                let mi = choose|mi: int| 0 <= mi < dv.len() && dv[mi] == graph.id_at(i2);
                assert(graph.id_at(pos[mi]) == graph.id_at(i2));
                assert(pos[mi] == i2);
                assert(visited@[i2]);
            }
        }
        // Order: dependencies first, by the stored order's guarantee.
        assert forall|ma: int, mb: int, i2: int, j2: int|
            #![trigger dv[ma], dv[mb], graph.id_at(i2), graph.id_at(j2)]
            0 <= ma < dv.len() && 0 <= mb < dv.len() && 0 <= i2 < n && 0 <= j2 < n && dv[ma]
                == graph.id_at(i2) && dv[mb] == graph.id_at(j2) && graph.has_edge(
                i2,
                j2,
            ) implies mb < ma by {
            assert(graph.id_at(pos[ma]) == graph.id_at(i2));
            assert(pos[ma] == i2);
            assert(graph.id_at(pos[mb]) == graph.id_at(j2));
            assert(pos[mb] == j2);
            assert(graph.has_edge(
                graph.topo@[tpos[ma]] as int,
                graph.topo@[tpos[mb]] as int,
            ));
            assert(tpos[mb] < tpos[ma]);
            if ma <= mb {
                if ma < mb {
                    assert(tpos[ma] < tpos[mb]);
                }
                assert(false);
            }
        }
        // Every entry is some node's id.
        assert forall|mi: int| 0 <= mi < dv.len() implies graph.has_id(#[trigger] dv[mi]) by {
            assert(dv[mi] == graph.id_at(pos[mi]));
        }
        // The target's id picks out node t alone.
        assert(graph.id_at(t as int) == job_id@);
        assert forall|t2: int|
            0 <= t2 < graph.n() && graph.id_at(t2) == job_id@ implies graph.is_dependency_order(
            t2,
            dv,
        ) by {
            assert(t2 == t as int);
        }
    }
    Ok(order)
}

/// A run order stated against the job map itself: a duplicate-free list of
/// job ids covering exactly the target and its transitive dependencies, in
/// which every dependency precedes every dependent.
pub open spec fn runfile_dependency_order(rf: Runfile, t: int, order: Seq<Seq<char>>) -> bool {
    &&& forall|a: int| 0 <= a < order.len() ==> rf.has_id(#[trigger] order[a])
    &&& forall|a: int, b: int| 0 <= a < b < order.len() ==> order[a] != order[b]
    &&& forall|i: int|
        0 <= i < rf.n() ==> (order.contains(#[trigger] rf.id_at(i)) <==> reaches(
            rf.edge_rel(),
            rf.n(),
            t,
            i,
        ))
    &&& forall|a: int, b: int, i: int, j: int|
        #![trigger order[a], order[b], rf.id_at(i), rf.id_at(j)]
        0 <= a < order.len() && 0 <= b < order.len() && 0 <= i < rf.n() && 0 <= j < rf.n()
            && order[a] == rf.id_at(i) && order[b] == rf.id_at(j) && rf.dep_edge(i, j) ==> b < a
}

/// Resolve the run order for `target`: build the dependency graph of the
/// whole map, then linearize the target and its transitive dependencies,
/// dependencies first.
pub fn resolve_order(runfile: &Runfile, target: &str) -> (r: Result<Vec<String>, OrchestratorError>)
    requires
        runfile.wf(),
    ensures
        match r {
            Ok(order) => {
                &&& runfile.deps_defined()
                &&& runfile.has_id(target@)
                &&& forall|t: int|
                    0 <= t < runfile.n() && runfile.id_at(t) == target@
                        ==> runfile_dependency_order(*runfile, t, order.deep_view())
            },
            Err(OrchestratorError::JobNotFound(id)) => id@ == target@ && !runfile.has_id(target@)
                && runfile.deps_defined(),
            Err(OrchestratorError::UndefinedDependency(d)) => runfile.undefined_dep(d@),
            Err(OrchestratorError::CycleDetected) => {
                &&& runfile.deps_defined()
                &&& forall|ord: Seq<int>|
                    !is_linear_extension(runfile.edge_rel(), runfile.n(), ord)
            },
        },
        (r matches Err(OrchestratorError::UndefinedDependency(_))) <==> !runfile.deps_defined(),
        runfile.deps_defined() && (exists|p: Seq<int>|
            is_cycle(runfile.edge_rel(), runfile.n(), p)) ==> (r matches Err(
            OrchestratorError::CycleDetected,
        )),
{
    let g = match collect_dependencies(runfile) {
        Ok(g) => g,
        Err(e) => {
            return Err(e);
        },
    };
    proof {
        if exists|p: Seq<int>| is_cycle(runfile.edge_rel(), runfile.n(), p) {
            let p = choose|p: Seq<int>| is_cycle(runfile.edge_rel(), runfile.n(), p);
            let ord = choose|ord: Seq<int>|
                is_linear_extension(runfile.edge_rel(), runfile.n(), ord);
            lemma_cycle_trapped(runfile.edge_rel(), runfile.n(), p);
            lemma_trapped_no_extension(runfile.edge_rel(), runfile.n(), p.to_set(), ord);
        }
        assert(g.rel() =~= runfile.edge_rel()) by {
            assert forall|e: (int, int)|
                g.rel().contains(e) == runfile.edge_rel().contains(e) by {
                assert(g.rel().contains(e) == g.has_edge(e.0, e.1));
                assert(runfile.edge_rel().contains(e) == runfile.dep_edge(e.0, e.1));
            }
        }
    }
    let ghost gsnap = g;
    match create_run_order(target, g) {
        Ok(order) => {
            proof {
                assert(runfile.has_id(target@)) by {
                    let i = choose|i: int|
                        0 <= i < gsnap.n() && gsnap.id_at(i) == target@;
                    assert(runfile.id_at(i) == target@);
                }
                let dv = order.deep_view();
                assert forall|t: int|
                    0 <= t < runfile.n() && runfile.id_at(t)
                        == target@ implies runfile_dependency_order(*runfile, t, dv) by {
                    assert(gsnap.id_at(t) == target@);
                    assert(gsnap.is_dependency_order(t, dv));
                    assert forall|a: int| 0 <= a < dv.len() implies runfile.has_id(
                        #[trigger] dv[a],
                    ) by {
                        assert(gsnap.has_id(dv[a]));
                        let i = choose|i: int|
                            0 <= i < gsnap.n() && gsnap.id_at(i) == dv[a];
                        assert(runfile.id_at(i) == dv[a]);
                    }
                    assert forall|i: int|
                        0 <= i < runfile.n() implies (dv.contains(#[trigger] runfile.id_at(i))
                        <==> reaches(runfile.edge_rel(), runfile.n(), t, i)) by {
                        assert(runfile.id_at(i) == gsnap.id_at(i));
                        assert(dv.contains(gsnap.id_at(i)) <==> reaches(
                            gsnap.rel(),
                            gsnap.n(),
                            t,
                            i,
                        ));
                        assert(gsnap.rel() == runfile.edge_rel());
                    }
                    assert forall|a: int, b: int, i: int, j: int|
                        #![trigger dv[a], dv[b], runfile.id_at(i), runfile.id_at(j)]
                        0 <= a < dv.len() && 0 <= b < dv.len() && 0 <= i < runfile.n() && 0 <= j
                            < runfile.n() && dv[a] == runfile.id_at(i) && dv[b] == runfile.id_at(j)
                            && runfile.dep_edge(i, j) implies b < a by {
                        assert(dv[a] == gsnap.id_at(i) && dv[b] == gsnap.id_at(j));
                        assert(gsnap.has_edge(i, j));
                    }
                }
            }
            Ok(order)
        },
        Err(e) => {
            proof {
                assert(!runfile.has_id(target@)) by {
                    if runfile.has_id(target@) {
                        let i = choose|i: int|
                            0 <= i < runfile.n() && runfile.id_at(i) == target@;
                        assert(gsnap.id_at(i) == target@);
                        assert(gsnap.has_id(target@));
                    }
                }
            }
            let id = e.job_id().to_owned();
            Err(OrchestratorError::JobNotFound(id))
        },
    }
}

/// When no unemitted node is ready while some node is still unemitted, the
/// unemitted nodes are trapped: each depends on another of them, so no
/// dependencies-first ordering of the whole map exists.
proof fn lemma_stall_no_extension(
    rf: Runfile,
    edges: Seq<(usize, usize)>,
    topo: Seq<usize>,
    emitted: Seq<bool>,
)
    requires
        emitted.len() == rf.n(),
        edges_sound(rf, edges),
        topo.len() < rf.n(),
        forall|a: int| 0 <= a < topo.len() ==> (#[trigger] topo[a]) < rf.n(),
        forall|a: int, b: int| 0 <= a < b < topo.len() ==> topo[a] != topo[b],
        forall|v: int|
            0 <= v < rf.n() ==> (emitted[v] <==> exists|a: int|
                0 <= a < topo.len() && (#[trigger] topo[a]) as int == v),
        forall|u: int|
            0 <= u < emitted.len() && !emitted[u] ==> !#[trigger] all_deps_emitted(
                edges,
                emitted,
                u,
            ),
    ensures
        forall|ord: Seq<int>| !is_linear_extension(rf.edge_rel(), rf.n(), ord),
{
    let n = rf.n();
    let rel = rf.edge_rel();
    let s = Set::new(|v: int| 0 <= v < n && !emitted[v]);
    assert(trapped(rel, n, s)) by {
        reveal(trapped);
        let ints = topo.map_values(|x: usize| x as int);
        // Some node is unemitted, since fewer than n were emitted.
        lemma_short_distinct_seq_misses(ints, n);
        let x = choose|x: int| 0 <= x < n && !ints.contains(x);
        assert(!emitted[x]) by {
            if emitted[x] {
                let a = choose|a: int| 0 <= a < topo.len() && (#[trigger] topo[a]) as int == x;
                assert(ints[a] == x);
            }
        }
        assert(s.contains(x));
        // Every unemitted node depends on an unemitted node.
        assert forall|v: int| #[trigger] s.contains(v) implies exists|w: int|
            s.contains(w) && rel.contains((v, w)) by {
            assert(!all_deps_emitted(edges, emitted, v));
            assert(exists|m: int|
                0 <= m < edges.len() && (#[trigger] edges[m]).0 == v && !emitted[edges[m].1
                    as int]) by {
                reveal(all_deps_emitted);
            }
            let m = choose|m: int|
                0 <= m < edges.len() && (#[trigger] edges[m]).0 == v && !emitted[edges[m].1
                    as int];
            let w = edges[m].1 as int;
            assert(rf.dep_edge(v, w));
            assert(s.contains(w) && rel.contains((v, w)));
        }
    }
    assert forall|ord: Seq<int>| !is_linear_extension(rel, n, ord) by {
        if is_linear_extension(rel, n, ord) {
            lemma_trapped_no_extension(rel, n, s, ord);
        }
    }
}

/// Total number of `needs` entries of the jobs before index `i`.
spec fn needs_before(rf: Runfile, i: int) -> int
    decreases i,
{
    if i <= 0 {
        0
    } else {
        needs_before(rf, i - 1) + rf.jobs@[i - 1].1.needs@.len()
    }
}

/// Total number of `needs` entries of the whole map.
pub closed spec fn total_needs(rf: Runfile) -> int {
    needs_before(rf, rf.n())
}

proof fn lemma_needs_before_step(rf: Runfile, i: int)
    requires
        0 <= i,
    ensures
        needs_before(rf, i + 1) == needs_before(rf, i) + rf.jobs@[i].1.needs@.len(),
{
}

} // verus!
