//! Spec-level theory of a finite directed relation over integer node ids:
//! paths, reachability, cycles, linear extensions, and the lemmas the
//! dependency-graph code rests on. An edge `(u, v)` reads "u depends on v".

use vstd::prelude::*;

verus! {

/// `p` is a walk along `rel`: at least one node, every node in `[0, n)`,
/// consecutive nodes joined by an edge.
pub open spec fn is_path(rel: Set<(int, int)>, n: int, p: Seq<int>) -> bool {
    &&& p.len() >= 1
    &&& forall|i: int| 0 <= i < p.len() ==> 0 <= #[trigger] p[i] < n
    &&& forall|i: int| #![trigger p[i], p[i + 1]]
        0 <= i < p.len() - 1 ==> rel.contains((p[i], p[i + 1]))
}

/// `v` is reachable from `u` (in zero or more steps).
pub open spec fn reaches(rel: Set<(int, int)>, n: int, u: int, v: int) -> bool {
    exists|p: Seq<int>| is_path(rel, n, p) && p.first() == u && p.last() == v
}

/// A cycle: a walk of at least one edge returning to its start.
pub open spec fn is_cycle(rel: Set<(int, int)>, n: int, p: Seq<int>) -> bool {
    is_path(rel, n, p) && p.len() >= 2 && p.first() == p.last()
}

/// `ord` lists each node of `[0, n)` exactly once, and every dependency
/// comes before its dependent.
pub open spec fn is_linear_extension(rel: Set<(int, int)>, n: int, ord: Seq<int>) -> bool {
    &&& ord.len() == n
    &&& forall|a: int| 0 <= a < ord.len() ==> 0 <= #[trigger] ord[a] < n
    &&& forall|a: int, b: int| 0 <= a < b < ord.len() ==> ord[a] != ord[b]
    &&& forall|a: int, b: int|
        0 <= a < ord.len() && 0 <= b < ord.len() && rel.contains((#[trigger] ord[a], #[trigger] ord[b]))
            ==> b < a
}

/// A nonempty set of nodes each of which depends on a node of the set.
/// Such a set can never be linearized, and every cycle yields one. Kept
/// opaque: its inner quantifiers are needed only inside the lemmas about it.
#[verifier::opaque]
pub open spec fn trapped(rel: Set<(int, int)>, n: int, s: Set<int>) -> bool {
    &&& exists|u: int| s.contains(u)
    &&& forall|u: int| s.contains(u) ==> 0 <= u < n
    &&& forall|u: int| #[trigger] s.contains(u) ==> exists|v: int| s.contains(v) && rel.contains((u, v))
}

/// A sequence of distinct values drawn from `[0, n)` of length `n` hits
/// every value of `[0, n)`.
pub proof fn lemma_distinct_full_seq_onto(ord: Seq<int>, n: int, x: int)
    requires
        ord.len() == n,
        forall|a: int| 0 <= a < ord.len() ==> 0 <= #[trigger] ord[a] < n,
        forall|a: int, b: int| 0 <= a < b < ord.len() ==> ord[a] != ord[b],
        0 <= x < n,
    ensures
        exists|a: int| 0 <= a < ord.len() && ord[a] == x,
{
    let s = ord.to_set();
    ord.unique_seq_to_set();
    let range = Set::new(|y: int| 0 <= y < n);
    assert(range.contains(x));
    lemma_int_range_cardinality(n);
    assert(s.subset_of(range)) by {
        assert forall|y: int| s.contains(y) implies range.contains(y) by {
            let a = choose|a: int| 0 <= a < ord.len() && ord[a] == y;
            assert(0 <= ord[a] < n);
        }
    }
    if !s.contains(x) {
        let smaller = range.remove(x);
        assert(s.subset_of(smaller));
        vstd::set_lib::lemma_len_subset(s, smaller);
        assert(smaller.len() == n - 1);
        assert(false);
    }
    assert(s.contains(x));
    assert(ord.contains(x));
    let a = choose|a: int| 0 <= a < ord.len() && ord[a] == x;
    assert(0 <= a < ord.len() && ord[a] == x);
}

/// The cardinality of `{ y | 0 <= y < n }` is `n`.
pub proof fn lemma_int_range_cardinality(n: int)
    requires
        n >= 0,
    ensures
        Set::new(|y: int| 0 <= y < n).finite(),
        Set::new(|y: int| 0 <= y < n).len() == n,
    decreases n,
{
    let s = Set::new(|y: int| 0 <= y < n);
    if n == 0 {
        assert(s =~= Set::empty());
    } else {
        lemma_int_range_cardinality(n - 1);
        let s0 = Set::new(|y: int| 0 <= y < n - 1);
        assert(s =~= s0.insert(n - 1));
    }
}

/// A sequence of distinct values drawn from `[0, n)` that is shorter than
/// `n` misses some value of `[0, n)`.
pub proof fn lemma_short_distinct_seq_misses(ord: Seq<int>, n: int)
    requires
        ord.len() < n,
        forall|a: int| 0 <= a < ord.len() ==> 0 <= #[trigger] ord[a] < n,
        forall|a: int, b: int| 0 <= a < b < ord.len() ==> ord[a] != ord[b],
    ensures
        exists|x: int| 0 <= x < n && !ord.contains(x),
{
    broadcast use vstd::seq_lib::seq_to_set_is_finite;

    let s = ord.to_set();
    ord.unique_seq_to_set();
    let range = Set::new(|y: int| 0 <= y < n);
    lemma_int_range_cardinality(n);
    if forall|x: int| 0 <= x < n ==> ord.contains(x) {
        assert(range.subset_of(s)) by {
            assert forall|y: int| range.contains(y) implies s.contains(y) by {
                assert(ord.contains(y));
            }
        }
        vstd::set_lib::lemma_len_subset(range, s);
        assert(false);
    }
    let x = choose|x: int| 0 <= x < n && !ord.contains(x);
    assert(0 <= x < n && !ord.contains(x));
}

/// A trapped set defeats every would-be linear extension: the member of the
/// set placed earliest in the extension would still need an even earlier one.
pub proof fn lemma_trapped_no_extension(rel: Set<(int, int)>, n: int, s: Set<int>, ord: Seq<int>)
    requires
        trapped(rel, n, s),
        ord.len() == n,
        forall|a: int| 0 <= a < ord.len() ==> 0 <= #[trigger] ord[a] < n,
        forall|a: int, b: int| 0 <= a < b < ord.len() ==> ord[a] != ord[b],
    ensures
        !is_linear_extension(rel, n, ord),
{
    reveal(trapped);
    if is_linear_extension(rel, n, ord) {
        let u0 = s.choose();
        assert(s.contains(u0));
        lemma_distinct_full_seq_onto(ord, n, u0);
        let a0 = choose|a: int| 0 <= a < ord.len() && ord[a] == u0;
        let m = min_pos_in(ord, s, a0);
        assert(0 <= m < ord.len() && s.contains(ord[m]));
        assert(forall|b: int| 0 <= b < m ==> !s.contains(#[trigger] ord[b]));
        let u = ord[m];
        let v = choose|v: int| s.contains(v) && rel.contains((u, v));
        lemma_distinct_full_seq_onto(ord, n, v);
        let b = choose|b: int| 0 <= b < ord.len() && ord[b] == v;
        assert(rel.contains((ord[m], ord[b])));
        assert(b < m);
        assert(!s.contains(ord[b]));
        assert(false);
    }
}

/// The least position `m <= a` such that `ord[m]` is in `s`, given that
/// `ord[a]` is.
proof fn min_pos_in(ord: Seq<int>, s: Set<int>, a: int) -> (m: int)
    requires
        0 <= a < ord.len(),
        s.contains(ord[a]),
    ensures
        0 <= m <= a,
        s.contains(ord[m]),
        forall|b: int| 0 <= b < m ==> !s.contains(#[trigger] ord[b]),
    decreases a,
{
    if exists|b: int| 0 <= b < a && s.contains(#[trigger] ord[b]) {
        let b = choose|b: int| 0 <= b < a && s.contains(#[trigger] ord[b]);
        min_pos_in(ord, s, b)
    } else {
        a
    }
}

/// Every cycle yields a trapped set: its vertices.
#[verifier::rlimit(50)]
pub proof fn lemma_cycle_trapped(rel: Set<(int, int)>, n: int, p: Seq<int>)
    requires
        is_cycle(rel, n, p),
    ensures
        trapped(rel, n, p.to_set()),
{
    reveal(trapped);
    let s = p.to_set();
    assert(p.contains(p[0]));
    assert(s.contains(p[0]));
    assert forall|u: int| #[trigger] s.contains(u) implies exists|v: int|
        s.contains(v) && rel.contains((u, v)) by {
        assert(p.contains(u));
        let i = choose|i: int| 0 <= i < p.len() && p[i] == u;
        lemma_cycle_successor(rel, n, p, i);
        let v = choose|v: int| p.contains(v) && rel.contains((p[i], v));
        assert(s.contains(v) && rel.contains((u, v)));
    }
    assert forall|u: int| #[trigger] s.contains(u) implies 0 <= u < n by {
        assert(p.contains(u));
        let i = choose|i: int| 0 <= i < p.len() && p[i] == u;
        assert(0 <= p[i] < n);
    }
}

/// Along a cycle, every vertex has an edge to another vertex of the cycle.
proof fn lemma_cycle_successor(rel: Set<(int, int)>, n: int, p: Seq<int>, i: int)
    requires
        is_cycle(rel, n, p),
        0 <= i < p.len(),
    ensures
        exists|v: int| p.contains(v) && rel.contains((p[i], v)),
{
    if i < p.len() - 1 {
        assert(rel.contains((p[i], p[i + 1])));
        assert(p.contains(p[i + 1]));
    } else {
        // The last vertex equals the first; follow the first edge.
        let j: int = 0;
        assert(p[i] == p.last() && p.last() == p.first() && p.first() == p[j]);
        assert(rel.contains((p[j], p[j + 1])));
        assert(p.contains(p[j + 1]));
    }
}

/// A path extends along an edge.
pub proof fn lemma_path_push(rel: Set<(int, int)>, n: int, p: Seq<int>, w: int)
    requires
        is_path(rel, n, p),
        rel.contains((p.last(), w)),
        0 <= w < n,
    ensures
        is_path(rel, n, p.push(w)),
{
    let q = p.push(w);
    assert forall|i: int| 0 <= i < q.len() implies 0 <= #[trigger] q[i] < n by {
        if i < p.len() {
            assert(q[i] == p[i]);
        } else {
            assert(q[i] == w);
        }
    }
    assert forall|i: int| #![trigger q[i], q[i + 1]]
        0 <= i < q.len() - 1 implies rel.contains((q[i], q[i + 1])) by {
        if i < p.len() - 1 {
            assert(q[i] == p[i] && q[i + 1] == p[i + 1]);
            assert(rel.contains((p[i], p[i + 1])));
        } else {
            assert(q[i] == p[p.len() - 1] && q[i + 1] == w);
            assert(p[p.len() - 1] == p.last());
        }
    }
}

/// Reachability extends along an edge.
pub proof fn lemma_reaches_step(rel: Set<(int, int)>, n: int, u: int, v: int, w: int)
    requires
        reaches(rel, n, u, v),
        rel.contains((v, w)),
        0 <= w < n,
    ensures
        reaches(rel, n, u, w),
{
    let p = choose|p: Seq<int>| is_path(rel, n, p) && p.first() == u && p.last() == v;
    lemma_path_push(rel, n, p, w);
    let q = p.push(w);
    assert(q.first() == u && q.last() == w);
}

/// Every node reaches itself.
pub proof fn lemma_reaches_self(rel: Set<(int, int)>, n: int, u: int)
    requires
        0 <= u < n,
    ensures
        reaches(rel, n, u, u),
{
    let p = seq![u];
    assert(is_path(rel, n, p));
    assert(p.first() == u && p.last() == u);
}

/// A set that contains `t` and is closed under the relation's edges
/// contains everything reachable from `t`.
pub proof fn lemma_closed_set_reaches(
    rel: Set<(int, int)>,
    n: int,
    t: int,
    s: Set<int>,
    p: Seq<int>,
)
    requires
        s.contains(t),
        forall|u: int, v: int| s.contains(u) && rel.contains((u, v)) && 0 <= v < n ==> s.contains(v),
        is_path(rel, n, p),
        p.first() == t,
    ensures
        s.contains(p.last()),
    decreases p.len(),
{
    if p.len() == 1 {
        assert(p.last() == t);
    } else {
        let q = p.drop_last();
        assert(is_path(rel, n, q)) by {
            assert forall|i: int| 0 <= i < q.len() implies 0 <= #[trigger] q[i] < n by {
                assert(q[i] == p[i]);
            }
            assert forall|i: int| #![trigger q[i], q[i + 1]]
                0 <= i < q.len() - 1 implies rel.contains((q[i], q[i + 1])) by {
                assert(q[i] == p[i] && q[i + 1] == p[i + 1]);
                assert(rel.contains((p[i], p[i + 1])));
            }
        }
        assert(q.first() == t);
        lemma_closed_set_reaches(rel, n, t, s, q);
        let k = p.len() - 2;
        assert(rel.contains((p[k], p[k + 1])));
        assert(q.last() == p[k]);
        assert(p.last() == p[k + 1]);
        assert(0 <= p.last() < n);
    }
}

} // verus!
