//! Traversal algorithms on graphs, written against the adjacency capability:
//! a weak-connectivity check via component compression and a breadth-first
//! shortest-path search, together with the reachability notions their
//! contracts are stated in.

use vstd::prelude::*;

use std::collections::VecDeque;

use crate::HasEdge;
use crate::adj_wf;
use crate::graph::{Graph, Handle};
use crate::unweighted::{
    Unweighted, chosen_targets, lemma_chosen_targets_membership, pairwise_decisions,
};

verus! {

/// `p` is a directed path: a non-empty sequence of valid vertex indices in
/// which each vertex has an edge to the next.
pub open spec fn is_path(adj: Seq<Seq<int>>, p: Seq<int>) -> bool {
    &&& p.len() >= 1
    &&& forall|i: int| 0 <= i < p.len() ==> 0 <= #[trigger] p[i] < adj.len()
    &&& forall|i: int| 0 <= i < p.len() - 1 ==> adj[#[trigger] p[i]].contains(p[i + 1])
}

/// Vertex `t` can be reached from vertex `s` by following edges forward.
pub open spec fn reaches(adj: Seq<Seq<int>>, s: int, t: int) -> bool {
    exists|p: Seq<int>| is_path(adj, p) && p.first() == s && p.last() == t
}

/// An edge runs between `u` and `v` in some direction.
pub open spec fn uedge(adj: Seq<Seq<int>>, u: int, v: int) -> bool {
    adj[u].contains(v) || adj[v].contains(u)
}

/// `p` is an undirected path: a non-empty sequence of valid vertex indices in
/// which each vertex shares an edge, in some direction, with the next.
pub open spec fn is_upath(adj: Seq<Seq<int>>, p: Seq<int>) -> bool {
    &&& p.len() >= 1
    &&& forall|i: int| 0 <= i < p.len() ==> 0 <= #[trigger] p[i] < adj.len()
    &&& forall|i: int| 0 <= i < p.len() - 1 ==> uedge(adj, #[trigger] p[i], p[i + 1])
}

/// Vertex `t` can be reached from vertex `s` by following edges in either
/// direction.
pub open spec fn ureaches(adj: Seq<Seq<int>>, s: int, t: int) -> bool {
    exists|p: Seq<int>| is_upath(adj, p) && p.first() == s && p.last() == t
}

/// The graph forms a single connected mass when every edge is taken as
/// symmetric: any two vertices are joined by an undirected path. This is the
/// weak-connectivity notion the connectivity check decides; an empty graph is
/// trivially connected.
pub open spec fn weakly_connected(adj: Seq<Seq<int>>) -> bool {
    forall|u: int, v: int| 0 <= u < adj.len() && 0 <= v < adj.len() ==> #[trigger] ureaches(adj, u, v)
}

/// Undirected reachability is reflexive on valid vertices.
pub proof fn lemma_ureaches_refl(adj: Seq<Seq<int>>, v: int)
    requires
        0 <= v < adj.len(),
    ensures
        ureaches(adj, v, v),
{
    let p = seq![v];
    assert(is_upath(adj, p) && p.first() == v && p.last() == v);
}

/// Undirected reachability extends along one more edge.
pub proof fn lemma_ureaches_step(adj: Seq<Seq<int>>, s: int, u: int, v: int)
    requires
        ureaches(adj, s, u),
        0 <= v < adj.len(),
        uedge(adj, u, v),
    ensures
        ureaches(adj, s, v),
{
    let p = choose|p: Seq<int>| is_upath(adj, p) && p.first() == s && p.last() == u;
    let q = p.push(v);
    assert(q.last() == v && q.first() == s);
    assert forall|i: int| 0 <= i < q.len() - 1 implies uedge(adj, #[trigger] q[i], q[i + 1]) by {
        if i < p.len() - 1 {
            assert(q[i] == p[i] && q[i + 1] == p[i + 1]);
            assert(uedge(adj, p[i], p[i + 1]));
        } else {
            assert(q[i] == p.last() && q[i + 1] == v);
        }
    }
    assert(is_upath(adj, q));
}

/// Undirected reachability is transitive.
pub proof fn lemma_ureaches_trans(adj: Seq<Seq<int>>, a: int, b: int, c: int)
    requires
        ureaches(adj, a, b),
        ureaches(adj, b, c),
    ensures
        ureaches(adj, a, c),
{
    let p = choose|p: Seq<int>| is_upath(adj, p) && p.first() == a && p.last() == b;
    let q = choose|q: Seq<int>| is_upath(adj, q) && q.first() == b && q.last() == c;
    if q.len() == 1 {
        assert(b == c);
    } else {
        let r = p + q.drop_first();
        assert(r.len() == p.len() + q.len() - 1);
        assert forall|i: int| 0 <= i < r.len() implies 0 <= #[trigger] r[i] < adj.len() by {
            if i < p.len() {
                assert(r[i] == p[i]);
            } else {
                assert(r[i] == q[i - p.len() + 1]);
            }
        }
        assert forall|i: int| 0 <= i < r.len() - 1 implies uedge(adj, #[trigger] r[i], r[i + 1]) by {
            if i < p.len() - 1 {
                assert(r[i] == p[i] && r[i + 1] == p[i + 1]);
                assert(uedge(adj, p[i], p[i + 1]));
            } else if i == p.len() - 1 {
                assert(r[i] == p.last() && r[i + 1] == q[1]);
                assert(uedge(adj, q[0], q[1]));
            } else {
                let j = i - p.len() + 1;
                assert(r[i] == q[j] && r[i + 1] == q[j + 1]);
                assert(uedge(adj, q[j], q[j + 1]));
            }
        }
        assert(is_upath(adj, r));
        assert(r.first() == a && r.last() == c);
    }
}

/// An undirected path can be walked backward.
proof fn lemma_upath_reverse(adj: Seq<Seq<int>>, p: Seq<int>)
    requires
        is_upath(adj, p),
    ensures
        ureaches(adj, p.last(), p.first()),
    decreases p.len(),
{
    if p.len() == 1 {
        lemma_ureaches_refl(adj, p.first());
    } else {
        let q = p.drop_last();
        assert forall|i: int| 0 <= i < q.len() - 1 implies uedge(adj, #[trigger] q[i], q[i + 1]) by {
            assert(q[i] == p[i] && q[i + 1] == p[i + 1]);
            assert(uedge(adj, p[i], p[i + 1]));
        }
        assert(is_upath(adj, q));
        lemma_upath_reverse(adj, q);
        let mid = p[p.len() - 2];
        assert(uedge(adj, mid, p.last()));
        lemma_ureaches_refl(adj, p.last());
        lemma_ureaches_step(adj, p.last(), p.last(), mid);
        lemma_ureaches_trans(adj, p.last(), mid, p.first());
    }
}

/// Undirected reachability is symmetric.
pub proof fn lemma_ureaches_sym(adj: Seq<Seq<int>>, a: int, b: int)
    requires
        ureaches(adj, a, b),
    ensures
        ureaches(adj, b, a),
{
    let p = choose|p: Seq<int>| is_upath(adj, p) && p.first() == a && p.last() == b;
    lemma_upath_reverse(adj, p);
}

/// A directed path whose first vertex lies in a set closed under outgoing
/// edges ends in that set.
proof fn lemma_path_stays_closed(adj: Seq<Seq<int>>, p: Seq<int>, f: spec_fn(int) -> bool)
    requires
        is_path(adj, p),
        f(p.first()),
        forall|u: int, v: int|
            0 <= u < adj.len() && f(u) && #[trigger] adj[u].contains(v) ==> f(v),
    ensures
        f(p.last()),
    decreases p.len(),
{
    if p.len() > 1 {
        let q = p.drop_last();
        assert forall|i: int| 0 <= i < q.len() - 1 implies adj[#[trigger] q[i]].contains(q[i + 1])
        by {
            assert(q[i] == p[i] && q[i + 1] == p[i + 1]);
            assert(adj[p[i]].contains(p[i + 1]));
        }
        assert(is_path(adj, q));
        lemma_path_stays_closed(adj, q, f);
        assert(adj[p[p.len() - 2]].contains(p.last()));
    }
}

/// An undirected path whose first vertex lies in a set closed under edges in
/// either direction ends in that set.
proof fn lemma_upath_stays_closed(adj: Seq<Seq<int>>, p: Seq<int>, f: spec_fn(int) -> bool)
    requires
        is_upath(adj, p),
        f(p.first()),
        forall|u: int, v: int|
            0 <= u < adj.len() && 0 <= v < adj.len() && f(u) && #[trigger] uedge(adj, u, v) ==> f(
                v,
            ),
    ensures
        f(p.last()),
    decreases p.len(),
{
    if p.len() > 1 {
        let q = p.drop_last();
        assert forall|i: int| 0 <= i < q.len() - 1 implies uedge(adj, #[trigger] q[i], q[i + 1])
        by {
            assert(q[i] == p[i] && q[i + 1] == p[i + 1]);
            assert(uedge(adj, p[i], p[i + 1]));
        }
        assert(is_upath(adj, q));
        lemma_upath_stays_closed(adj, q, f);
        assert(uedge(adj, p[p.len() - 2], p.last()));
    }
}

/// A graph without vertices is weakly connected.
pub proof fn lemma_empty_graph_connected(adj: Seq<Seq<int>>)
    requires
        adj.len() == 0,
    ensures
        weakly_connected(adj),
{
}

/// A graph with a single vertex is weakly connected, whatever its edges.
pub proof fn lemma_single_vertex_connected(adj: Seq<Seq<int>>)
    requires
        adj.len() == 1,
    ensures
        weakly_connected(adj),
{
    assert forall|u: int, v: int| 0 <= u < adj.len() && 0 <= v < adj.len() implies #[trigger] ureaches(
        adj,
        u,
        v,
    ) by {
        lemma_ureaches_refl(adj, 0);
    }
}

/// Directed reachability is reflexive on valid vertices.
pub proof fn lemma_reaches_refl(adj: Seq<Seq<int>>, v: int)
    requires
        0 <= v < adj.len(),
    ensures
        reaches(adj, v, v),
{
    let p = seq![v];
    assert(is_path(adj, p) && p.first() == v && p.last() == v);
}

/// Directed reachability extends along one more edge.
pub proof fn lemma_reaches_step(adj: Seq<Seq<int>>, s: int, u: int, v: int)
    requires
        reaches(adj, s, u),
        0 <= v < adj.len(),
        adj[u].contains(v),
    ensures
        reaches(adj, s, v),
{
    let p = choose|p: Seq<int>| is_path(adj, p) && p.first() == s && p.last() == u;
    let q = p.push(v);
    assert(q.last() == v && q.first() == s);
    assert forall|i: int| 0 <= i < q.len() - 1 implies adj[#[trigger] q[i]].contains(q[i + 1]) by {
        if i < p.len() - 1 {
            assert(q[i] == p[i] && q[i + 1] == p[i + 1]);
            assert(adj[p[i]].contains(p[i + 1]));
        } else {
            assert(q[i] == p.last() && q[i + 1] == v);
        }
    }
    assert(is_path(adj, q));
}

/// The number of unset entries of a marking sequence: the measure that
/// traversals drain.
pub open spec fn count_unset<T>(s: Seq<T>, unset: spec_fn(T) -> bool) -> nat
    decreases s.len(),
{
    if s.len() == 0 {
        0
    } else {
        count_unset(s.drop_last(), unset) + if unset(s.last()) {
            1nat
        } else {
            0nat
        }
    }
}

/// Overwriting an unset entry with a set one lowers the count by one.
proof fn lemma_count_unset_update<T>(s: Seq<T>, unset: spec_fn(T) -> bool, i: int, x: T)
    requires
        0 <= i < s.len(),
        unset(s[i]),
        !unset(x),
    ensures
        count_unset(s.update(i, x), unset) + 1 == count_unset(s, unset),
    decreases s.len(),
{
    let t = s.update(i, x);
    if i == s.len() - 1 {
        assert(t.drop_last() =~= s.drop_last());
        assert(!unset(t.last()) && unset(s.last()));
    } else {
        assert(t.drop_last() =~= s.drop_last().update(i, x));
        assert(t.last() == s.last());
        lemma_count_unset_update(s.drop_last(), unset, i, x);
    }
}

/// A vertex is discovered by the breadth-first search when it is the start
/// vertex or a predecessor has been recorded for it.
spec fn discovered(seen: Seq<Option<usize>>, s: int, v: int) -> bool {
    v == s || seen[v] is Some
}

/// A vertex is processed when every target of its outgoing edges has been
/// discovered, one level down at the most.
spec fn processed(
    a: Seq<Seq<int>>,
    seen: Seq<Option<usize>>,
    dist: Seq<int>,
    s: int,
    v: int,
) -> bool {
    forall|w: int| #[trigger] a[v].contains(w) ==> discovered(seen, s, w) && dist[w] <= dist[v] + 1
}

/// The frontier property of the breadth-first search: while every discovered
/// vertex below level `level` is processed, a path from the start shorter
/// than `level` edges can only end in a discovered vertex whose recorded
/// level is no larger than the path's edge count.
proof fn lemma_bfs_frontier(
    a: Seq<Seq<int>>,
    seen: Seq<Option<usize>>,
    dist: Seq<int>,
    s: int,
    level: int,
    p: Seq<int>,
)
    requires
        seen.len() == a.len(),
        dist.len() == a.len(),
        0 <= s < a.len(),
        dist[s] == 0,
        is_path(a, p),
        p.first() == s,
        p.len() - 1 < level,
        forall|v: int|
            0 <= v < a.len() && discovered(seen, s, v) ==> processed(a, seen, dist, s, v) || dist[v]
                >= level,
    ensures
        discovered(seen, s, p.last()),
        dist[p.last()] <= p.len() - 1,
    decreases p.len(),
{
    if p.len() > 1 {
        let q = p.drop_last();
        assert forall|i: int| 0 <= i < q.len() - 1 implies a[#[trigger] q[i]].contains(q[i + 1])
        by {
            assert(q[i] == p[i] && q[i + 1] == p[i + 1]);
            assert(a[p[i]].contains(p[i + 1]));
        }
        assert(is_path(a, q));
        lemma_bfs_frontier(a, seen, dist, s, level, q);
        let u = q.last();
        assert(processed(a, seen, dist, s, u));
        assert(a[u].contains(p.last()));
    }
}

/// The predecessor map is well formed: every recorded predecessor is a
/// discovered vertex with an edge to the vertex it was recorded for, one step
/// closer to the start.
spec fn preds_wf(a: Seq<Seq<int>>, seen: Seq<Option<usize>>, dist: Seq<int>, s: int) -> bool {
    forall|v: int|
        0 <= v < seen.len() && v != s && (#[trigger] seen[v]) is Some ==> {
            let u = seen[v]->0 as int;
            &&& 0 <= u < seen.len()
            &&& discovered(seen, s, u)
            &&& a[u].contains(v)
            &&& dist[v] == dist[u] + 1
        }
}

/// The entries of the search queue are valid discovered vertices.
spec fn queue_wf(q: Seq<usize>, seen: Seq<Option<usize>>, s: int, n: int) -> bool {
    forall|j: int| 0 <= j < q.len() ==> #[trigger] q[j] < n && discovered(seen, s, q[j] as int)
}

/// Every entry that a marking sequence leaves unset counts as unset.
spec fn none_unset() -> spec_fn(Option<usize>) -> bool {
    |x: Option<usize>| x is None
}

/// Every unmarked entry of a boolean marking sequence counts as unset.
spec fn false_unset() -> spec_fn(bool) -> bool {
    |b: bool| !b
}

/// Returns whether `x` occurs in `v`.
fn seq_has(v: &Vec<usize>, x: usize) -> (r: bool)
    ensures
        r == v@.contains(x),
{
    for m in 0..v.len()
        invariant
            forall|j: int| 0 <= j < m ==> v@[j] != x,
    {
        if v[m] == x {
            return true;
        }
    }
    false
}

/// An edge between component labels `j` and `l`, in either direction: one
/// recorded the other as reachable during the labeling pass.
spec fn label_edge(conns: Seq<Vec<usize>>, j: int, l: int) -> bool {
    conns[l]@.contains(j as usize) || conns[j]@.contains(l as usize)
}

/// What the labeling pass guarantees: every vertex carries a component label;
/// each label has a seed vertex that reaches, in the undirected sense, every
/// vertex of its component; every edge either stays inside a component or is
/// recorded as a cross-component adjacency; and every recorded adjacency
/// joins two components whose seeds are connected in the undirected sense.
spec fn labeling_wf(
    a: Seq<Seq<int>>,
    labels: Seq<Option<usize>>,
    conns: Seq<Vec<usize>>,
    seeds: Seq<int>,
) -> bool {
    &&& labels.len() == a.len()
    &&& seeds.len() == conns.len()
    &&& forall|v: int|
        0 <= v < labels.len() ==> (#[trigger] labels[v]) is Some && (labels[v]->0 as int) < conns.len()
            && ureaches(a, seeds[labels[v]->0 as int], v)
    &&& forall|z: int|
        0 <= z < seeds.len() ==> 0 <= #[trigger] seeds[z] < a.len() && labels[seeds[z]] == Some(
            z as usize,
        )
    &&& forall|v: int, j: int|
        0 <= v < labels.len() && 0 <= j < a[v].len() ==> labels[#[trigger] a[v][j]] is Some && (
        labels[a[v][j]]->0 == labels[v]->0 || conns[labels[v]->0 as int]@.contains(labels[a[v][j]]->0))
    &&& forall|z: int, m: int|
        0 <= z < conns.len() && 0 <= m < conns[z]@.len() ==> ((#[trigger] conns[z]@[m]) as int)
            < conns.len() && ureaches(a, seeds[z], seeds[conns[z]@[m] as int])
}

impl<V, E> Graph<V, E> where Graph<V, E>: HasEdge {
    /// The labeling pass of the connectivity check: scans vertices in index
    /// order and, for every vertex not yet labeled, runs an iterative
    /// depth-first traversal over outgoing edges, giving every vertex reached
    /// the same fresh component label. Whenever an edge leads to a vertex
    /// already carrying a different label, that label is recorded as a
    /// cross-component adjacency of the current component.
    #[verifier::loop_isolation(false)]
    fn label_components(&self) -> (res: (Vec<Option<usize>>, Vec<Vec<usize>>, Ghost<Seq<int>>))
        requires
            adj_wf(self.adj()),
            self.adj().len() == self.spec_size(),
        ensures
            labeling_wf(self.adj(), res.0@, res.1@, res.2@),
    {
        let ghost a = self.adj();
        let n = self.size();
        let mut labels: Vec<Option<usize>> = Vec::new();
        for k in 0..n
            invariant
                labels@.len() == k,
                forall|j: int| 0 <= j < k ==> #[trigger] labels@[j] is None,
        {
            labels.push(None);
        }
        let mut conns: Vec<Vec<usize>> = Vec::new();
        let ghost mut seeds: Seq<int> = Seq::empty();

        for i in 0..n
            invariant
                labels@.len() == n,
                seeds.len() == conns@.len(),
                forall|v: int| 0 <= v < i ==> (#[trigger] labels@[v]) is Some,
                forall|v: int|
                    0 <= v < n && (#[trigger] labels@[v]) is Some ==> (labels@[v]->0 as int)
                        < conns@.len() && ureaches(a, seeds[labels@[v]->0 as int], v),
                forall|z: int|
                    0 <= z < seeds.len() ==> 0 <= #[trigger] seeds[z] < n && labels@[seeds[z]]
                        == Some(z as usize),
                forall|v: int, j: int|
                    0 <= v < n && (#[trigger] labels@[v]) is Some && 0 <= j < a[v].len() ==> labels@[
                        #[trigger] a[v][j]] is Some && (labels@[a[v][j]]->0 == labels@[v]->0
                        || conns@[labels@[v]->0 as int]@.contains(labels@[a[v][j]]->0)),
                forall|z: int, m: int|
                    0 <= z < conns@.len() && 0 <= m < conns@[z]@.len() ==> ((
                    #[trigger] conns@[z]@[m]) as int) < conns@.len() && ureaches(
                        a,
                        seeds[z],
                        seeds[conns@[z]@[m] as int],
                    ),
        {
            if labels[i].is_none() {
                let c = conns.len();
                conns.push(Vec::new());
                proof {
                    seeds = seeds.push(i as int);
                    lemma_ureaches_refl(a, i as int);
                }
                let mut stack: Vec<usize> = Vec::new();
                stack.push(i);
                proof {
                    assert(stack@[0] == i);
                    assert(stack@.contains(i));
                }
                while stack.len() != 0
                    invariant
                        seeds.len() == conns@.len(),
                        c as int == conns@.len() - 1,
                        seeds[c as int] == i as int,
                        labels@.len() == n,
                        forall|v: int| 0 <= v < i ==> (#[trigger] labels@[v]) is Some,
                        stack@.contains(i) || labels@[i as int] == Some(c),
                        forall|m: int|
                            0 <= m < stack@.len() ==> (#[trigger] stack@[m]) < n && (labels@[stack@[m]
                                as int] is None || labels@[stack@[m] as int] == Some(c)) && ureaches(
                                a,
                                i as int,
                                stack@[m] as int,
                            ),
                        forall|v: int|
                            0 <= v < n && (#[trigger] labels@[v]) is Some ==> (labels@[v]->0 as int)
                                < conns@.len() && ureaches(a, seeds[labels@[v]->0 as int], v),
                        forall|z: int|
                            0 <= z < seeds.len() - 1 ==> 0 <= #[trigger] seeds[z] < n
                                && labels@[seeds[z]] == Some(z as usize),
                        forall|v: int, j: int|
                            0 <= v < n && (#[trigger] labels@[v]) is Some && 0 <= j < a[v].len()
                                ==> (labels@[#[trigger] a[v][j]] is Some && (labels@[a[v][j]]->0
                                == labels@[v]->0 || conns@[labels@[v]->0 as int]@.contains(
                                labels@[a[v][j]]->0))) || (labels@[v] == Some(c) && stack@.contains(
                                a[v][j] as usize,
                            )),
                        forall|z: int, m: int|
                            0 <= z < conns@.len() && 0 <= m < conns@[z]@.len() ==> ((
                            #[trigger] conns@[z]@[m]) as int) < conns@.len() && ureaches(
                                a,
                                seeds[z],
                                seeds[conns@[z]@[m] as int],
                            ),
                    decreases count_unset(labels@, none_unset()), stack@.len(),
                {
                    let ghost stack0 = stack@;
                    let top = stack.pop().unwrap();
                    proof {
                        assert(stack0.last() == top);
                        assert(stack@ =~= stack0.drop_last());
                        assert forall|w: usize| stack0.contains(w) && w != top implies
                            stack@.contains(w) by {
                            let j = choose|j: int| 0 <= j < stack0.len() && stack0[j] == w;
                            assert(stack@[j] == w);
                        }
                    }
                    if labels[top].is_none() {
                        let ghost zhk0 = labels@;
                        labels[top] = Some(c);
                        proof {
                            lemma_count_unset_update(
                                zhk0,
                                none_unset(),
                                top as int,
                                Some(c),
                            );
                        }
                        let neighbors = self.connected_neighbors(Handle::at_index(top));
                        let num_neighbors = neighbors.len();
                        for j in 0..num_neighbors
                            invariant
                                seeds.len() == conns@.len(),
                                c as int == conns@.len() - 1,
                                seeds[c as int] == i as int,
                                num_neighbors == neighbors@.len(),
                                neighbors@.map_values(|h: Handle| h.id() as int) == a[top as int],
                                labels@.len() == n,
                                labels@[top as int] == Some(c),
                                count_unset(labels@, none_unset()) < count_unset(
                                    zhk0,
                                    none_unset(),
                                ),
                                forall|v: int| 0 <= v < i ==> (#[trigger] labels@[v]) is Some,
                                stack@.contains(i) || labels@[i as int] == Some(c),
                                forall|m: int|
                                    0 <= m < stack@.len() ==> (#[trigger] stack@[m]) < n && (labels@[
                                        stack@[m] as int] is None || labels@[stack@[m] as int]
                                        == Some(c)) && ureaches(a, i as int, stack@[m] as int),
                                forall|v: int|
                                    0 <= v < n && (#[trigger] labels@[v]) is Some ==> (labels@[v]->0
                                        as int) < conns@.len() && ureaches(
                                        a,
                                        seeds[labels@[v]->0 as int],
                                        v,
                                    ),
                                forall|z: int|
                                    0 <= z < seeds.len() - 1 ==> 0 <= #[trigger] seeds[z] < n
                                        && labels@[seeds[z]] == Some(z as usize),
                                forall|v: int, jj: int|
                                    0 <= v < n && v != top as int && (#[trigger] labels@[v]) is Some
                                        && 0 <= jj < a[v].len() ==> (labels@[#[trigger] a[v][jj]] is Some
                                        && (labels@[a[v][jj]]->0 == labels@[v]->0 || conns@[labels@[v]->0
                                        as int]@.contains(labels@[a[v][jj]]->0))) || (labels@[v] == Some(
                                        c,
                                    ) && stack@.contains(a[v][jj] as usize)),
                                forall|jj: int|
                                    0 <= jj < j ==> (labels@[#[trigger] a[top as int][jj]] is Some
                                        && (labels@[a[top as int][jj]]->0 == c
                                        || conns@[c as int]@.contains(labels@[a[top as int][jj]]->0)))
                                        || stack@.contains(a[top as int][jj] as usize),
                                forall|z: int, m: int|
                                    0 <= z < conns@.len() && 0 <= m < conns@[z]@.len() ==> ((
                                    #[trigger] conns@[z]@[m]) as int) < conns@.len() && ureaches(
                                        a,
                                        seeds[z],
                                        seeds[conns@[z]@[m] as int],
                                    ),
                        {
                            let nb = neighbors[j];
                            proof {
                                assert(neighbors@.map_values(|h: Handle| h.id() as int)[j as int]
                                    == a[top as int][j as int]);
                                assert(a[top as int].contains(nb.id() as int));
                            }
                            let w = nb.index();
                            let ghost stack1 = stack@;
                            let ghost conns1 = conns@;
                            if labels[w].is_none() {
                                stack.push(w);
                                proof {
                                    assert(ureaches(a, i as int, top as int));
                                    lemma_ureaches_step(a, i as int, top as int, w as int);
                                    assert(stack@.last() == w);
                                    assert forall|x: usize| stack1.contains(x) implies
                                        stack@.contains(x) by {
                                        let m = choose|m: int|
                                            0 <= m < stack1.len() && stack1[m] == x;
                                        assert(stack@[m] == x);
                                    }
                                }
                            } else {
                                let z = match labels[w] {
                                    Some(z) => z,
                                    None => 0,
                                };
                                if z != c {
                                    conns[c].push(z);
                                    proof {
                                        assert(conns@[c as int]@ =~= conns1[c as int]@.push(z));
                                        assert(conns@[c as int]@.last() == z);
                                        assert(conns@[c as int]@.contains(z));
                                        assert forall|zz: int, x: usize|
                                            0 <= zz < conns1.len() && conns1[zz]@.contains(x)
                                                implies conns@[zz]@.contains(x) by {
                                            let m = choose|m: int|
                                                0 <= m < conns1[zz]@.len() && conns1[zz]@[m] == x;
                                            assert(conns@[zz]@[m] == x);
                                        }
                                        // the recorded component's seed is joined to this one
                                        assert(ureaches(a, i as int, top as int));
                                        lemma_ureaches_step(a, i as int, top as int, w as int);
                                        assert(ureaches(a, seeds[z as int], w as int));
                                        lemma_ureaches_sym(a, seeds[z as int], w as int);
                                        lemma_ureaches_trans(
                                            a,
                                            i as int,
                                            w as int,
                                            seeds[z as int],
                                        );
                                        lemma_ureaches_sym(a, i as int, seeds[z as int]);
                                        lemma_ureaches_sym(a, seeds[z as int], i as int);
                                    }
                                }
                            }
                        }
                    }
                }
                proof {
                    assert(labels@[i as int] == Some(c));
                }
            }
        }
        proof {
            assert(labeling_wf(a, labels@, conns@, seeds));
        }
        (labels, conns, Ghost(seeds))
    }
}

/// Builds the second-level graph of the connectivity check: one vertex per
/// component label, and an edge between two labels, in both directions,
/// exactly when one of them recorded the other as a cross-component
/// adjacency. This symmetrization is deliberate: it turns the directional
/// component-adjacency relation into an undirected one.
#[verifier::loop_isolation(false)]
#[verifier::rlimit(50)]
fn build_label_graph(conns: &Vec<Vec<usize>>) -> (lgraph: Unweighted<usize>)
    ensures
        lgraph.adj().len() == conns@.len(),
        lgraph.spec_size() == conns@.len(),
        adj_wf(lgraph.adj()),
        forall|j: int, l: int|
            0 <= j < conns@.len() && 0 <= l < conns@.len() ==> (#[trigger] lgraph.adj()[j].contains(l)
                <==> label_edge(conns@, j, l)),
{
    let k = conns.len();
    let mut lgraph: Unweighted<usize> = Graph::new();
    for z in 0..k
        invariant
            lgraph@.vertices.len() == z,
            lgraph@.edges.len() == z,
            forall|m: int| 0 <= m < z ==> #[trigger] lgraph@.vertices[m] == m as usize,
            forall|m: int| 0 <= m < z ==> (#[trigger] lgraph@.edges[m]).len() == 0,
    {
        lgraph.add_vertex(z);
    }
    let ghost lvs = lgraph@.vertices;
    let ghost ladj0 = lgraph.adj();
    proof {
        assert forall|m: int| 0 <= m < k implies #[trigger] ladj0[m] == Seq::<int>::empty() by {
            assert(ladj0[m].len() == lgraph@.edges[m].len());
            assert(ladj0[m] =~= Seq::<int>::empty());
        }
    }
    let cond = |x: &usize, y: &usize| -> (res: bool)
        requires
            (*x as int) < conns@.len(),
            (*y as int) < conns@.len(),
        ensures
            res == label_edge(conns@, *x as int, *y as int),
        {
            seq_has(&conns[*y], *x) || seq_has(&conns[*x], *y)
        };
    proof {
        assert forall|u: int, v: int|
            0 <= u < lvs.len() && 0 <= v < lvs.len() implies call_requires(
            cond,
            (&lvs[u], &lvs[v]),
        ) by {
            assert(lvs[u] == u as usize && lvs[v] == v as usize);
        }
    }
    lgraph.construct_edges_from(cond);
    let ghost ladj = lgraph.adj();
    proof {
        let d = choose|d: Seq<Seq<bool>>|
            {
                &&& #[trigger] pairwise_decisions(cond, lvs, d)
                &&& forall|u: int|
                    0 <= u < lvs.len() ==> #[trigger] lgraph.adj()[u] == ladj0[u] + chosen_targets(
                        d[u],
                    )
            };
        assert forall|j: int, l: int|
            0 <= j < k && 0 <= l < k implies (#[trigger] ladj[j].contains(l) <==> label_edge(
            conns@,
            j,
            l,
        )) by {
            assert(ladj[j] == ladj0[j] + chosen_targets(d[j]));
            assert(ladj[j] =~= chosen_targets(d[j]));
            lemma_chosen_targets_membership(d[j], l);
            assert(call_ensures(cond, (&lvs[j], &lvs[l]), d[j][l]));
            assert(lvs[j] == j as usize && lvs[l] == l as usize);
        }
        assert(ladj.len() == k);
        assert forall|j: int, m: int|
            0 <= j < k && 0 <= m < ladj[j].len() implies 0 <= #[trigger] ladj[j][m] < k by {
            assert(ladj[j] == ladj0[j] + chosen_targets(d[j]));
            assert(ladj[j] =~= chosen_targets(d[j]));
            assert(ladj[j].contains(ladj[j][m]));
            lemma_chosen_targets_membership(d[j], ladj[j][m]);
        }
    }
    lgraph
}

/// The depth-first sweep of the connectivity check: marks every component
/// label reachable from the first one in the component graph. The marks come
/// back closed under component adjacency, and every marked component's seed
/// is joined to the first component's seed in the underlying graph.
#[verifier::loop_isolation(false)]
#[verifier::rlimit(50)]
fn component_sweep(
    lgraph: &Unweighted<usize>,
    Ghost(a): Ghost<Seq<Seq<int>>>,
    Ghost(seeds): Ghost<Seq<int>>,
) -> (seen: Vec<bool>)
    requires
        lgraph.adj().len() >= 1,
        lgraph.adj().len() == lgraph.spec_size(),
        adj_wf(lgraph.adj()),
        seeds.len() == lgraph.adj().len(),
        forall|z: int| 0 <= z < seeds.len() ==> 0 <= #[trigger] seeds[z] < a.len(),
        forall|j: int, l: int|
            0 <= j < seeds.len() && 0 <= l < seeds.len() && #[trigger] lgraph.adj()[j].contains(l)
                ==> ureaches(a, seeds[j], seeds[l]),
    ensures
        seen@.len() == lgraph.adj().len(),
        seen@[0],
        forall|z: int|
            0 <= z < seen@.len() && #[trigger] seen@[z] ==> ureaches(a, seeds[0], seeds[z]),
        forall|z: int, l: int|
            0 <= z < seen@.len() && seen@[z] && 0 <= l < seen@.len() && #[trigger] lgraph.adj()[
                z].contains(l) ==> seen@[l],
{
    let ghost ladj = lgraph.adj();
    let k = lgraph.size();
    proof {
        assert(k == ladj.len());
    }
    let mut seen: Vec<bool> = Vec::new();
    for z in 0..k
        invariant
            seen@.len() == z,
            forall|m: int| 0 <= m < z ==> !(#[trigger] seen@[m]),
    {
        seen.push(false);
    }
    let mut stack: Vec<usize> = Vec::new();
    stack.push(0);
    proof {
        assert(stack@[0] == 0usize);
        assert(stack@.contains(0usize));
        lemma_ureaches_refl(a, seeds[0]);
    }
    while stack.len() != 0
        invariant
            seen@.len() == k,
            seen@[0] || stack@.contains(0usize),
            forall|m: int|
                0 <= m < stack@.len() ==> (#[trigger] stack@[m]) < k && ureaches(
                    a,
                    seeds[0],
                    seeds[stack@[m] as int],
                ),
            forall|z: int| 0 <= z < k && #[trigger] seen@[z] ==> ureaches(a, seeds[0], seeds[z]),
            forall|z: int, l: int|
                0 <= z < k && seen@[z] && 0 <= l < k && #[trigger] ladj[z].contains(l) ==> seen@[l]
                    || stack@.contains(l as usize),
        decreases count_unset(seen@, false_unset()), stack@.len(),
    {
        let ghost stack0 = stack@;
        let top = stack.pop().unwrap();
        proof {
            assert(stack0.last() == top);
            assert(stack@ =~= stack0.drop_last());
            assert forall|w: usize| stack0.contains(w) && w != top implies stack@.contains(w) by {
                let j = choose|j: int| 0 <= j < stack0.len() && stack0[j] == w;
                assert(stack@[j] == w);
            }
        }
        if !seen[top] {
            let ghost seen0 = seen@;
            seen[top] = true;
            proof {
                lemma_count_unset_update(seen0, false_unset(), top as int, true);
            }
            let nbrs = lgraph.connected_neighbors(Handle::at_index(top));
            let num_nbrs = nbrs.len();
            for j in 0..num_nbrs
                invariant
                    num_nbrs == nbrs@.len(),
                    nbrs@.map_values(|h: Handle| h.id() as int) == ladj[top as int],
                    seen@[0] || stack@.contains(0usize),
                    forall|m: int|
                        0 <= m < stack@.len() ==> (#[trigger] stack@[m]) < k && ureaches(
                            a,
                            seeds[0],
                            seeds[stack@[m] as int],
                        ),
                    forall|z: int, l: int|
                        0 <= z < k && seen@[z] && z != top as int && 0 <= l < k
                            && #[trigger] ladj[z].contains(l) ==> seen@[l] || stack@.contains(
                            l as usize,
                        ),
                    forall|jj: int|
                        0 <= jj < j ==> seen@[#[trigger] ladj[top as int][jj]] || stack@.contains(
                            ladj[top as int][jj] as usize,
                        ),
            {
                let nb = nbrs[j];
                proof {
                    assert(nbrs@.map_values(|h: Handle| h.id() as int)[j as int] == ladj[top
                        as int][j as int]);
                    assert(ladj[top as int].contains(nb.id() as int));
                    assert(0 <= nb.id() < k);
                }
                let l = nb.index();
                if !seen[l] {
                    let ghost stack1 = stack@;
                    stack.push(l);
                    proof {
                        assert(stack@.last() == l);
                        assert(stack@.contains(l));
                        assert forall|x: usize| stack1.contains(x) implies stack@.contains(x) by {
                            let m = choose|m: int| 0 <= m < stack1.len() && stack1[m] == x;
                            assert(stack@[m] == x);
                        }
                        assert(ureaches(a, seeds[0], seeds[top as int]));
                        assert(ureaches(a, seeds[top as int], seeds[l as int]));
                        lemma_ureaches_trans(a, seeds[0], seeds[top as int], seeds[l as int]);
                    }
                }
            }
            proof {
                assert forall|z: int, l: int|
                    0 <= z < k && seen@[z] && 0 <= l < k && #[trigger] ladj[z].contains(
                    l,
                ) implies seen@[l] || stack@.contains(l as usize) by {
                    if z == top as int {
                        let jj = choose|jj: int| 0 <= jj < ladj[z].len() && ladj[z][jj] == l;
                        assert(seen@[ladj[top as int][jj]] || stack@.contains(ladj[top as int][jj]
                            as usize));
                    }
                }
            }
        }
    }
    seen
}

impl<V, E> Graph<V, E> where Graph<V, E>: HasEdge {
    /// Returns whether the graph is connected, in the weak sense computed by
    /// component compression: true exactly when any two vertices are joined
    /// by a chain of edges taken without regard to their direction. An empty
    /// graph and a single isolated vertex are both connected.
    ///
    /// The check labels weakly-connected groups by outgoing-edge traversal,
    /// builds a second-level graph of the component labels whose adjacency
    /// is deliberately symmetrized, and sweeps it from the first component.
    #[verifier::loop_isolation(false)]
    #[verifier::rlimit(50)]
    pub fn is_connected(&self) -> (r: bool)
        requires
            adj_wf(self.adj()),
            self.adj().len() == self.spec_size(),
        ensures
            r == weakly_connected(self.adj()),
    {
        let ghost a = self.adj();
        let n = self.size();
        if n == 0 {
            proof {
                lemma_empty_graph_connected(a);
            }
            return true;
        }

        let (labels, conns, seeds_g) = self.label_components();
        let ghost seeds = seeds_g@;
        let k = conns.len();
        proof {
            assert(labels@[0] is Some);
            assert(k >= 1);
        }

        let lgraph = build_label_graph(&conns);
        let ghost ladj = lgraph.adj();
        proof {
            assert forall|j: int, l: int|
                0 <= j < seeds.len() && 0 <= l < seeds.len() && #[trigger] ladj[j].contains(
                l,
            ) implies ureaches(a, seeds[j], seeds[l]) by {
                assert(label_edge(conns@, j, l));
                if conns@[l]@.contains(j as usize) {
                    let m = choose|m: int|
                        0 <= m < conns@[l]@.len() && conns@[l]@[m] == j as usize;
                    assert(ureaches(a, seeds[l], seeds[j]));
                    lemma_ureaches_sym(a, seeds[l], seeds[j]);
                } else {
                    let m = choose|m: int|
                        0 <= m < conns@[j]@.len() && conns@[j]@[m] == l as usize;
                    assert(ureaches(a, seeds[j], seeds[l]));
                }
            }
        }
        let seen = component_sweep(&lgraph, Ghost(a), Ghost(seeds));

        let mut all = true;
        for z in 0..k
            invariant
                all ==> forall|m: int| 0 <= m < z ==> #[trigger] seen@[m],
                !all ==> exists|m: int| 0 <= m < z && !(#[trigger] seen@[m]),
        {
            if !seen[z] {
                all = false;
            }
        }
        proof {
            if all {
                assert forall|u: int, v: int|
                    0 <= u < n && 0 <= v < n implies #[trigger] ureaches(a, u, v) by {
                    let zu = labels@[u]->0 as int;
                    let zv = labels@[v]->0 as int;
                    assert(ureaches(a, seeds[zu], u));
                    assert(ureaches(a, seeds[zv], v));
                    assert(seen@[zu] && seen@[zv]);
                    assert(ureaches(a, seeds[0], seeds[zu]));
                    assert(ureaches(a, seeds[0], seeds[zv]));
                    lemma_ureaches_sym(a, seeds[zu], u);
                    lemma_ureaches_sym(a, seeds[0], seeds[zu]);
                    lemma_ureaches_trans(a, u, seeds[zu], seeds[0]);
                    lemma_ureaches_trans(a, u, seeds[0], seeds[zv]);
                    lemma_ureaches_trans(a, u, seeds[zv], v);
                }
                assert(weakly_connected(a));
            } else {
                let z0 = choose|m: int| 0 <= m < k && !seen@[m];
                assert(!seen@[z0]);
                if weakly_connected(a) {
                    assert(0 <= seeds[0] < n && 0 <= seeds[z0] < n);
                    assert(ureaches(a, seeds[0], seeds[z0]));
                    let p = choose|p: Seq<int>|
                        is_upath(a, p) && p.first() == seeds[0] && p.last() == seeds[z0];
                    let f = |x: int| 0 <= x < n && seen@[labels@[x]->0 as int];
                    assert forall|u: int, v: int|
                        0 <= u < a.len() && 0 <= v < a.len() && f(u) && #[trigger] uedge(
                        a,
                        u,
                        v,
                    ) implies f(v) by {
                        let zu = labels@[u]->0 as int;
                        let zv = labels@[v]->0 as int;
                        if zu != zv {
                            if a[u].contains(v) {
                                let j = choose|j: int| 0 <= j < a[u].len() && a[u][j] == v;
                                assert(conns@[zu]@.contains(labels@[v]->0));
                                assert(label_edge(conns@, zu, zv));
                            } else {
                                let j = choose|j: int| 0 <= j < a[v].len() && a[v][j] == u;
                                assert(conns@[zv]@.contains(labels@[u]->0));
                                assert(label_edge(conns@, zu, zv));
                            }
                            assert(ladj[zu].contains(zv));
                            assert(seen@[zv]);
                        }
                    }
                    assert(labels@[seeds[0]] == Some(0usize));
                    assert(seen@[0]);
                    assert(f(p.first()));
                    lemma_upath_stays_closed(a, p, f);
                    assert(f(seeds[z0]));
                    assert(labels@[seeds[z0]] == Some(z0 as usize));
                    assert(false);
                }
                assert(!weakly_connected(a));
            }
        }
        all
    }

    /// Finds a shortest path between `start` and `end`, by breadth-first
    /// search over outgoing edges.
    ///
    /// The result is present exactly when `end` can be reached from `start`
    /// by following edges forward; an unreachable `end` gives an absent
    /// result, never an error and never an empty path. When present, the path
    /// runs from `start` to `end` inclusive, each vertex connected to the
    /// next by an edge, and no path between the two has fewer edges; when
    /// `start == end` it is the single-element path holding just that vertex.
    /// When several shortest paths exist, which one comes back is decided by
    /// the search's first-discovered, first-used predecessor records.
    pub fn shortest_path_unweighted(&self, start: Handle, end: Handle) -> (r: Option<Vec<Handle>>)
        requires
            adj_wf(self.adj()),
            self.adj().len() == self.spec_size(),
            start.id() < self.adj().len(),
            end.id() < self.adj().len(),
        ensures
            (r is Some) <==> reaches(self.adj(), start.id() as int, end.id() as int),
            match r {
                Some(p) => {
                    &&& is_path(self.adj(), p@.map_values(|h: Handle| h.id() as int))
                    &&& p@.len() >= 1
                    &&& p@.first() == start
                    &&& p@.last() == end
                    &&& (start == end ==> p@.len() == 1)
                    &&& forall|q: Seq<int>|
                        is_path(self.adj(), q) && q.first() == start.id() as int && q.last()
                            == end.id() as int ==> p@.len() <= q.len()
                },
                None => true,
            },
    {
        let ghost a = self.adj();
        let n = self.size();
        let sid = start.index();
        let eid = end.index();

        let mut queue: VecDeque<usize> = VecDeque::new();
        queue.push_back(sid);
        let mut seen: Vec<Option<usize>> = Vec::new();
        for k in 0..n
            invariant
                seen@.len() == k,
                forall|j: int| 0 <= j < k ==> #[trigger] seen@[j] is None,
        {
            seen.push(None);
        }
        let ghost mut dist: Seq<int> = Seq::new(n as nat, |i: int| 0);

        proof {
            lemma_reaches_refl(a, sid as int);
            assert(queue@[0] == sid);
            assert(queue@.contains(sid));
            assert forall|v: int|
                0 <= v < n && discovered(seen@, sid as int, v) implies queue@.contains(v as usize) by {
                assert(seen@[v] is None);
                assert(v == sid as int);
            }
        }

        while queue.len() != 0
            invariant_except_break
                a == self.adj(),
                n == a.len(),
                sid < n,
                eid < n,
                adj_wf(a),
                seen@.len() == n,
                dist.len() == n,
                dist[sid as int] == 0,
                forall|v: int| 0 <= v < n ==> #[trigger] dist[v] >= 0,
                preds_wf(a, seen@, dist, sid as int),
                queue_wf(queue@, seen@, sid as int, n as int),
                forall|i: int, j: int|
                    0 <= i <= j < queue@.len() ==> dist[#[trigger] queue@[i] as int]
                        <= dist[#[trigger] queue@[j] as int],
                queue@.len() > 0 ==> forall|v: int|
                    0 <= v < n && discovered(seen@, sid as int, v) ==> #[trigger] dist[v]
                        <= dist[queue@[0] as int] + 1,
                forall|v: int|
                    0 <= v < n && discovered(seen@, sid as int, v) ==> #[trigger] reaches(
                        a,
                        sid as int,
                        v,
                    ),
                forall|v: int|
                    0 <= v < n && discovered(seen@, sid as int, v) ==> (queue@.contains(v as usize)
                        || #[trigger] processed(a, seen@, dist, sid as int, v)),
            ensures
                n == a.len(),
                seen@.len() == n,
                dist.len() == n,
                dist[sid as int] == 0,
                forall|v: int| 0 <= v < n ==> #[trigger] dist[v] >= 0,
                preds_wf(a, seen@, dist, sid as int),
                forall|v: int|
                    0 <= v < n && discovered(seen@, sid as int, v) ==> #[trigger] reaches(
                        a,
                        sid as int,
                        v,
                    ),
                forall|v: int|
                    0 <= v < n && discovered(seen@, sid as int, v) ==> #[trigger] processed(
                        a,
                        seen@,
                        dist,
                        sid as int,
                        v,
                    ) || (discovered(seen@, sid as int, eid as int) && dist[v] >= dist[eid as int]),
            decreases 2 * count_unset(seen@, none_unset()) + queue@.len(),
        {
            let ghost m0 = 2 * count_unset(seen@, none_unset()) + queue@.len();
            let ghost q0 = queue@;
            let front = queue.pop_front().unwrap();
            proof {
                assert(q0[0] == front);
                assert(q0[0] < n && discovered(seen@, sid as int, q0[0] as int));
                assert(queue@ =~= q0.subrange(1, q0.len() as int));
            }
            if front == eid {
                proof {
                    assert forall|v: int|
                        0 <= v < n && discovered(seen@, sid as int, v) implies #[trigger] processed(
                        a,
                        seen@,
                        dist,
                        sid as int,
                        v,
                    ) || (discovered(seen@, sid as int, eid as int) && dist[v] >= dist[eid
                        as int]) by {
                        if q0.contains(v as usize) {
                            let j = choose|j: int| 0 <= j < q0.len() && q0[j] == v as usize;
                            assert(dist[q0[0] as int] <= dist[q0[j] as int]);
                        }
                    }
                }
                break ;
            }
            proof {
                assert forall|v: int|
                    0 <= v < n && discovered(seen@, sid as int, v) implies (queue@.contains(
                    v as usize,
                ) || v == front as int || #[trigger] processed(a, seen@, dist, sid as int, v)) by {
                    if q0.contains(v as usize) && v != front as int {
                        let j = choose|j: int| 0 <= j < q0.len() && q0[j] == v as usize;
                        if j == 0 {
                            assert(v == front as int);
                        } else {
                            assert(queue@[j - 1] == v as usize);
                            assert(queue@.contains(v as usize));
                        }
                    }
                }
            }
            let ghost dist_front = dist[front as int];
            proof {
                assert forall|i: int, j: int|
                    0 <= i <= j < queue@.len() implies dist[#[trigger] queue@[i] as int] <= dist[
                    #[trigger] queue@[j] as int] by {
                    assert(queue@[i] == q0[i + 1] && queue@[j] == q0[j + 1]);
                    assert(dist[q0[i + 1] as int] <= dist[q0[j + 1] as int]);
                }
                assert forall|m: int| 0 <= m < queue@.len() implies dist_front <= dist[
                    #[trigger] queue@[m] as int] by {
                    assert(queue@[m] == q0[m + 1]);
                    assert(dist[q0[0] as int] <= dist[q0[m + 1] as int]);
                }
                assert forall|v: int|
                    0 <= v < n && discovered(seen@, sid as int, v) implies #[trigger] dist[v]
                    <= dist_front + 1 by {}
            }
            let neighbors = self.connected_neighbors(Handle::at_index(front));
            let num_neighbors = neighbors.len();
            for k in 0..num_neighbors
                invariant
                    a == self.adj(),
                    n == a.len(),
                    sid < n,
                    front < n,
                    adj_wf(a),
                    seen@.len() == n,
                    dist.len() == n,
                    dist[sid as int] == 0,
                    forall|v: int| 0 <= v < n ==> #[trigger] dist[v] >= 0,
                    discovered(seen@, sid as int, front as int),
                    num_neighbors == neighbors@.len(),
                    neighbors@.map_values(|h: Handle| h.id() as int) == a[front as int],
                    preds_wf(a, seen@, dist, sid as int),
                    queue_wf(queue@, seen@, sid as int, n as int),
                    dist_front == dist[front as int],
                    dist_front >= 0,
                    forall|v: int|
                        0 <= v < n && discovered(seen@, sid as int, v) ==> #[trigger] dist[v]
                            <= dist_front + 1,
                    forall|i: int, j: int|
                        0 <= i <= j < queue@.len() ==> dist[#[trigger] queue@[i] as int] <= dist[
                            #[trigger] queue@[j] as int],
                    forall|m: int|
                        0 <= m < queue@.len() ==> dist_front <= dist[#[trigger] queue@[m] as int],
                    forall|v: int|
                        0 <= v < n && discovered(seen@, sid as int, v) ==> #[trigger] reaches(
                            a,
                            sid as int,
                            v,
                        ),
                    forall|v: int|
                        0 <= v < n && discovered(seen@, sid as int, v) ==> (queue@.contains(
                            v as usize,
                        ) || v == front as int || #[trigger] processed(
                            a,
                            seen@,
                            dist,
                            sid as int,
                            v,
                        )),
                    forall|j: int|
                        0 <= j < k ==> discovered(seen@, sid as int, #[trigger] a[front as int][j]),
                    2 * count_unset(seen@, none_unset()) + queue@.len() < m0,
            {
                let nb = neighbors[k];
                proof {
                    assert(neighbors@.map_values(|h: Handle| h.id() as int)[k as int] == a[front
                        as int][k as int]);
                    assert(a[front as int].contains(nb.id() as int));
                }
                let nbi = nb.index();
                if nbi != sid && seen[nbi].is_none() {
                    let ghost seen0 = seen@;
                    let ghost qb = queue@;
                    let ghost dist0 = dist;
                    seen[nbi] = Some(front);
                    queue.push_back(nbi);
                    proof {
                        lemma_count_unset_update(seen0, none_unset(), nbi as int, Some(front));
                        dist = dist.update(nbi as int, dist[front as int] + 1);
                        lemma_reaches_step(a, sid as int, front as int, nbi as int);
                        assert forall|v: int|
                            0 <= v < n && discovered(seen@, sid as int, v) implies #[trigger] reaches(
                            a,
                            sid as int,
                            v,
                        ) by {
                            if v != nbi as int {
                                assert(discovered(seen0, sid as int, v));
                            }
                        }
                        assert forall|v: int|
                            0 <= v < n && v != sid as int && (#[trigger] seen@[v]) is Some implies {
                            let u = seen@[v]->0 as int;
                            &&& 0 <= u < seen@.len()
                            &&& discovered(seen@, sid as int, u)
                            &&& a[u].contains(v)
                            &&& dist[v] == dist[u] + 1
                        } by {
                            if v == nbi as int {
                                assert(seen@[v]->0 == front);
                                assert(a[front as int].contains(v));
                                assert(nbi != sid ==> dist[v] == dist[front as int] + 1);
                            } else {
                                assert(seen0[v] == seen@[v]);
                                let u = seen0[v]->0 as int;
                                assert(discovered(seen0, sid as int, u));
                                assert(nbi != sid ==> u != nbi as int);
                                assert(dist[v] == dist0[v] && dist[u] == dist0[u]);
                            }
                        }
                        assert(preds_wf(a, seen@, dist, sid as int));
                        assert(nbi != sid ==> dist[nbi as int] == dist_front + 1);
                        assert forall|v: int|
                            0 <= v < n && discovered(seen@, sid as int, v) implies #[trigger] dist[
                        v] <= dist_front + 1 by {
                            if v != nbi as int {
                                assert(discovered(seen0, sid as int, v));
                                assert(dist[v] == dist0[v]);
                            }
                        }
                        assert forall|m: int|
                            0 <= m < queue@.len() implies dist_front <= dist[#[trigger] queue@[m]
                            as int] by {
                            if m < qb.len() {
                                assert(queue@[m] == qb[m]);
                                assert(queue@[m] as int != nbi as int || nbi == sid);
                            } else {
                                assert(queue@[m] == nbi);
                            }
                        }
                        assert forall|i: int, j: int|
                            0 <= i <= j < queue@.len() implies dist[#[trigger] queue@[i] as int]
                            <= dist[#[trigger] queue@[j] as int] by {
                            if j < qb.len() {
                                assert(queue@[i] == qb[i] && queue@[j] == qb[j]);
                            } else {
                                assert(queue@[j] == nbi);
                                assert(dist[queue@[i] as int] <= dist_front + 1);
                                assert(nbi != sid ==> dist[nbi as int] == dist_front + 1);
                                assert(nbi == sid ==> dist[nbi as int] == 0 && dist_front == 0
                                    && dist[queue@[i] as int] >= dist_front);
                            }
                        }
                        assert forall|v: int|
                            0 <= v < n && discovered(seen@, sid as int, v) implies (
                        queue@.contains(v as usize) || v == front as int || #[trigger] processed(
                            a,
                            seen@,
                            dist,
                            sid as int,
                            v,
                        )) by {
                            if v == nbi as int {
                                assert(queue@.last() == nbi);
                                assert(queue@.contains(nbi));
                            } else {
                                assert(discovered(seen0, sid as int, v));
                                if qb.contains(v as usize) {
                                    let j = choose|j: int|
                                        0 <= j < qb.len() && qb[j] == v as usize;
                                    assert(queue@[j] == v as usize);
                                    assert(queue@.contains(v as usize));
                                } else if v != front as int {
                                    assert(processed(a, seen0, dist0, sid as int, v));
                                    assert forall|w: int| #[trigger]
                                        a[v].contains(w) implies discovered(seen@, sid as int, w)
                                        && dist[w] <= dist[v] + 1 by {
                                        assert(discovered(seen0, sid as int, w));
                                        assert(w != nbi as int || nbi == sid);
                                        assert(dist[w] == dist0[w] && dist[v] == dist0[v]);
                                    }
                                    assert(processed(a, seen@, dist, sid as int, v));
                                }
                            }
                        }
                    }
                }
            }
            proof {
                assert forall|w: int| #[trigger] a[front as int].contains(w) implies discovered(
                    seen@,
                    sid as int,
                    w,
                ) && dist[w] <= dist[front as int] + 1 by {
                    let j = choose|j: int|
                        0 <= j < a[front as int].len() && a[front as int][j] == w;
                    assert(discovered(seen@, sid as int, a[front as int][j]));
                }
                assert(processed(a, seen@, dist, sid as int, front as int));
                assert forall|v: int|
                    0 <= v < n && discovered(seen@, sid as int, v) implies (queue@.contains(
                    v as usize,
                ) || #[trigger] processed(a, seen@, dist, sid as int, v)) by {
                    if v == front as int {
                        assert(processed(a, seen@, dist, sid as int, v));
                    }
                }
                assert(queue@.len() > 0 ==> forall|v: int|
                    0 <= v < n && discovered(seen@, sid as int, v) ==> #[trigger] dist[v] <= dist[
                        queue@[0] as int] + 1);
            }
        }

        // Reconstruct the path backward from `end` along recorded
        // predecessors.
        let mut path: Vec<Handle> = Vec::new();
        let mut cur = eid;
        let ghost mut chain: Seq<int> = seq![eid as int];
        while cur != sid
            invariant_except_break
                a == self.adj(),
                sid == start.id(),
                eid == end.id(),
                n == a.len(),
                sid < n,
                eid < n,
                cur < n,
                adj_wf(a),
                seen@.len() == n,
                dist.len() == n,
                dist[sid as int] == 0,
                forall|v: int| 0 <= v < n ==> #[trigger] dist[v] >= 0,
                preds_wf(a, seen@, dist, sid as int),
                forall|v: int|
                    0 <= v < n && discovered(seen@, sid as int, v) ==> #[trigger] processed(
                        a,
                        seen@,
                        dist,
                        sid as int,
                        v,
                    ) || (discovered(seen@, sid as int, eid as int) && dist[v] >= dist[eid as int]),
                chain.len() >= 1,
                chain.first() == cur as int,
                chain.last() == eid as int,
                chain.len() == dist[eid as int] - dist[cur as int] + 1,
                chain.len() > 1 ==> discovered(seen@, sid as int, eid as int),
                forall|i: int| 0 <= i < chain.len() ==> 0 <= #[trigger] chain[i] < n,
                forall|i: int| 0 <= i < chain.len() - 1 ==> a[#[trigger] chain[i]].contains(
                    chain[i + 1],
                ),
                path@.len() + 1 == chain.len(),
                forall|i: int|
                    0 <= i < path@.len() ==> (#[trigger] path@[i]).id() as int == chain[chain.len()
                        - 1 - i],
                discovered(seen@, sid as int, cur as int) || (cur == eid && chain.len() == 1),
                sid == eid ==> chain.len() == 1,
            ensures
                cur == sid,
                chain.len() >= 1,
                chain.first() == sid as int,
                chain.last() == eid as int,
                chain.len() == dist[eid as int] + 1,
                chain.len() > 1 ==> discovered(seen@, sid as int, eid as int),
                forall|i: int| 0 <= i < chain.len() ==> 0 <= #[trigger] chain[i] < n,
                forall|i: int| 0 <= i < chain.len() - 1 ==> a[#[trigger] chain[i]].contains(
                    chain[i + 1],
                ),
                path@.len() + 1 == chain.len(),
                forall|i: int|
                    0 <= i < path@.len() ==> (#[trigger] path@[i]).id() as int == chain[chain.len()
                        - 1 - i],
                sid == eid ==> chain.len() == 1,
            decreases dist[cur as int],
        {
            match seen[cur] {
                None => {
                    proof {
                        assert(!discovered(seen@, sid as int, cur as int));
                        assert(cur == eid && !discovered(seen@, sid as int, eid as int));
                        if reaches(a, sid as int, eid as int) {
                            let p = choose|p: Seq<int>|
                                is_path(a, p) && p.first() == sid as int && p.last() == eid as int;
                            let f = |v: int| discovered(seen@, sid as int, v);
                            assert forall|u: int, v: int|
                                0 <= u < a.len() && f(u) && #[trigger] a[u].contains(v) implies f(
                                v,
                            ) by {
                                assert(processed(a, seen@, dist, sid as int, u));
                            }
                            assert(f(p.first()));
                            lemma_path_stays_closed(a, p, f);
                            assert(false);
                        }
                    }
                    return None;
                },
                Some(pred) => {
                    path.push(Handle::at_index(cur));
                    proof {
                        assert((seen@[cur as int]) is Some);
                        assert(dist[pred as int] == dist[cur as int] - 1);
                        let old_chain = chain;
                        chain = seq![pred as int] + chain;
                        assert(chain.len() == old_chain.len() + 1);
                        assert(discovered(seen@, sid as int, eid as int));
                        assert(chain.first() == pred as int);
                        assert forall|i: int| 1 <= i < chain.len() implies chain[i] == old_chain[i
                            - 1] by {}
                        assert(chain.last() == old_chain.last());
                        assert(a[pred as int].contains(cur as int));
                        assert forall|i: int|
                            0 <= i < chain.len() - 1 implies a[#[trigger] chain[i]].contains(
                            chain[i + 1],
                        ) by {
                            if i == 0 {
                                assert(chain[0] == pred as int && chain[1] == cur as int);
                            } else {
                                assert(chain[i] == old_chain[i - 1] && chain[i + 1] == old_chain[
                                    i]);
                                assert(a[old_chain[i - 1]].contains(old_chain[i]));
                            }
                        }
                        assert forall|i: int|
                            0 <= i < path@.len() implies (#[trigger] path@[i]).id() as int
                            == chain[chain.len() - 1 - i] by {
                            if i < path@.len() - 1 {
                                assert(path@[i].id() as int == old_chain[old_chain.len() - 1 - i]);
                                assert(chain[chain.len() - 1 - i] == old_chain[chain.len() - 2
                                    - i]);
                            } else {
                                assert(path@[i] == Handle::for_index(cur));
                                assert(chain[chain.len() - 1 - i] == chain[1] == old_chain[0]);
                            }
                        }
                    }
                    cur = pred;
                },
            }
        }
        path.push(Handle::at_index(sid));
        proof {
            assert forall|i: int|
                0 <= i < path@.len() implies (#[trigger] path@[i]).id() as int == chain[chain.len()
                - 1 - i] by {
                if i == path@.len() - 1 {
                    assert(path@[i] == Handle::for_index(sid));
                    assert(chain[chain.len() - 1 - i] == chain.first());
                }
            }
        }
        let total = path.len();
        let mut res: Vec<Handle> = Vec::new();
        for j in 0..total
            invariant
                total == path@.len(),
                path@.len() == chain.len(),
                res@.len() == j,
                forall|i: int|
                    0 <= i < path@.len() ==> (#[trigger] path@[i]).id() as int == chain[chain.len()
                        - 1 - i],
                forall|i: int| 0 <= i < j ==> (#[trigger] res@[i]).id() as int == chain[i],
        {
            res.push(path[total - 1 - j]);
        }
        proof {
            assert(res@.map_values(|h: Handle| h.id() as int) =~= chain);
            assert(is_path(a, chain));
            assert(reaches(a, sid as int, eid as int));
            assert(res@[0].id() == start.id());
            crate::graph::lemma_handle_extensional(res@[0], start);
            assert(res@[res@.len() - 1].id() == end.id());
            crate::graph::lemma_handle_extensional(res@[res@.len() - 1], end);
            if start == end {
                assert(sid == eid);
                assert(res@.len() == 1);
            }
            assert forall|q: Seq<int>|
                is_path(a, q) && q.first() == sid as int && q.last()
                    == eid as int implies chain.len() <= q.len() by {
                if q.len() < chain.len() {
                    assert(q.len() - 1 < dist[eid as int]);
                    assert(chain.len() > 1);
                    assert(discovered(seen@, sid as int, eid as int));
                    assert forall|v: int|
                        0 <= v < a.len() && discovered(seen@, sid as int, v) implies processed(
                        a,
                        seen@,
                        dist,
                        sid as int,
                        v,
                    ) || dist[v] >= dist[eid as int] by {}
                    lemma_bfs_frontier(a, seen@, dist, sid as int, dist[eid as int], q);
                    assert(dist[eid as int] <= q.len() - 1);
                    assert(false);
                }
            }
        }
        Some(res)
    }
}

} // verus!
