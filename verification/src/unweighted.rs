//! The unweighted edge variant: an edge payload is the target handle itself.

use vstd::prelude::*;

use crate::HasEdge;
use crate::graph::{Graph, Handle};
use crate::weighted::{Connection, Weight, Weighted};

verus! {

/// An unweighted directed graph containing vertex payloads of type `V`.
pub type Unweighted<V> = Graph<V, Handle>;

/// `d` is a full matrix of pairwise decisions over the vertex payloads `vs`,
/// each one a possible result of `condition` on the corresponding ordered
/// pair.
pub open spec fn pairwise_decisions<V, F: Fn(&V, &V) -> bool>(
    condition: F,
    vs: Seq<V>,
    d: Seq<Seq<bool>>,
) -> bool {
    &&& d.len() == vs.len()
    &&& forall|u: int| 0 <= u < vs.len() ==> (#[trigger] d[u]).len() == vs.len()
    &&& forall|u: int, v: int|
        0 <= u < vs.len() && 0 <= v < vs.len() ==> call_ensures(
            condition,
            (&vs[u], &vs[v]),
            #[trigger] d[u][v],
        )
}

/// The targets, in index order, that a row of pairwise decisions selects:
/// index `v` appears exactly when `row[v]` holds.
pub open spec fn chosen_targets(row: Seq<bool>) -> Seq<int>
    decreases row.len(),
{
    if row.len() == 0 {
        Seq::empty()
    } else {
        chosen_targets(row.drop_last()) + if row.last() {
            seq![row.len() - 1]
        } else {
            Seq::empty()
        }
    }
}

/// A target is selected exactly when its decision holds.
pub proof fn lemma_chosen_targets_membership(row: Seq<bool>, v: int)
    ensures
        chosen_targets(row).contains(v) <==> 0 <= v < row.len() && row[v],
    decreases row.len(),
{
    if row.len() > 0 {
        lemma_chosen_targets_membership(row.drop_last(), v);
        if 0 <= v < row.len() && row[v] {
            if v == row.len() - 1 {
                assert(chosen_targets(row)[chosen_targets(row).len() - 1] == v);
            } else {
                let k = choose|k: int|
                    0 <= k < chosen_targets(row.drop_last()).len() && chosen_targets(
                        row.drop_last(),
                    )[k] == v;
                assert(chosen_targets(row)[k] == v);
            }
        }
        if chosen_targets(row).contains(v) {
            let k = choose|k: int|
                0 <= k < chosen_targets(row).len() && chosen_targets(row)[k] == v;
            if k < chosen_targets(row.drop_last()).len() {
                assert(chosen_targets(row.drop_last())[k] == v);
            }
        }
    }
}

/// The targets of the edges kept by the weighted-to-unweighted conversion:
/// the targets, in list order, of the connections whose weight is non-zero.
pub open spec fn nonzero_targets<W: Weight>(row: Seq<Connection<W>>) -> Seq<int>
    decreases row.len(),
{
    if row.len() == 0 {
        Seq::empty()
    } else {
        nonzero_targets(row.drop_last()) + if !row.last().weight.spec_is_zero() {
            seq![row.last().to.id() as int]
        } else {
            Seq::empty()
        }
    }
}

/// A target is kept by the conversion exactly when some connection of the
/// row leads to it with a non-zero weight.
pub proof fn lemma_nonzero_targets_membership<W: Weight>(row: Seq<Connection<W>>, v: int)
    ensures
        nonzero_targets(row).contains(v) <==> exists|k: int|
            0 <= k < row.len() && (#[trigger] row[k]).to.id() == v
                && !row[k].weight.spec_is_zero(),
    decreases row.len(),
{
    if row.len() > 0 {
        lemma_nonzero_targets_membership(row.drop_last(), v);
        if exists|k: int|
            0 <= k < row.len() && (#[trigger] row[k]).to.id() == v
                && !row[k].weight.spec_is_zero() {
            let k = choose|k: int|
                0 <= k < row.len() && (#[trigger] row[k]).to.id() == v
                    && !row[k].weight.spec_is_zero();
            if k == row.len() - 1 {
                assert(nonzero_targets(row).last() == v);
                assert(nonzero_targets(row).contains(v));
            } else {
                assert(row.drop_last()[k] == row[k]);
                let j = choose|j: int|
                    0 <= j < nonzero_targets(row.drop_last()).len() && nonzero_targets(
                        row.drop_last(),
                    )[j] == v;
                assert(nonzero_targets(row)[j] == v);
            }
        }
        if nonzero_targets(row).contains(v) {
            let j = choose|j: int|
                0 <= j < nonzero_targets(row).len() && nonzero_targets(row)[j] == v;
            if j < nonzero_targets(row.drop_last()).len() {
                assert(nonzero_targets(row.drop_last())[j] == v);
                let k = choose|k: int|
                    0 <= k < row.drop_last().len() && (#[trigger] row.drop_last()[k]).to.id() == v
                        && !row.drop_last()[k].weight.spec_is_zero();
                assert(row[k] == row.drop_last()[k]);
            } else {
                let last: int = row.len() - 1;
                assert(row[last].to.id() == v && !row[last].weight.spec_is_zero());
            }
        }
    }
}

/// The law of the weighted-to-unweighted conversion: a converted graph has an
/// edge from `u` to `v` exactly when the weighted graph it was built from has
/// a connection from `u` to `v` whose weight is non-zero. Zero-weight edges
/// are dropped; all others are kept.
pub proof fn lemma_conversion_keeps_nonzero_edges<V, W: Weight>(
    w: Weighted<V, W>,
    r: Unweighted<V>,
    u: int,
    v: int,
)
    requires
        0 <= u < w@.edges.len(),
        r.adj()[u] == nonzero_targets(w@.edges[u]),
    ensures
        r.adj()[u].contains(v) <==> exists|k: int|
            0 <= k < w@.edges[u].len() && (#[trigger] w@.edges[u][k]).to.id() == v
                && !w@.edges[u][k].weight.spec_is_zero(),
{
    lemma_nonzero_targets_membership(w@.edges[u], v);
}

impl<V> HasEdge for Unweighted<V> {
    /// The adjacency structure of an unweighted graph: each edge payload is
    /// itself the target handle.
    open spec fn adj(&self) -> Seq<Seq<int>> {
        self@.edges.map_values(|row: Seq<Handle>| row.map_values(|h: Handle| h.id() as int))
    }

    /// Returns whether the edge starting at `from` and going to `to` exists
    /// in the graph.
    fn has_edge(&self, from: Handle, to: Handle) -> (r: bool) {
        let from_id = from.index();
        let row_len = self.row_len(from_id);
        for i in 0..row_len
            invariant
                from_id == from.id(),
                from.id() < self@.edges.len(),
                row_len == self@.edges[from.id() as int].len(),
                forall|j: int| 0 <= j < i ==> self@.edges[from.id() as int][j] != to,
        {
            if *self.edge_at(from_id, i) == to {
                proof {
                    let srow = self.adj()[from.id() as int];
                    assert(srow[i as int] == to.id() as int);
                }
                return true;
            }
        }
        proof {
            let srow = self.adj()[from.id() as int];
            assert forall|k: int| 0 <= k < srow.len() implies srow[k] != to.id() as int by {
                assert(self@.edges[from.id() as int][k] != to);
                lemma_handle_extensionality(self@.edges[from.id() as int][k], to);
            }
        }
        false
    }

    /// Returns all targets of outgoing edges of `vertex`, in insertion order.
    fn connected_neighbors(&self, vertex: Handle) -> (r: Vec<Handle>) {
        let vertex_id = vertex.index();
        let row_len = self.row_len(vertex_id);
        let mut r: Vec<Handle> = Vec::new();
        for i in 0..row_len
            invariant
                vertex_id == vertex.id(),
                vertex.id() < self@.edges.len(),
                row_len == self@.edges[vertex.id() as int].len(),
                r@ == self@.edges[vertex.id() as int].take(i as int),
        {
            r.push(*self.edge_at(vertex_id, i));
            proof {
                assert(r@ =~= self@.edges[vertex.id() as int].take(i + 1));
            }
        }
        proof {
            assert(self@.edges[vertex.id() as int].take(row_len as int) =~= self@.edges[vertex.id()
                as int]);
            assert(r@.map_values(|h: Handle| h.id() as int) =~= self.adj()[vertex.id() as int]);
        }
        r
    }
}

/// Helper fact: handles with equal indices are equal, phrased for quantified
/// use above.
proof fn lemma_handle_extensionality(a: Handle, b: Handle)
    ensures
        a.id() == b.id() ==> a == b,
{
    if a.id() == b.id() {
        crate::graph::lemma_handle_extensional(a, b);
    }
}

impl<V> Unweighted<V> {
    /// Connects two vertices, as given by `from` and `to`.
    ///
    /// Parallel identical edges are permitted and counted separately: no
    /// deduplication happens.
    pub fn add_edge(&mut self, from: Handle, to: Handle)
        requires
            from.id() < old(self)@.edges.len(),
            to.id() < old(self)@.vertices.len(),
        ensures
            old(self).lists_wf() ==> final(self).lists_wf(),
            final(self)@.vertices == old(self)@.vertices,
            final(self)@.edges == old(self)@.edges.update(
                from.id() as int,
                old(self)@.edges[from.id() as int].push(to),
            ),
            final(self).adj() == old(self).adj().update(
                from.id() as int,
                old(self).adj()[from.id() as int].push(to.id() as int),
            ),
    {
        self.push_edge(from.index(), to);
        proof {
            assert(self.adj() =~~= old(self).adj().update(
                from.id() as int,
                old(self).adj()[from.id() as int].push(to.id() as int),
            ));
        }
    }

    /// Constructs the edges that satisfy the given `condition`: for every
    /// ordered pair `(u, v)` of vertices, including `u == v`, an edge u to v
    /// is appended exactly when the condition holds of the two payloads.
    ///
    /// The promise is phrased over a matrix of decisions, one possible
    /// condition result per ordered pair: whenever the condition is a pure
    /// predicate of the payloads, the matrix, and with it the new edge lists,
    /// is pinned down exactly.
    pub fn construct_edges_from<F: Fn(&V, &V) -> bool>(&mut self, condition: F)
        requires
            old(self).lists_wf(),
            forall|u: int, v: int|
                0 <= u < old(self)@.vertices.len() && 0 <= v < old(self)@.vertices.len()
                    ==> call_requires(condition, (&old(self)@.vertices[u], &old(self)@.vertices[v])),
        ensures
            final(self)@.vertices == old(self)@.vertices,
            final(self).lists_wf(),
            exists|d: Seq<Seq<bool>>|
                {
                    &&& #[trigger] pairwise_decisions(condition, old(self)@.vertices, d)
                    &&& forall|u: int|
                        0 <= u < old(self)@.vertices.len() ==> #[trigger] final(self).adj()[u]
                            == old(self).adj()[u] + chosen_targets(d[u])
                },
    {
        let n = self.size();
        let ghost vs = self@.vertices;
        let ghost adj0 = self.adj();
        let ghost mut d: Seq<Seq<bool>> = Seq::empty();
        for u in 0..n
            invariant
                n == vs.len(),
                self@.vertices == vs,
                self@.edges.len() == n,
                self.adj().len() == n,
                forall|i: int, j: int|
                    0 <= i < n && 0 <= j < n ==> call_requires(condition, (&vs[i], &vs[j])),
                d.len() == u,
                forall|w: int| 0 <= w < u ==> (#[trigger] d[w]).len() == n,
                forall|w: int, j: int|
                    0 <= w < u && 0 <= j < n ==> call_ensures(
                        condition,
                        (&vs[w], &vs[j]),
                        #[trigger] d[w][j],
                    ),
                forall|w: int|
                    0 <= w < u ==> #[trigger] self.adj()[w] == adj0[w] + chosen_targets(d[w]),
                forall|w: int| u <= w < n ==> #[trigger] self.adj()[w] == adj0[w],
        {
            let ghost mut drow: Seq<bool> = Seq::empty();
            for v in 0..n
                invariant
                    u < n,
                    n == vs.len(),
                    self@.vertices == vs,
                    self@.edges.len() == n,
                    self.adj().len() == n,
                    forall|i: int, j: int|
                        0 <= i < n && 0 <= j < n ==> call_requires(condition, (&vs[i], &vs[j])),
                    d.len() == u,
                    forall|w: int| 0 <= w < u ==> (#[trigger] d[w]).len() == n,
                    forall|w: int, j: int|
                        0 <= w < u && 0 <= j < n ==> call_ensures(
                            condition,
                            (&vs[w], &vs[j]),
                            #[trigger] d[w][j],
                        ),
                    forall|w: int|
                        0 <= w < u ==> #[trigger] self.adj()[w] == adj0[w] + chosen_targets(d[w]),
                    forall|w: int|
                        u < w < n ==> #[trigger] self.adj()[w] == adj0[w],
                    drow.len() == v,
                    forall|j: int|
                        0 <= j < v ==> call_ensures(condition, (&vs[u as int], &vs[j]), #[trigger] drow[j]),
                    self.adj()[u as int] == adj0[u as int] + chosen_targets(drow),
            {
                let c = condition(self.vertex_at(u), self.vertex_at(v));
                if c {
                    self.add_edge(Handle::at_index(u), Handle::at_index(v));
                }
                proof {
                    let dn = drow.push(c);
                    assert(dn.drop_last() =~= drow);
                    assert(dn.last() == c);
                    if c {
                        assert(chosen_targets(dn) == chosen_targets(drow) + seq![v as int]);
                        assert(self.adj()[u as int] =~= adj0[u as int] + chosen_targets(dn));
                    } else {
                        assert(chosen_targets(dn) == chosen_targets(drow) + Seq::<int>::empty());
                        assert(self.adj()[u as int] =~= adj0[u as int] + chosen_targets(dn));
                    }
                    drow = dn;
                }
            }
            proof {
                d = d.push(drow);
            }
        }
        proof {
            assert(pairwise_decisions(condition, vs, d));
            assert(self.lists_wf());
        }
    }

    /// Creates a new unweighted graph based on `weighted`: the same vertices,
    /// and exactly the edges whose weight is non-zero, their weights dropped.
    /// Zero-weight edges are treated as absent for unweighted purposes.
    pub fn from_weighted<W: Weight>(weighted: Weighted<V, W>) -> (r: Self)
        ensures
            r@.vertices == weighted@.vertices,
            r@.edges.len() == weighted@.edges.len(),
            forall|u: int|
                0 <= u < weighted@.edges.len() ==> #[trigger] r.adj()[u] == nonzero_targets(
                    weighted@.edges[u],
                ),
    {
        let ghost wview = weighted@;
        let (vertices, wedges) = weighted.into_parts();
        let n = wedges.len();
        let mut edges: Vec<Vec<Handle>> = Vec::with_capacity(n);
        for u in 0..n
            invariant
                n == wedges@.len(),
                wedges@.map_values(|row: Vec<Connection<W>>| row@) == wview.edges,
                edges@.len() == u,
                forall|w: int|
                    0 <= w < u ==> (#[trigger] edges@[w])@.map_values(|h: Handle| h.id() as int)
                        == nonzero_targets(wview.edges[w]),
        {
            let ghost row = wview.edges[u as int];
            let row_len = wedges[u].len();
            let mut kept: Vec<Handle> = Vec::new();
            for i in 0..row_len
                invariant
                    u < n,
                    n == wedges@.len(),
                    wedges@.map_values(|row: Vec<Connection<W>>| row@) == wview.edges,
                    row == wview.edges[u as int],
                    row_len == row.len(),
                    kept@.map_values(|h: Handle| h.id() as int) == nonzero_targets(
                        row.take(i as int),
                    ),
            {
                proof {
                    assert(wedges@[u as int]@ == row);
                    assert(row.take(i + 1).drop_last() =~= row.take(i as int));
                    assert(row.take(i + 1).last() == row[i as int]);
                }
                let c = wedges[u][i];
                if !c.weight.is_zero() {
                    kept.push(c.to);
                    proof {
                        assert(kept@.map_values(|h: Handle| h.id() as int) =~= nonzero_targets(
                            row.take(i + 1),
                        ));
                    }
                } else {
                    proof {
                        assert(kept@.map_values(|h: Handle| h.id() as int) =~= nonzero_targets(
                            row.take(i + 1),
                        ));
                    }
                }
            }
            edges.push(kept);
            proof {
                assert(row.take(row_len as int) =~= row);
            }
        }
        let r = Unweighted::from_parts(vertices, edges);
        proof {
            assert forall|u: int| 0 <= u < wview.edges.len() implies #[trigger] r.adj()[u]
                == nonzero_targets(wview.edges[u]) by {
                assert(r@.edges[u] == edges@[u]@);
                assert(r.adj()[u] == edges@[u]@.map_values(|h: Handle| h.id() as int));
            }
        }
        r
    }

    /// Returns the list of neighbors of `vertex` in the graph, in insertion
    /// order, duplicates preserved.
    pub fn neighbors(&self, vertex: Handle) -> (r: &Vec<Handle>)
        requires
            vertex.id() < self@.edges.len(),
        ensures
            r@ == self@.edges[vertex.id() as int],
    {
        self.row_at(vertex.index())
    }

    /// Removes one edge going from `from` to `to`: the first occurrence, in
    /// insertion order, is swapped with the last edge of the list and popped,
    /// so the remaining order is not preserved.
    ///
    /// Requesting removal of an edge that does not exist is a precondition
    /// violation, not a recoverable condition: callers that cannot guarantee
    /// the edge's existence must check first with `has_edge`.
    pub fn remove_edge(&mut self, from: Handle, to: Handle)
        requires
            from.id() < old(self)@.edges.len(),
            old(self).adj()[from.id() as int].contains(to.id() as int),
        ensures
            old(self).lists_wf() ==> final(self).lists_wf(),
            final(self)@.vertices == old(self)@.vertices,
            exists|k: int|
                #![trigger old(self)@.edges[from.id() as int][k]]
                {
                    &&& 0 <= k < old(self)@.edges[from.id() as int].len()
                    &&& old(self)@.edges[from.id() as int][k] == to
                    &&& forall|j: int| 0 <= j < k ==> old(self)@.edges[from.id() as int][j] != to
                    &&& final(self)@.edges == old(self)@.edges.update(
                        from.id() as int,
                        old(self)@.edges[from.id() as int].update(
                            k,
                            old(self)@.edges[from.id() as int].last(),
                        ).drop_last(),
                    )
                },
    {
        let from_id = from.index();
        let row_len = self.row_len(from_id);
        proof {
            let srow = self.adj()[from.id() as int];
            let w = choose|w: int| 0 <= w < srow.len() && srow[w] == to.id() as int;
            crate::graph::lemma_handle_extensional(self@.edges[from.id() as int][w], to);
        }
        for i in 0..row_len
            invariant
                from_id == from.id(),
                from.id() < self@.edges.len(),
                self@.edges == old(self)@.edges,
                self@.vertices == old(self)@.vertices,
                row_len == self@.edges[from.id() as int].len(),
                exists|k: int|
                    i <= k < row_len && #[trigger] self@.edges[from.id() as int][k] == to,
                forall|j: int| 0 <= j < i ==> self@.edges[from.id() as int][j] != to,
        {
            if *self.edge_at(from_id, i) == to {
                self.swap_remove_edge(from_id, i);
                proof {
                    let row = old(self)@.edges[from.id() as int];
                    assert(0 <= i < row.len() && row[i as int] == to);
                }
                return ;
            }
        }
    }
}

} // verus!
