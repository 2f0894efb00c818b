//! The weighted edge variant: an edge payload pairs the target handle with a
//! numeric weight.

use vstd::prelude::*;

use crate::HasEdge;
use crate::graph::{Graph, Handle};

verus! {

/// A numeric edge weight: any copyable type with a zero test.
pub trait Weight: Copy {
    /// Whether this value is the numeric zero.
    spec fn spec_is_zero(self) -> bool;

    /// Returns whether this value is the numeric zero.
    fn is_zero(&self) -> (r: bool)
        ensures
            r == self.spec_is_zero(),
    ;
}

/// A connection between two vertices, also called an edge: the target handle
/// together with the weight carried by the edge.
///
/// This struct is not intended to be constructed manually.
#[derive(Clone, Copy)]
pub struct Connection<W: Weight> {
    pub to: Handle,
    pub weight: W,
}

/// A weighted directed graph containing vertex payloads of type `V` and edge
/// weights of type `W`.
pub type Weighted<V, W> = Graph<V, Connection<W>>;

impl Weight for usize {
    open spec fn spec_is_zero(self) -> bool {
        self == 0
    }

    fn is_zero(&self) -> bool {
        *self == 0
    }
}

impl Weight for u32 {
    open spec fn spec_is_zero(self) -> bool {
        self == 0
    }

    fn is_zero(&self) -> bool {
        *self == 0
    }
}

impl Weight for u64 {
    open spec fn spec_is_zero(self) -> bool {
        self == 0
    }

    fn is_zero(&self) -> bool {
        *self == 0
    }
}

impl Weight for i32 {
    open spec fn spec_is_zero(self) -> bool {
        self == 0
    }

    fn is_zero(&self) -> bool {
        *self == 0
    }
}

impl Weight for i64 {
    open spec fn spec_is_zero(self) -> bool {
        self == 0
    }

    fn is_zero(&self) -> bool {
        *self == 0
    }
}

/// `d` is a full matrix of pairwise decisions over the vertex payloads `vs`,
/// each one a possible result of `condition` on the corresponding ordered
/// pair: `None` for no edge, `Some(weight)` for an edge with that weight.
pub open spec fn pairwise_weight_decisions<V, W: Weight, F: Fn(&V, &V) -> Option<W>>(
    condition: F,
    vs: Seq<V>,
    d: Seq<Seq<Option<W>>>,
) -> bool {
    &&& d.len() == vs.len()
    &&& forall|u: int| 0 <= u < vs.len() ==> (#[trigger] d[u]).len() == vs.len()
    &&& forall|u: int, v: int|
        0 <= u < vs.len() && 0 <= v < vs.len() ==> call_ensures(
            condition,
            (&vs[u], &vs[v]),
            #[trigger] d[u][v],
        )
}

/// The connections, in index order, that a row of pairwise decisions selects:
/// a connection to vertex `v` with weight `w` appears exactly when `row[v]`
/// is `Some(w)`.
pub open spec fn chosen_connections<W: Weight>(row: Seq<Option<W>>) -> Seq<Connection<W>>
    decreases row.len(),
{
    if row.len() == 0 {
        Seq::empty()
    } else {
        chosen_connections(row.drop_last()) + match row.last() {
            Some(w) => seq![
                Connection { to: Handle::for_index((row.len() - 1) as usize), weight: w },
            ],
            None => Seq::empty(),
        }
    }
}

/// The weight of the first connection of `row` leading to `target`, or `None`
/// if no connection does.
pub open spec fn first_weight<W: Weight>(row: Seq<Connection<W>>, target: int) -> Option<W>
    decreases row.len(),
{
    if row.len() == 0 {
        None
    } else if row.first().to.id() == target {
        Some(row.first().weight)
    } else {
        first_weight(row.drop_first(), target)
    }
}

impl<V, W: Weight> HasEdge for Weighted<V, W> {
    /// The adjacency structure of a weighted graph: each edge payload
    /// contributes the handle it leads to, its weight dropped.
    open spec fn adj(&self) -> Seq<Seq<int>> {
        self@.edges.map_values(
            |row: Seq<Connection<W>>| row.map_values(|c: Connection<W>| c.to.id() as int),
        )
    }

    /// Returns whether the edge starting at `from` and going to `to` exists
    /// in the graph.
    fn has_edge(&self, from: Handle, to: Handle) -> (r: bool) {
        self.edge_exists(from, to)
    }

    /// Returns the targets of the outgoing edges of `vertex`, in insertion
    /// order, their weights dropped.
    fn connected_neighbors(&self, vertex: Handle) -> (r: Vec<Handle>) {
        let vertex_id = vertex.index();
        let row_len = self.row_len(vertex_id);
        let mut r: Vec<Handle> = Vec::new();
        for i in 0..row_len
            invariant
                vertex_id == vertex.id(),
                vertex.id() < self@.edges.len(),
                row_len == self@.edges[vertex.id() as int].len(),
                r@ == self@.edges[vertex.id() as int].take(i as int).map_values(
                    |c: Connection<W>| c.to,
                ),
        {
            let c = *self.edge_at(vertex_id, i);
            r.push(c.to);
            proof {
                assert(r@ =~= self@.edges[vertex.id() as int].take(i + 1).map_values(
                    |c: Connection<W>| c.to,
                ));
            }
        }
        proof {
            assert(self@.edges[vertex.id() as int].take(row_len as int) =~= self@.edges[vertex.id()
                as int]);
            assert(r@.map_values(|h: Handle| h.id() as int) =~= self.adj()[vertex.id() as int]);
        }
        r
    }
}

impl<V, W: Weight> Weighted<V, W> {
    /// Connects two vertices, as given by `from` and `to`, with an edge of
    /// weight `weight`.
    ///
    /// Parallel identical edges are permitted and counted separately: no
    /// deduplication happens.
    pub fn add_edge(&mut self, from: Handle, to: Handle, weight: W)
        requires
            from.id() < old(self)@.edges.len(),
            to.id() < old(self)@.vertices.len(),
        ensures
            old(self).lists_wf() ==> final(self).lists_wf(),
            final(self)@.vertices == old(self)@.vertices,
            final(self)@.edges == old(self)@.edges.update(
                from.id() as int,
                old(self)@.edges[from.id() as int].push(Connection { to, weight }),
            ),
            final(self).adj() == old(self).adj().update(
                from.id() as int,
                old(self).adj()[from.id() as int].push(to.id() as int),
            ),
    {
        self.push_edge(from.index(), Connection { to, weight });
        proof {
            assert(self.adj() =~~= old(self).adj().update(
                from.id() as int,
                old(self).adj()[from.id() as int].push(to.id() as int),
            ));
        }
    }

    /// Constructs the edges that satisfy the given `condition`: for every
    /// ordered pair `(u, v)` of vertices, including `u == v`, an edge u to v
    /// is appended exactly when the condition returns a weight for the two
    /// payloads, and it carries that weight.
    ///
    /// The promise is phrased over a matrix of decisions, one possible
    /// condition result per ordered pair: whenever the condition is a pure
    /// function of the payloads, the matrix, and with it the new edge lists,
    /// is pinned down exactly.
    pub fn construct_edges_from<F: Fn(&V, &V) -> Option<W>>(&mut self, condition: F)
        requires
            old(self).lists_wf(),
            forall|u: int, v: int|
                0 <= u < old(self)@.vertices.len() && 0 <= v < old(self)@.vertices.len()
                    ==> call_requires(condition, (&old(self)@.vertices[u], &old(self)@.vertices[v])),
        ensures
            final(self)@.vertices == old(self)@.vertices,
            final(self).lists_wf(),
            exists|d: Seq<Seq<Option<W>>>|
                {
                    &&& #[trigger] pairwise_weight_decisions(condition, old(self)@.vertices, d)
                    &&& forall|u: int|
                        0 <= u < old(self)@.vertices.len() ==> #[trigger] final(self)@.edges[u]
                            == old(self)@.edges[u] + chosen_connections(d[u])
                },
    {
        let n = self.size();
        let ghost vs = self@.vertices;
        let ghost edges0 = self@.edges;
        let ghost mut d: Seq<Seq<Option<W>>> = Seq::empty();
        for u in 0..n
            invariant
                n == vs.len(),
                self@.vertices == vs,
                self@.edges.len() == n,
                forall|i: int, j: int|
                    0 <= i < n && 0 <= j < n ==> call_requires(condition, (&vs[i], &vs[j])),
                d.len() == u,
                forall|w: int| 0 <= w < u ==> (#[trigger] d[w]).len() == n,
                forall|w: int, j: int|
                    0 <= w < u && 0 <= j < n ==> call_ensures(
                        condition,
                        (&vs[w], &vs[j]),
                        #[trigger] d[w][j],
                    ),
                forall|w: int|
                    0 <= w < u ==> #[trigger] self@.edges[w] == edges0[w] + chosen_connections(
                        d[w],
                    ),
                forall|w: int| u <= w < n ==> #[trigger] self@.edges[w] == edges0[w],
        {
            let ghost mut drow: Seq<Option<W>> = Seq::empty();
            for v in 0..n
                invariant
                    u < n,
                    n == vs.len(),
                    self@.vertices == vs,
                    self@.edges.len() == n,
                    forall|i: int, j: int|
                        0 <= i < n && 0 <= j < n ==> call_requires(condition, (&vs[i], &vs[j])),
                    d.len() == u,
                    forall|w: int| 0 <= w < u ==> (#[trigger] d[w]).len() == n,
                    forall|w: int, j: int|
                        0 <= w < u && 0 <= j < n ==> call_ensures(
                            condition,
                            (&vs[w], &vs[j]),
                            #[trigger] d[w][j],
                        ),
                    forall|w: int|
                        0 <= w < u ==> #[trigger] self@.edges[w] == edges0[w] + chosen_connections(
                            d[w],
                        ),
                    forall|w: int| u < w < n ==> #[trigger] self@.edges[w] == edges0[w],
                    drow.len() == v,
                    forall|j: int|
                        0 <= j < v ==> call_ensures(
                            condition,
                            (&vs[u as int], &vs[j]),
                            #[trigger] drow[j],
                        ),
                    self@.edges[u as int] == edges0[u as int] + chosen_connections(drow),
            {
                let c = condition(self.vertex_at(u), self.vertex_at(v));
                if let Some(weight) = c {
                    self.add_edge(Handle::at_index(u), Handle::at_index(v), weight);
                }
                proof {
                    let dn = drow.push(c);
                    assert(dn.drop_last() =~= drow);
                    assert(dn.last() == c);
                    match c {
                        Some(weight) => {
                            assert(chosen_connections(dn) == chosen_connections(drow) + seq![
                                Connection { to: Handle::for_index(v), weight },
                            ]);
                            assert(self@.edges[u as int] =~= edges0[u as int]
                                + chosen_connections(dn));
                        },
                        None => {
                            assert(chosen_connections(dn) == chosen_connections(drow)
                                + Seq::<Connection<W>>::empty());
                            assert(self@.edges[u as int] =~= edges0[u as int]
                                + chosen_connections(dn));
                        },
                    }
                    drow = dn;
                }
            }
            proof {
                d = d.push(drow);
            }
        }
        proof {
            assert(pairwise_weight_decisions(condition, vs, d));
        }
    }

    /// Returns whether the edge starting at `from` and going to `to` exists
    /// in the graph, whatever its weight.
    pub fn edge_exists(&self, from: Handle, to: Handle) -> (r: bool)
        requires
            from.id() < self.adj().len(),
        ensures
            r == self.adj()[from.id() as int].contains(to.id() as int),
    {
        let from_id = from.index();
        let row_len = self.row_len(from_id);
        for i in 0..row_len
            invariant
                from_id == from.id(),
                from.id() < self@.edges.len(),
                row_len == self@.edges[from.id() as int].len(),
                forall|j: int|
                    0 <= j < i ==> (#[trigger] self@.edges[from.id() as int][j]).to.id()
                        != to.id(),
        {
            let c = self.edge_at(from_id, i);
            if c.to.index() == to.index() {
                proof {
                    let srow = self.adj()[from.id() as int];
                    assert(srow[i as int] == to.id() as int);
                }
                return true;
            }
        }
        proof {
            let srow = self.adj()[from.id() as int];
            assert forall|k: int| 0 <= k < srow.len() implies srow[k] != to.id() as int by {
                assert((self@.edges[from.id() as int][k]).to.id() != to.id());
            }
        }
        false
    }

    /// Returns the weight of the first outgoing edge of `from` leading to
    /// `to`, in insertion order, or `None` if no such edge exists.
    pub fn get_edge(&self, from: Handle, to: Handle) -> (r: Option<W>)
        requires
            from.id() < self@.edges.len(),
        ensures
            r == first_weight(self@.edges[from.id() as int], to.id() as int),
    {
        let ghost row = self@.edges[from.id() as int];
        let from_id = from.index();
        let row_len = self.row_len(from_id);
        proof {
            assert(row.skip(0) =~= row);
        }
        for i in 0..row_len
            invariant
                from_id == from.id(),
                from.id() < self@.edges.len(),
                row == self@.edges[from.id() as int],
                row_len == row.len(),
                first_weight(row, to.id() as int) == first_weight(
                    row.skip(i as int),
                    to.id() as int,
                ),
        {
            let c = self.edge_at(from_id, i);
            proof {
                assert(row.skip(i as int).first() == row[i as int]);
                assert(row.skip(i as int).drop_first() =~= row.skip(i + 1));
            }
            if c.to.index() == to.index() {
                return Some(c.weight);
            }
        }
        proof {
            assert(row.skip(row_len as int) =~= Seq::<Connection<W>>::empty());
        }
        None
    }

    /// Returns the list of connections leaving `vertex`, in insertion order,
    /// duplicates preserved.
    pub fn neighbors(&self, vertex: Handle) -> (r: &Vec<Connection<W>>)
        requires
            vertex.id() < self@.edges.len(),
        ensures
            r@ == self@.edges[vertex.id() as int],
    {
        self.row_at(vertex.index())
    }

    /// Removes one edge going from `from` to `to`, matched by target handle
    /// only: the first occurrence, in insertion order, is swapped with the
    /// last edge of the list and popped, so the remaining order is not
    /// preserved.
    ///
    /// Requesting removal of an edge that does not exist is a precondition
    /// violation, not a recoverable condition: callers that cannot guarantee
    /// the edge's existence must check first with `edge_exists`.
    pub fn remove_edge(&mut self, from: Handle, to: Handle)
        requires
            from.id() < old(self)@.edges.len(),
            old(self).adj()[from.id() as int].contains(to.id() as int),
        ensures
            old(self).lists_wf() ==> final(self).lists_wf(),
            final(self)@.vertices == old(self)@.vertices,
            exists|k: int|
                #![trigger old(self)@.edges[from.id() as int][k]]
                {
                    &&& 0 <= k < old(self)@.edges[from.id() as int].len()
                    &&& old(self)@.edges[from.id() as int][k].to.id() == to.id()
                    &&& forall|j: int|
                        0 <= j < k ==> (#[trigger] old(self)@.edges[from.id() as int][j]).to.id()
                            != to.id()
                    &&& final(self)@.edges == old(self)@.edges.update(
                        from.id() as int,
                        old(self)@.edges[from.id() as int].update(
                            k,
                            old(self)@.edges[from.id() as int].last(),
                        ).drop_last(),
                    )
                },
    {
        let from_id = from.index();
        let row_len = self.row_len(from_id);
        proof {
            let srow = self.adj()[from.id() as int];
            let w = choose|w: int| 0 <= w < srow.len() && srow[w] == to.id() as int;
            assert(self@.edges[from.id() as int][w].to.id() == to.id());
        }
        for i in 0..row_len
            invariant
                from_id == from.id(),
                from.id() < self@.edges.len(),
                self@.edges == old(self)@.edges,
                self@.vertices == old(self)@.vertices,
                row_len == self@.edges[from.id() as int].len(),
                exists|k: int|
                    i <= k < row_len && (#[trigger] self@.edges[from.id() as int][k]).to.id()
                        == to.id(),
                forall|j: int|
                    0 <= j < i ==> (#[trigger] self@.edges[from.id() as int][j]).to.id()
                        != to.id(),
        {
            let c = self.edge_at(from_id, i);
            if c.to.index() == to.index() {
                self.swap_remove_edge(from_id, i);
                proof {
                    let row = old(self)@.edges[from.id() as int];
                    assert(0 <= i < row.len() && row[i as int].to.id() == to.id());
                }
                return ;
            }
        }
    }
}

} // verus!
