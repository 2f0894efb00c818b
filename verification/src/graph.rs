//! The vertex/edge store: an ordered sequence of vertex payloads and a
//! parallel sequence of per-vertex outgoing-edge lists, addressed by stable
//! index handles.

use vstd::prelude::*;
use vstd::std_specs::cmp::PartialEqSpec;

verus! {

/// A store of vertex payloads `V` and, per vertex, a list of outgoing edge
/// payloads `E`. Vertices are addressed by stable indices: insertion never
/// relocates an existing vertex and vertices are never removed.
pub struct Graph<V, E> {
    pub(crate) vertices: Vec<V>,
    pub(crate) edges: Vec<Vec<E>>,
}

/// The mathematical content of a `Graph<V, E>`: the vertex payloads in
/// insertion order, and one outgoing-edge list per vertex index.
pub struct GraphView<V, E> {
    pub vertices: Seq<V>,
    pub edges: Seq<Seq<E>>,
}

impl<V, E> View for Graph<V, E> {
    type V = GraphView<V, E>;

    closed spec fn view(&self) -> GraphView<V, E> {
        GraphView {
            vertices: self.vertices@,
            edges: self.edges@.map_values(|row: Vec<E>| row@),
        }
    }
}

/// Handle to a vertex in the graph: an opaque, copyable, totally-ordered
/// reference, valid for the lifetime of the store that produced it. Two
/// handles are equal if and only if they refer to the same vertex index.
#[derive(PartialEq, Eq, Structural, PartialOrd, Ord, Hash, Clone, Copy, Debug)]
pub struct Handle {
    pub(crate) id: usize,
}

impl Handle {
    /// The vertex index this handle stands for.
    pub closed spec fn id(self) -> usize {
        self.id
    }

    /// The handle standing for vertex index `i`.
    pub closed spec fn for_index(i: usize) -> Handle {
        Handle { id: i }
    }

    /// The vertex index this handle stands for.
    pub fn index(&self) -> (i: usize)
        ensures
            i == self.id(),
    {
        self.id
    }

    /// The handle standing for vertex index `i`.
    pub(crate) fn at_index(i: usize) -> (h: Handle)
        ensures
            h.id() == i,
            h == Handle::for_index(i),
    {
        Handle { id: i }
    }
}

/// A handle is nothing but its index: `for_index` and `id` invert each other.
pub broadcast proof fn lemma_handle_index(i: usize)
    ensures
        (#[trigger] Handle::for_index(i)).id() == i,
{
}

/// Two handles with the same index are the same handle.
pub proof fn lemma_handle_extensional(a: Handle, b: Handle)
    requires
        a.id() == b.id(),
    ensures
        a == b,
{
}

impl<V, E> Graph<V, E> {
    /// The number of vertices in the store.
    pub open spec fn spec_size(&self) -> nat {
        self@.vertices.len()
    }

    /// The store invariant: there is exactly one outgoing-edge list per
    /// vertex, in the same index space.
    pub open spec fn lists_wf(&self) -> bool {
        self@.edges.len() == self@.vertices.len()
    }

    /// Constructs a new, empty `Graph<V, E>`.
    pub fn new() -> (r: Self)
        ensures
            r.lists_wf(),
            r@.vertices == Seq::<V>::empty(),
            r@.edges == Seq::<Seq<E>>::empty(),
    {
        let r = Graph { vertices: Vec::new(), edges: Vec::new() };
        proof {
            assert(r@.edges =~= Seq::<Seq<E>>::empty());
        }
        r
    }

    /// Constructs a new, empty `Graph<V, E>` with capacity `size`.
    ///
    /// Purely a performance hint: the result is indistinguishable from an
    /// empty graph.
    pub fn new_with_size(size: usize) -> (r: Self)
        ensures
            r.lists_wf(),
            r@.vertices == Seq::<V>::empty(),
            r@.edges == Seq::<Seq<E>>::empty(),
    {
        let r = Graph { edges: Vec::with_capacity(size), vertices: Vec::with_capacity(size) };
        proof {
            assert(r@.edges =~= Seq::<Seq<E>>::empty());
        }
        r
    }

    /// Constructs a graph whose vertices are the given payloads, in order,
    /// with no edges.
    pub fn from_vertices(vertices: Vec<V>) -> (r: Self)
        ensures
            r.lists_wf(),
            r@.vertices == vertices@,
            forall|u: int| 0 <= u < r@.edges.len() ==> (#[trigger] r@.edges[u]).len() == 0,
    {
        let n = vertices.len();
        let mut edges: Vec<Vec<E>> = Vec::with_capacity(n);
        for i in 0..n
            invariant
                edges@.len() == i,
                forall|u: int| 0 <= u < i ==> (#[trigger] edges@[u])@.len() == 0,
        {
            edges.push(Vec::new());
        }
        Graph { vertices, edges }
    }

    /// Adds a vertex with the given `value` to the graph, returning a handle
    /// to the inserted element. Existing handles stay valid and keep
    /// referring to the vertices they were produced for.
    pub fn add_vertex(&mut self, value: V) -> (h: Handle)
        ensures
            h.id() == old(self)@.vertices.len(),
            final(self)@.vertices == old(self)@.vertices.push(value),
            final(self)@.edges == old(self)@.edges.push(Seq::<E>::empty()),
            old(self).lists_wf() ==> final(self).lists_wf(),
    {
        let handle = self.vertices.len();
        self.vertices.push(value);
        let empty: Vec<E> = Vec::new();
        self.edges.push(empty);
        proof {
            assert(self@.edges =~= old(self)@.edges.push(Seq::<E>::empty()));
        }
        Handle { id: handle }
    }

    /// Returns the number of vertices in the graph.
    pub fn size(&self) -> (n: usize)
        ensures
            n == self.spec_size(),
    {
        self.vertices.len()
    }

    /// The length of the outgoing-edge list of vertex `u`.
    pub(crate) fn row_len(&self, u: usize) -> (n: usize)
        requires
            u < self@.edges.len(),
        ensures
            n == self@.edges[u as int].len(),
    {
        self.edges[u].len()
    }

    /// A reference to edge `i` of the outgoing-edge list of vertex `u`.
    pub(crate) fn edge_at(&self, u: usize, i: usize) -> (e: &E)
        requires
            u < self@.edges.len(),
            i < self@.edges[u as int].len(),
        ensures
            *e == self@.edges[u as int][i as int],
    {
        &self.edges[u][i]
    }

    /// A reference to the outgoing-edge list of vertex `u`.
    pub(crate) fn row_at(&self, u: usize) -> (r: &Vec<E>)
        requires
            u < self@.edges.len(),
        ensures
            r@ == self@.edges[u as int],
    {
        &self.edges[u]
    }

    /// A reference to the payload of vertex `u`.
    pub(crate) fn vertex_at(&self, u: usize) -> (v: &V)
        requires
            u < self@.vertices.len(),
        ensures
            *v == self@.vertices[u as int],
    {
        &self.vertices[u]
    }

    /// Appends `e` to the outgoing-edge list of vertex `u`.
    pub(crate) fn push_edge(&mut self, u: usize, e: E)
        requires
            u < old(self)@.edges.len(),
        ensures
            final(self)@.vertices == old(self)@.vertices,
            final(self)@.edges == old(self)@.edges.update(
                u as int,
                old(self)@.edges[u as int].push(e),
            ),
    {
        self.edges[u].push(e);
        proof {
            assert(self@.edges =~= old(self)@.edges.update(
                u as int,
                old(self)@.edges[u as int].push(e),
            ));
        }
    }

    /// Removes edge `i` of the outgoing-edge list of vertex `u` by swapping
    /// the last edge of that list into its place.
    pub(crate) fn swap_remove_edge(&mut self, u: usize, i: usize) -> (e: E)
        requires
            u < old(self)@.edges.len(),
            i < old(self)@.edges[u as int].len(),
        ensures
            e == old(self)@.edges[u as int][i as int],
            final(self)@.vertices == old(self)@.vertices,
            final(self)@.edges == old(self)@.edges.update(
                u as int,
                old(self)@.edges[u as int].update(
                    i as int,
                    old(self)@.edges[u as int].last(),
                ).drop_last(),
            ),
    {
        let e = self.edges[u].swap_remove(i);
        proof {
            assert(self@.edges =~= old(self)@.edges.update(
                u as int,
                old(self)@.edges[u as int].update(
                    i as int,
                    old(self)@.edges[u as int].last(),
                ).drop_last(),
            ));
        }
        e
    }

    /// Returns one handle per vertex, in index order: the read-only vertex
    /// iteration surface.
    pub fn handles(&self) -> (r: Vec<Handle>)
        ensures
            r@.len() == self.spec_size(),
            forall|i: int| 0 <= i < r@.len() ==> (#[trigger] r@[i]).id() == i,
    {
        let n = self.vertices.len();
        let mut r: Vec<Handle> = Vec::new();
        for i in 0..n
            invariant
                r@.len() == i,
                forall|j: int| 0 <= j < i ==> (#[trigger] r@[j]).id() == j,
        {
            r.push(Handle { id: i });
        }
        r
    }

    /// A reference to the payload of the vertex that `vertex` stands for.
    pub fn value(&self, vertex: Handle) -> (v: &V)
        requires
            vertex.id() < self.spec_size(),
        ensures
            *v == self@.vertices[vertex.id() as int],
    {
        &self.vertices[vertex.id]
    }

    /// Takes the store apart into its vertex payloads and its outgoing-edge
    /// lists.
    pub(crate) fn into_parts(self) -> (p: (Vec<V>, Vec<Vec<E>>))
        ensures
            p.0@ == self@.vertices,
            p.1@.map_values(|row: Vec<E>| row@) == self@.edges,
    {
        (self.vertices, self.edges)
    }

    /// Builds a store from vertex payloads and outgoing-edge lists.
    pub(crate) fn from_parts(vertices: Vec<V>, edges: Vec<Vec<E>>) -> (r: Self)
        ensures
            r@.vertices == vertices@,
            r@.edges == edges@.map_values(|row: Vec<E>| row@),
    {
        Graph { vertices, edges }
    }

    /// The number of edges in the graph: the sum of the lengths of all
    /// outgoing-edge lists.
    pub open spec fn spec_num_edges(&self) -> nat {
        total_edges(self@.edges)
    }

    /// Returns the number of edges in the graph.
    pub fn num_edges(&self) -> (n: usize)
        requires
            self.spec_num_edges() <= usize::MAX,
        ensures
            n == self.spec_num_edges(),
    {
        let ghost all = self@.edges;
        let mut n: usize = 0;
        let end = self.edges.len();
        for i in 0..end
            invariant
                end == all.len(),
                all == self@.edges,
                total_edges(all) <= usize::MAX,
                n == total_edges(all.take(i as int)),
        {
            proof {
                lemma_total_edges_take_succ(all, i as int);
                lemma_total_edges_take_le(all, i + 1);
            }
            n = n + self.edges[i].len();
        }
        proof {
            assert(all.take(end as int) =~= all);
        }
        n
    }
}

/// The total number of edge payloads held in a sequence of outgoing-edge
/// lists.
pub open spec fn total_edges<E>(edges: Seq<Seq<E>>) -> nat
    decreases edges.len(),
{
    if edges.len() == 0 {
        0
    } else {
        total_edges(edges.drop_last()) + edges.last().len()
    }
}

/// Extending a prefix of `edges` by one list adds that list's length to the
/// total.
proof fn lemma_total_edges_take_succ<E>(edges: Seq<Seq<E>>, i: int)
    requires
        0 <= i < edges.len(),
    ensures
        total_edges(edges.take(i + 1)) == total_edges(edges.take(i)) + edges[i].len(),
{
    assert(edges.take(i + 1).drop_last() =~= edges.take(i));
    assert(edges.take(i + 1).last() == edges[i]);
}

/// The total over a prefix never exceeds the total over the whole sequence.
proof fn lemma_total_edges_take_le<E>(edges: Seq<Seq<E>>, i: int)
    requires
        0 <= i <= edges.len(),
    ensures
        total_edges(edges.take(i)) <= total_edges(edges),
    decreases edges.len() - i,
{
    if i == edges.len() {
        assert(edges.take(i) =~= edges);
    } else {
        lemma_total_edges_take_succ(edges, i);
        lemma_total_edges_take_le(edges, i + 1);
    }
}

impl<V, E> Default for Graph<V, E> {
    /// Creates a new, empty graph.
    fn default() -> (r: Self)
        ensures
            r.lists_wf(),
            r@.vertices == Seq::<V>::empty(),
            r@.edges == Seq::<Seq<E>>::empty(),
    {
        Self::new()
    }
}

impl<V: Eq, E> Graph<V, E> {
    /// Looks a vertex up by payload equality: the handle of the first vertex,
    /// in insertion order, whose payload equals `vertex_value`, or `None` if
    /// no payload matches. This is a linear scan, not an index.
    ///
    /// The promise below is relative to the payload type's own equality: it
    /// holds whenever that equality obeys its specification.
    pub fn get_vertex(&self, vertex_value: V) -> (r: Option<Handle>)
        ensures
            V::obeys_eq_spec() ==> match r {
                Some(h) => {
                    &&& h.id() < self@.vertices.len()
                    &&& self@.vertices[h.id() as int].eq_spec(&vertex_value)
                    &&& forall|j: int|
                        0 <= j < h.id() ==> !(#[trigger] self@.vertices[j]).eq_spec(&vertex_value)
                },
                None => forall|j: int|
                    0 <= j < self@.vertices.len() ==> !(#[trigger] self@.vertices[j]).eq_spec(
                        &vertex_value,
                    ),
            },
    {
        let end = self.vertices.len();
        for i in 0..end
            invariant
                end == self@.vertices.len(),
                V::obeys_eq_spec() ==> forall|j: int|
                    0 <= j < i ==> !(#[trigger] self@.vertices[j]).eq_spec(&vertex_value),
        {
            if self.vertices[i] == vertex_value {
                return Some(Handle { id: i });
            }
        }
        None
    }
}

} // verus!
