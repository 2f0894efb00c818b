//! An in-memory directed-graph library: a vertex/edge store addressed by
//! stable index handles, an adjacency capability shared by an unweighted and
//! a weighted edge variant, and two traversal algorithms (a weak-connectivity
//! check and a breadth-first shortest path) written once against that
//! capability.

use vstd::prelude::*;
use vstd::string::StrSliceExecFns;

pub mod algorithms;
pub mod graph;
pub mod unweighted;
pub mod weighted;

use graph::Handle;

verus! {

/// The text with every double-quote character preceded by a backslash, and
/// every other character kept as it is: what `make_safer` produces.
pub open spec fn escaped(s: Seq<char>) -> Seq<char>
    decreases s.len(),
{
    if s.len() == 0 {
        Seq::empty()
    } else {
        escaped(s.drop_last()) + if s.last() == '"' {
            seq!['\\', '"']
        } else {
            seq![s.last()]
        }
    }
}

/// Relies on String::push: appends exactly one character.
#[verifier::external_body]
fn push_char(s: &mut String, c: char)
    ensures
        final(s)@ == old(s)@.push(c),
{
    s.push(c);
}

/// Escapes a vertex label for the line-oriented graph description: every
/// embedded double quote is preceded by a backslash, so that it cannot break
/// the quoted label it stands in. All other characters are kept unchanged.
pub fn make_safer(input: &str) -> (out: String)
    ensures
        out@ == escaped(input@),
{
    let n = input.unicode_len();
    let mut out = String::new();
    for i in 0..n
        invariant
            n == input@.len(),
            out@ == escaped(input@.take(i as int)),
    {
        let c = input.get_char(i);
        proof {
            assert(input@.take(i + 1).drop_last() =~= input@.take(i as int));
            assert(input@.take(i + 1).last() == input@[i as int]);
        }
        if c == '"' {
            push_char(&mut out, '\\');
            push_char(&mut out, '"');
            proof {
                assert(out@ =~= escaped(input@.take(i + 1)));
            }
        } else {
            push_char(&mut out, c);
            proof {
                assert(out@ =~= escaped(input@.take(i + 1)));
            }
        }
    }
    proof {
        assert(input@.take(n as int) =~= input@);
    }
    out
}

/// Every out-neighbor index stored in the adjacency structure is itself a
/// valid vertex index.
pub open spec fn adj_wf(adj: Seq<Seq<int>>) -> bool {
    forall|u: int, i: int|
        0 <= u < adj.len() && 0 <= i < adj[u].len() ==> 0 <= #[trigger] adj[u][i] < adj.len()
}

/// A trait that determines whether an edge exists in a given `Graph<V, E>`.
///
/// Both edge variants expose their adjacency structure as a sequence of
/// out-neighbor lists, one per vertex in index order; the traversal
/// algorithms are written against this view alone.
pub trait HasEdge {
    /// The adjacency structure: element `u` lists the targets of the
    /// outgoing edges of vertex `u`, in insertion order.
    spec fn adj(&self) -> Seq<Seq<int>>;

    /// Returns true if and only if an edge from `from` to `to` exists.
    fn has_edge(&self, from: Handle, to: Handle) -> (r: bool)
        requires
            from.id() < self.adj().len(),
        ensures
            r == self.adj()[from.id() as int].contains(to.id() as int),
    ;

    /// Returns all targets of outgoing edges of `vertex`, in insertion order.
    fn connected_neighbors(&self, vertex: Handle) -> (r: Vec<Handle>)
        requires
            vertex.id() < self.adj().len(),
        ensures
            r@.map_values(|h: Handle| h.id() as int) == self.adj()[vertex.id() as int],
    ;
}

} // verus!
