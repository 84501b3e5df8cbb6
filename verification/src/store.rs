//! The graph store: a directed multigraph held by `petgraph`, reached only
//! through the trusted items below. Vertex handles are the dense indices
//! `0, 1, 2, ...` that `StableGraph::add_node` issues; since nothing here ever
//! removes a node or an edge, no index is ever reused.

use petgraph::stable_graph::StableGraph;
use petgraph::graph::NodeIndex;
use petgraph::Direction;

use vstd::prelude::*;

verus! {

/// A directed multigraph over unit weights. Payloads live with the engine;
/// the store holds only the structure: which vertices exist and which
/// directed edges join them.
#[verifier::external_body]
pub struct GraphStore {
    inner: StableGraph<(), ()>,
}

/// How many vertices the store holds. Vertices are exactly the handles
/// `0 .. store_node_count(g)`, in the order `graph_add_node` issued them.
pub uninterp spec fn store_node_count(g: GraphStore) -> nat;

/// The directed edges the store holds, as `(source, target)` handle pairs,
/// in the order `graph_add_edge` appended them.
pub uninterp spec fn store_edges(g: GraphStore) -> Seq<(int, int)>;

/// Relies on `StableGraph::new`: an empty graph with no nodes and no edges.
#[verifier::external_body]
pub fn graph_new() -> (g: GraphStore)
    ensures
        store_node_count(g) == 0,
        store_edges(g) == Seq::<(int, int)>::empty(),
{
    GraphStore { inner: StableGraph::new() }
}

/// Relies on `StableGraph::add_node`: with no removals ever performed the
/// free list is empty, so the new node's index equals the node count before
/// the call, and the count grows by one. Panics only at the index type's
/// maximum, which the precondition rules out.
#[verifier::external_body]
pub fn graph_add_node(g: &mut GraphStore) -> (ix: usize)
    requires
        store_node_count(*old(g)) < 0xFFFF_FFFFusize,
    ensures
        ix == store_node_count(*old(g)),
        store_node_count(*final(g)) == store_node_count(*old(g)) + 1,
        store_edges(*final(g)) == store_edges(*old(g)),
{
    g.inner.add_node(()).index()
}

/// Relies on `StableGraph::add_edge`: appends one directed edge `a -> b`
/// (parallel edges permitted) and touches nothing else. Panics only when an
/// endpoint does not exist or the edge count reaches the index type's
/// maximum; the preconditions rule both out.
#[verifier::external_body]
pub fn graph_add_edge(g: &mut GraphStore, a: usize, b: usize)
    requires
        a < store_node_count(*old(g)),
        b < store_node_count(*old(g)),
        store_edges(*old(g)).len() < 0xFFFF_FFFFusize,
    ensures
        store_node_count(*final(g)) == store_node_count(*old(g)),
        store_edges(*final(g)) == store_edges(*old(g)).push((a as int, b as int)),
{
    g.inner.add_edge(NodeIndex::new(a), NodeIndex::new(b), ());
}

/// Relies on `StableGraph::neighbors_directed` with `Direction::Outgoing`:
/// walks the out-edge list of `n`, yielding the target of each stored edge
/// whose source is `n` (once per parallel edge, most recent first). The
/// contract states soundness and completeness and leaves the order open.
#[verifier::external_body]
pub fn graph_neighbors_out(g: &GraphStore, n: usize) -> (r: Vec<usize>)
    requires
        n < store_node_count(*g),
    ensures
        forall|i: int|
            0 <= i < r@.len() ==> store_edges(*g).contains((n as int, #[trigger] r@[i] as int)),
        forall|k: int|
            0 <= k < store_edges(*g).len() && (#[trigger] store_edges(*g)[k]).0 == n as int
                ==> exists|i: int| 0 <= i < r@.len() && r@[i] as int == store_edges(*g)[k].1,
{
    g.inner
        .neighbors_directed(NodeIndex::new(n), Direction::Outgoing)
        .map(|w| w.index())
        .collect()
}

/// Relies on `StableGraph::neighbors_directed` with `Direction::Incoming`:
/// walks the in-edge list of `n`, yielding the source of each stored edge
/// whose target is `n` (once per parallel edge, most recent first). The
/// contract states soundness and completeness and leaves the order open.
#[verifier::external_body]
pub fn graph_neighbors_in(g: &GraphStore, n: usize) -> (r: Vec<usize>)
    requires
        n < store_node_count(*g),
    ensures
        forall|i: int|
            0 <= i < r@.len() ==> store_edges(*g).contains((#[trigger] r@[i] as int, n as int)),
        forall|k: int|
            0 <= k < store_edges(*g).len() && (#[trigger] store_edges(*g)[k]).1 == n as int
                ==> exists|i: int| 0 <= i < r@.len() && r@[i] as int == store_edges(*g)[k].0,
{
    g.inner
        .neighbors_directed(NodeIndex::new(n), Direction::Incoming)
        .map(|w| w.index())
        .collect()
}

} // verus!
