//! Trusted boundary to petgraph's directed graph. The graph value itself
//! is opaque to the verifier; its contents are named by the two
//! uninterpreted functions `graph_nodes` and `graph_edges`, and the small
//! wrappers below state, over those names, what each petgraph call does:
//! `Graph::add_node` and `Graph::add_edge` append to the node and edge
//! lists and hand back the appended position, and the read-back calls
//! return those lists in index order.

use vstd::prelude::*;
use petgraph::graph::DiGraph;
use petgraph::graph::NodeIndex;
use petgraph::visit::EdgeRef;

verus! {

#[verifier::external_type_specification]
#[verifier::external_body]
#[verifier::reject_recursive_types(N)]
#[verifier::reject_recursive_types(E)]
#[verifier::reject_recursive_types(Ty)]
#[verifier::reject_recursive_types(Ix)]
pub struct ExGraph<N, E, Ty, Ix>(petgraph::graph::Graph<N, E, Ty, Ix>);

#[verifier::external_type_specification]
#[verifier::external_body]
pub struct ExDirected(petgraph::Directed);

/// The labels of the graph's nodes, in node-index order.
pub uninterp spec fn graph_nodes(g: DiGraph<String, u32>) -> Seq<Seq<char>>;

/// The graph's edges as (source index, target index, weight) triples, in
/// edge-index order.
pub uninterp spec fn graph_edges(g: DiGraph<String, u32>) -> Seq<(usize, usize, u32)>;

/// Relies on `Graph::new`: a freshly created graph has no nodes and no
/// edges.
#[verifier::external_body]
pub(crate) fn digraph_new() -> (g: DiGraph<String, u32>)
    ensures
        graph_nodes(g) == Seq::<Seq<char>>::empty(),
        graph_edges(g) == Seq::<(usize, usize, u32)>::empty(),
{
    DiGraph::new()
}

/// Relies on `Graph::add_node`: it appends a node holding the given label
/// and returns its index, the previous node count. It panics only when
/// the node count has reached the `u32` index limit, which the
/// precondition rules out.
#[verifier::external_body]
pub(crate) fn digraph_add_node(g: &mut DiGraph<String, u32>, label: String) -> (i: usize)
    requires
        graph_nodes(*old(g)).len() < 0xFFFF_FFFF,
    ensures
        graph_nodes(*final(g)) == graph_nodes(*old(g)).push(label@),
        graph_edges(*final(g)) == graph_edges(*old(g)),
        i == graph_nodes(*old(g)).len(),
{
    g.add_node(label).index()
}

/// Relies on `Graph::add_edge`: it appends an edge from `a` to `b` with
/// the given weight. It panics only when an endpoint does not exist or
/// the edge count has reached the `u32` index limit, which the
/// preconditions rule out.
#[verifier::external_body]
pub(crate) fn digraph_add_edge(g: &mut DiGraph<String, u32>, a: usize, b: usize, w: u32)
    requires
        a < graph_nodes(*old(g)).len(),
        b < graph_nodes(*old(g)).len(),
        graph_edges(*old(g)).len() < 0xFFFF_FFFF,
    ensures
        graph_nodes(*final(g)) == graph_nodes(*old(g)),
        graph_edges(*final(g)) == graph_edges(*old(g)).push((a, b, w)),
{
    g.add_edge(NodeIndex::new(a), NodeIndex::new(b), w);
}

/// Relies on `Graph::node_count`: the number of nodes in the graph.
#[verifier::external_body]
pub(crate) fn digraph_node_count(g: &DiGraph<String, u32>) -> (n: usize)
    ensures
        n == graph_nodes(*g).len(),
{
    g.node_count()
}

/// Relies on `Graph::node_weights`: it yields the node labels in
/// node-index order.
#[verifier::external_body]
pub(crate) fn digraph_node_labels(g: &DiGraph<String, u32>) -> (v: Vec<String>)
    ensures
        v@.map_values(|s: String| s@) == graph_nodes(*g),
{
    g.node_weights().cloned().collect()
}

/// Relies on `Graph::edge_references`: it yields the edges in edge-index
/// order, each with its endpoints and weight.
#[verifier::external_body]
pub(crate) fn digraph_edge_triples(g: &DiGraph<String, u32>) -> (v: Vec<(usize, usize, u32)>)
    ensures
        v@ == graph_edges(*g),
{
    g.edge_references().map(|e| (e.source().index(), e.target().index(), *e.weight())).collect()
}

} // verus!
