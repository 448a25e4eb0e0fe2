//! Trusted interface to the directed-graph type that holds the control-flow
//! topology. Nodes are dense indices (the position of each block in its
//! function), edges carry no weight; block data and lattice facts are kept
//! beside the graph, keyed by node index. Each wrapper states, over the two
//! names `cfg_node_count` and `cfg_edge_seq`, what the named library call
//! does.

use petgraph::graph::DiGraph;
use vstd::prelude::*;

verus! {

#[verifier::external_type_specification]
#[verifier::external_body]
#[verifier::reject_recursive_types(N)]
#[verifier::reject_recursive_types(E)]
#[verifier::reject_recursive_types(Ty)]
#[verifier::reject_recursive_types(Ix)]
pub struct ExGraph<N, E, Ty, Ix>(petgraph::graph::Graph<N, E, Ty, Ix>);

#[verifier::external_type_specification]
#[verifier::external_body]
pub struct ExDirected(petgraph::Directed);

/// How many nodes the graph holds; node indices are dense, `0..count`.
pub uninterp spec fn cfg_node_count(g: DiGraph<(), ()>) -> nat;

/// The graph's edges in insertion order, as (source, target) node indices.
pub uninterp spec fn cfg_edge_seq(g: DiGraph<(), ()>) -> Seq<(usize, usize)>;

/// Relies on Graph::new: an empty directed graph.
#[verifier::external_body]
pub fn cfg_new() -> (g: DiGraph<(), ()>)
    ensures
        cfg_node_count(g) == 0,
        cfg_edge_seq(g) == Seq::<(usize, usize)>::empty(),
{
    DiGraph::new()
}

/// Relies on Graph::node_count: the number of nodes.
#[verifier::external_body]
pub fn cfg_count(g: &DiGraph<(), ()>) -> (n: usize)
    ensures
        n == cfg_node_count(*g),
{
    g.node_count()
}

/// Relies on Graph::add_node: the new node gets the next dense index. The
/// call panics at the index type's maximum, which the bound excludes.
#[verifier::external_body]
pub fn cfg_add_node(g: &mut DiGraph<(), ()>) -> (i: usize)
    requires
        cfg_node_count(*old(g)) < 0xFFFF_FFFF,
    ensures
        i == cfg_node_count(*old(g)),
        cfg_node_count(*final(g)) == cfg_node_count(*old(g)) + 1,
        cfg_edge_seq(*final(g)) == cfg_edge_seq(*old(g)),
{
    g.add_node(()).index()
}

/// Relies on Graph::add_edge: appends one directed edge between existing
/// nodes. Out-of-bounds endpoints panic and the edge-index maximum errors;
/// the bounds exclude both.
#[verifier::external_body]
pub fn cfg_add_edge(g: &mut DiGraph<(), ()>, a: usize, b: usize)
    requires
        a < cfg_node_count(*old(g)),
        b < cfg_node_count(*old(g)),
        cfg_edge_seq(*old(g)).len() < 0xFFFF_FFFE,
    ensures
        cfg_node_count(*final(g)) == cfg_node_count(*old(g)),
        cfg_edge_seq(*final(g)) == cfg_edge_seq(*old(g)).push((a, b)),
{
    g.add_edge(
        petgraph::graph::NodeIndex::new(a),
        petgraph::graph::NodeIndex::new(b),
        (),
    );
}

/// Relies on Graph::neighbors_directed with the incoming direction: one
/// entry per edge into node `i`, each a valid node index.
#[verifier::external_body]
pub fn cfg_preds(g: &DiGraph<(), ()>, i: usize) -> (r: Vec<usize>)
    requires
        i < cfg_node_count(*g),
    ensures
        forall|p: usize| r@.contains(p) <==> cfg_edge_seq(*g).contains((p, i)),
        forall|k: int| 0 <= k < r@.len() ==> r@[k] < cfg_node_count(*g),
{
    g.neighbors_directed(petgraph::graph::NodeIndex::new(i), petgraph::Direction::Incoming)
        .map(|n| n.index())
        .collect()
}

} // verus!
