//! The task graph is a `petgraph` directed graph whose node weights are task
//! names. This module declares the graph type to Verus and gives the graph
//! operations that the scheduler uses their contracts.
use petgraph::graph::{Graph, NodeIndex};
use petgraph::{Directed, Direction};
use crate::text::ints;
use crate::dag::paths::{edges_in_range, incoming_sources, is_topological_order, on_cycle, outgoing_targets};
use vstd::prelude::*;

verus! {

#[verifier::external_type_specification]
#[verifier::external_body]
#[verifier::reject_recursive_types(N)]
#[verifier::reject_recursive_types(E)]
#[verifier::reject_recursive_types(Ty)]
#[verifier::reject_recursive_types(Ix)]
pub struct ExGraph<N, E, Ty, Ix>(Graph<N, E, Ty, Ix>);

#[verifier::external_type_specification]
#[verifier::external_body]
pub struct ExDirected(Directed);

/// The weights of the nodes of a task graph, in index order.
pub uninterp spec fn graph_nodes(g: Graph<String, (), Directed, u32>) -> Seq<Seq<char>>;

/// The edges of a task graph as (source, target) index pairs, in the order
/// in which they were added.
pub uninterp spec fn graph_edges(g: Graph<String, (), Directed, u32>) -> Seq<(int, int)>;

/// `Graph::new`: the new graph has no nodes and no edges.
#[verifier::external_body]
pub(crate) fn graph_new() -> (g: Graph<String, (), Directed, u32>)
    ensures
        graph_nodes(g) == Seq::<Seq<char>>::empty(),
        graph_edges(g) == Seq::<(int, int)>::empty(),
{
    Graph::new()
}

/// `Graph::add_node`: appends a node with the given weight and returns its
/// index, which is the former node count. It panics when the node count
/// has reached `u32::MAX`, which `requires` rules out.
#[verifier::external_body]
pub(crate) fn graph_add_node(g: &mut Graph<String, (), Directed, u32>, weight: String) -> (idx: usize)
    requires
        graph_nodes(*old(g)).len() < u32::MAX,
    ensures
        idx == graph_nodes(*old(g)).len(),
        graph_nodes(*final(g)) == graph_nodes(*old(g)).push(weight@),
        graph_edges(*final(g)) == graph_edges(*old(g)),
{
    g.add_node(weight).index()
}

/// `Graph::add_edge`: appends an edge from `a` to `b`. It panics when a
/// node does not exist or the edge count has reached `u32::MAX`, which
/// `requires` rules out.
#[verifier::external_body]
pub(crate) fn graph_add_edge(g: &mut Graph<String, (), Directed, u32>, a: usize, b: usize)
    requires
        a < graph_nodes(*old(g)).len(),
        b < graph_nodes(*old(g)).len(),
        graph_nodes(*old(g)).len() <= u32::MAX,
        graph_edges(*old(g)).len() < u32::MAX,
    ensures
        graph_nodes(*final(g)) == graph_nodes(*old(g)),
        graph_edges(*final(g)) == graph_edges(*old(g)).push((a as int, b as int)),
{
    g.add_edge(NodeIndex::new(a), NodeIndex::new(b), ());
}

/// `Graph::node_count`.
#[verifier::external_body]
pub(crate) fn graph_node_count(g: &Graph<String, (), Directed, u32>) -> (n: usize)
    ensures
        n == graph_nodes(*g).len(),
{
    g.node_count()
}

/// Indexing the graph by a node: a copy of the node's weight.
#[verifier::external_body]
pub(crate) fn graph_node_weight(g: &Graph<String, (), Directed, u32>, v: usize) -> (w: String)
    requires
        v < graph_nodes(*g).len(),
        graph_nodes(*g).len() <= u32::MAX,
    ensures
        w@ == graph_nodes(*g)[v as int],
{
    g[NodeIndex::new(v)].clone()
}

/// `Graph::neighbors_directed(v, Incoming)`: the sources of the edges into
/// `v`, the most recently added edge first.
#[verifier::external_body]
pub(crate) fn graph_incoming(g: &Graph<String, (), Directed, u32>, v: usize) -> (r: Vec<usize>)
    requires
        v < graph_nodes(*g).len(),
        graph_nodes(*g).len() <= u32::MAX,
    ensures
        ints(r@) == incoming_sources(graph_edges(*g), v as int).reverse(),
{
    g.neighbors_directed(NodeIndex::new(v), Direction::Incoming).map(|n| n.index()).collect()
}

/// `Graph::neighbors_directed(v, Outgoing)`: the targets of the edges out
/// of `v`, the most recently added edge first.
#[verifier::external_body]
pub(crate) fn graph_outgoing(g: &Graph<String, (), Directed, u32>, v: usize) -> (r: Vec<usize>)
    requires
        v < graph_nodes(*g).len(),
        graph_nodes(*g).len() <= u32::MAX,
    ensures
        ints(r@) == outgoing_targets(graph_edges(*g), v as int).reverse(),
{
    g.neighbors_directed(NodeIndex::new(v), Direction::Outgoing).map(|n| n.index()).collect()
}

/// `petgraph::algo::toposort`: every node once, each before the targets of
/// its edges, when the graph has no cycle; otherwise a node that lies on a
/// cycle (a self loop counts). Which order, and which node of a cycle, is
/// not stated.
#[verifier::external_body]
pub(crate) fn graph_toposort(g: &Graph<String, (), Directed, u32>) -> (r: Result<Vec<usize>, usize>)
    requires
        graph_nodes(*g).len() <= u32::MAX,
        edges_in_range(graph_nodes(*g).len() as int, graph_edges(*g)),
    ensures
        match r {
            Ok(ord) => is_topological_order(
                graph_nodes(*g).len() as int,
                graph_edges(*g),
                ints(ord@),
            ),
            Err(v) => v < graph_nodes(*g).len() && on_cycle(graph_edges(*g), v as int),
        },
{
    match petgraph::algo::toposort(g, None) {
        Ok(order) => Ok(order.into_iter().map(|n| n.index()).collect()),
        Err(cycle) => Err(cycle.node_id().index()),
    }
}

} // verus!
