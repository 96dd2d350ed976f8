//! The package graph: a `petgraph` directed graph whose nodes are packages
//! and whose edges are dependency relations.
//!
//! The graph's contents are named by `graph_nodes` (the node weights, by
//! index) and `graph_edges` (the edges as source, target and weight, in the
//! order they were added). The functions below call `petgraph`'s `Graph`
//! and are trusted to change and report those contents as their contracts
//! say.
use vstd::prelude::*;
use petgraph::graph::{DiGraph, NodeIndex};
use crate::dependency_graph::{PackageNode, DependencyEdge};

verus! {

/// The graph type of the dependency graph.
pub type PackageGraph = DiGraph<PackageNode, DependencyEdge>;

#[verifier::external_type_specification]
#[verifier::external_body]
#[verifier::reject_recursive_types(N)]
#[verifier::reject_recursive_types(E)]
#[verifier::reject_recursive_types(Ty)]
#[verifier::reject_recursive_types(Ix)]
pub struct ExGraph<N, E, Ty, Ix>(petgraph::graph::Graph<N, E, Ty, Ix>);

#[verifier::external_type_specification]
#[verifier::external_body]
pub struct ExDirected(petgraph::Directed);

/// The node weights of `g`, by node index.
pub uninterp spec fn graph_nodes(g: DiGraph<PackageNode, DependencyEdge>) -> Seq<PackageNode>;

/// The edges of `g` as (source, target, weight), in the order they were added.
pub uninterp spec fn graph_edges(g: DiGraph<PackageNode, DependencyEdge>) -> Seq<
    (u32, u32, DependencyEdge),
>;

/// The targets of the edges that leave `a`, most recently added first.
pub open spec fn out_neighbors(edges: Seq<(u32, u32, DependencyEdge)>, a: u32) -> Seq<u32>
    decreases edges.len(),
{
    if edges.len() == 0 {
        seq![]
    } else {
        let rest = out_neighbors(edges.drop_last(), a);
        if edges.last().0 == a {
            seq![edges.last().1] + rest
        } else {
            rest
        }
    }
}

/// `DiGraph::new`: a graph with no node and no edge.
#[verifier::external_body]
pub(crate) fn graph_new() -> (g: PackageGraph)
    ensures
        graph_nodes(g) == Seq::<PackageNode>::empty(),
        graph_edges(g) == Seq::<(u32, u32, DependencyEdge)>::empty(),
{
    DiGraph::new()
}

/// `Graph::add_node`: appends a node and returns its index, the former node
/// count. It panics when the index would be `u32::MAX`, which `requires`
/// leaves out.
#[verifier::external_body]
pub(crate) fn graph_add_node(g: &mut PackageGraph, weight: PackageNode) -> (idx: u32)
    requires
        graph_nodes(*old(g)).len() < u32::MAX,
    ensures
        idx == graph_nodes(*old(g)).len(),
        graph_nodes(*final(g)) == graph_nodes(*old(g)).push(weight),
        graph_edges(*final(g)) == graph_edges(*old(g)),
{
    g.add_node(weight).index() as u32
}

/// `Graph::add_edge`: appends the edge `a -> b`. It panics when `a` or `b`
/// is not a node or when the edge index would be `u32::MAX`, which
/// `requires` leaves out.
#[verifier::external_body]
pub(crate) fn graph_add_edge(g: &mut PackageGraph, a: u32, b: u32, weight: DependencyEdge)
    requires
        a < graph_nodes(*old(g)).len(),
        b < graph_nodes(*old(g)).len(),
        graph_edges(*old(g)).len() < u32::MAX,
    ensures
        graph_nodes(*final(g)) == graph_nodes(*old(g)),
        graph_edges(*final(g)) == graph_edges(*old(g)).push((a, b, weight)),
{
    g.add_edge(NodeIndex::new(a as usize), NodeIndex::new(b as usize), weight);
}

/// `Graph::node_weight`: the weight of node `i`, if it is a node.
#[verifier::external_body]
pub(crate) fn graph_node_weight(g: &PackageGraph, i: u32) -> (r: Option<&PackageNode>)
    ensures
        i < graph_nodes(*g).len() ==> r == Some(&graph_nodes(*g)[i as int]),
        i >= graph_nodes(*g).len() ==> r is None,
{
    g.node_weight(NodeIndex::new(i as usize))
}

/// `Graph::neighbors` on a directed graph: the targets of the edges that
/// leave `a`, in the reverse order of their addition.
#[verifier::external_body]
pub(crate) fn graph_neighbors(g: &PackageGraph, a: u32) -> (r: Vec<u32>)
    requires
        a < graph_nodes(*g).len(),
    ensures
        r@ == out_neighbors(graph_edges(*g), a),
{
    g.neighbors(NodeIndex::new(a as usize)).map(|n| n.index() as u32).collect()
}

} // verus!
