//! The undirected graph that holds one node per player and one edge per
//! pair of teammates.
//!
//! The graph itself and the two algorithms on it come from `petgraph`.
//! What this module states about them is taken on trust: each item below
//! names the function it stands for and says what is believed of it.

use crate::paths::{component_count, is_distance, reachable};
use petgraph::algo::{connected_components, dijkstra};
use petgraph::graph::{Graph, NodeIndex, UnGraph};
use petgraph::Undirected;
use std::collections::HashMap;
use vstd::prelude::*;

verus! {

/// `petgraph::graph::Graph`, held as an opaque value.
#[verifier::external_type_specification]
#[verifier::external_body]
#[verifier::reject_recursive_types(N)]
#[verifier::reject_recursive_types(E)]
#[verifier::reject_recursive_types(Ty)]
#[verifier::reject_recursive_types(Ix)]
pub struct ExGraph<N, E, Ty, Ix>(Graph<N, E, Ty, Ix>);

/// `petgraph::Undirected`, the marker of graphs whose edges have no
/// direction.
#[verifier::external_type_specification]
#[verifier::external_body]
pub struct ExUndirected(Undirected);

/// The names on the nodes of a graph, by node index.
pub uninterp spec fn node_names(g: Graph<String, &'static str, Undirected, u32>) -> Seq<Seq<char>>;

/// The two ends of each edge of a graph, by edge index, as node indices.
pub uninterp spec fn edge_ends(g: Graph<String, &'static str, Undirected, u32>) -> Seq<(int, int)>;

/// The label on each edge of a graph, by edge index.
pub uninterp spec fn edge_labels(g: Graph<String, &'static str, Undirected, u32>) -> Seq<Seq<char>>;

/// What it costs to walk along one edge: every edge counts the same.
pub fn edge_cost() -> (cost: u64)
    ensures
        cost == 1,
{
    1
}

/// `Graph::new_undirected`: a graph without nodes and without edges.
#[verifier::external_body]
pub(crate) fn empty_graph() -> (g: UnGraph<String, &'static str>)
    ensures
        node_names(g) == Seq::<Seq<char>>::empty(),
        edge_ends(g) == Seq::<(int, int)>::empty(),
        edge_labels(g) == Seq::<Seq<char>>::empty(),
{
    Graph::new_undirected()
}

/// `Graph::add_node`: a new node is appended after the existing ones and
/// its index, the former node count, is returned; the edges stay. The call
/// panics once the node count has reached the largest 32-bit number, which
/// the precondition excludes.
#[verifier::external_body]
pub(crate) fn push_node(g: &mut UnGraph<String, &'static str>, name: String) -> (index: usize)
    requires
        node_names(*old(g)).len() < u32::MAX,
    ensures
        node_names(*final(g)) == node_names(*old(g)).push(name@),
        edge_ends(*final(g)) == edge_ends(*old(g)),
        edge_labels(*final(g)) == edge_labels(*old(g)),
        index == node_names(*old(g)).len(),
{
    g.add_node(name).index()
}

/// `Graph::add_edge`: a new edge between two existing nodes is appended
/// after the existing ones, whether or not the two are joined already; the
/// nodes stay. The call panics where an end is no node of the graph or the
/// edge count has reached the largest 32-bit number, which the
/// precondition excludes.
#[verifier::external_body]
pub(crate) fn push_edge(
    g: &mut UnGraph<String, &'static str>,
    a: usize,
    b: usize,
    label: &'static str,
)
    requires
        a < node_names(*old(g)).len(),
        b < node_names(*old(g)).len(),
        node_names(*old(g)).len() <= u32::MAX,
        edge_ends(*old(g)).len() < u32::MAX,
    ensures
        node_names(*final(g)) == node_names(*old(g)),
        edge_ends(*final(g)) == edge_ends(*old(g)).push((a as int, b as int)),
        edge_labels(*final(g)) == edge_labels(*old(g)).push(label@),
{
    g.add_edge(NodeIndex::new(a), NodeIndex::new(b), label);
}

/// `Graph::node_count`: the number of nodes.
#[verifier::external_body]
pub(crate) fn count_nodes(g: &UnGraph<String, &'static str>) -> (count: usize)
    ensures
        count == node_names(*g).len(),
{
    g.node_count()
}

/// `Graph::edge_count`: the number of edges.
#[verifier::external_body]
pub(crate) fn count_edges(g: &UnGraph<String, &'static str>) -> (count: usize)
    ensures
        count == edge_ends(*g).len(),
{
    g.edge_count()
}

/// `petgraph::algo::connected_components`: the number of connected
/// components of the graph, an isolated node being a component of its own.
#[verifier::external_body]
pub(crate) fn count_components(g: &UnGraph<String, &'static str>) -> (count: usize)
    ensures
        count == component_count(node_names(*g).len(), edge_ends(*g)),
{
    connected_components(g)
}

/// `petgraph::algo::dijkstra` from `start` without a goal, every edge at
/// the cost `edge_cost`: the result has an entry for exactly the nodes
/// that can be reached from `start`, and the entry of a node is the number
/// of edges of a shortest walk to it. The node indices are handed out as
/// plain numbers.
#[verifier::external_body]
pub(crate) fn shortest_paths(
    g: &UnGraph<String, &'static str>,
    start: usize,
) -> (lengths: HashMap<usize, u64>)
    requires
        start < node_names(*g).len() <= u32::MAX,
    ensures
        forall|v: usize|
            lengths@.contains_key(v) <==> reachable(
                node_names(*g).len(),
                edge_ends(*g),
                start as int,
                v as int,
            ),
        forall|v: usize|
            lengths@.contains_key(v) ==> is_distance(
                node_names(*g).len(),
                edge_ends(*g),
                start as int,
                v as int,
                lengths@[v] as nat,
            ),
{
    dijkstra(g, NodeIndex::new(start), None, |_| edge_cost())
        .into_iter()
        .map(|(node, length)| (node.index(), length))
        .collect()
}

} // verus!
