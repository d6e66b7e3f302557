//! The graph of a roster: a node for every player, an edge for every pair
//! of teammates.

use crate::network::{count_edges, count_nodes, edge_ends, edge_labels, node_names};
use petgraph::graph::UnGraph;
use vstd::prelude::*;

verus! {

/// An undirected graph with player names on its nodes. It is built once
/// and read from then on. It never holds more nodes than a 32-bit index
/// can tell apart.
pub struct TeamGraph {
    graph: UnGraph<String, &'static str>,
}

impl TeamGraph {
    #[verifier::type_invariant]
    spec fn within_index_range(self) -> bool {
        node_names(self.graph).len() <= u32::MAX
    }

    /// The names on the nodes, by node index.
    pub closed spec fn names(self) -> Seq<Seq<char>> {
        node_names(self.graph)
    }

    /// The two ends of each edge, by edge index.
    pub closed spec fn edges(self) -> Seq<(int, int)> {
        edge_ends(self.graph)
    }

    /// The label on each edge, by edge index.
    pub closed spec fn labels(self) -> Seq<Seq<char>> {
        edge_labels(self.graph)
    }

    /// Takes a finished graph into the library's type.
    pub(crate) fn seal(graph: UnGraph<String, &'static str>) -> (sealed: TeamGraph)
        requires
            node_names(graph).len() <= u32::MAX,
        ensures
            sealed.names() == node_names(graph),
            sealed.edges() == edge_ends(graph),
            sealed.labels() == edge_labels(graph),
    {
        TeamGraph { graph }
    }

    /// The graph as `petgraph` holds it, for reading.
    pub fn as_petgraph(&self) -> (graph: &UnGraph<String, &'static str>)
        ensures
            node_names(*graph) == self.names(),
            edge_ends(*graph) == self.edges(),
            edge_labels(*graph) == self.labels(),
            node_names(*graph).len() <= u32::MAX,
    {
        proof {
            use_type_invariant(self);
        }
        &self.graph
    }

    /// The number of nodes.
    pub fn node_count(&self) -> (count: usize)
        ensures
            count == self.names().len(),
            count <= u32::MAX,
    {
        proof {
            use_type_invariant(self);
        }
        count_nodes(&self.graph)
    }

    /// The number of edges.
    pub fn edge_count(&self) -> (count: usize)
        ensures
            count == self.edges().len(),
    {
        count_edges(&self.graph)
    }
}

} // verus!
