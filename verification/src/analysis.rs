//! The two measures of a team graph: how many connected components it
//! has, and how close each node is to the nodes it can reach.

use crate::network::{count_components, edge_ends, node_names, shortest_paths};
use crate::paths::{
    component_count, distance_sum, is_distance, lemma_component_count_positive,
    lemma_distance_sum_bound, reachable, total_distance,
};
use crate::team_graph::TeamGraph;
use std::collections::HashMap;
use vstd::prelude::*;

verus! {

/// A closeness score as an exact fraction. A score that this library
/// computes has a denominator other than zero; the score zero is `0 / 1`.
#[derive(Clone, Copy, Debug, PartialEq, Eq, Structural)]
pub struct Closeness {
    pub numerator: u64,
    pub denominator: u64,
}

impl Closeness {
    /// The fraction as a pair of numbers: numerator, denominator.
    pub open spec fn ratio(self) -> (nat, nat) {
        (self.numerator as nat, self.denominator as nat)
    }
}

/// The closeness of node `v` in a graph of `n` nodes, as numerator and
/// denominator: the number of other nodes of the whole graph over the sum
/// of the distances from `v` to the nodes it reaches, and zero where `v`
/// reaches no other node. Nodes out of reach add nothing to the sum and
/// still count in the numerator, so the score can exceed one in a graph
/// that is not connected.
pub open spec fn closeness(n: nat, edges: Seq<(int, int)>, v: int) -> (nat, nat) {
    let total = total_distance(n, edges, v);
    if total > 0 {
        ((n - 1) as nat, total)
    } else {
        (0, 1)
    }
}

/// The score that belongs to a sum of distances in a graph of
/// `node_count` nodes.
pub fn score(node_count: usize, total: u64) -> (c: Closeness)
    requires
        node_count >= 1,
    ensures
        c.ratio() == if total > 0 {
            ((node_count - 1) as nat, total as nat)
        } else {
            (0nat, 1nat)
        },
{
    if total > 0 {
        Closeness { numerator: (node_count - 1) as u64, denominator: total }
    } else {
        Closeness { numerator: 0, denominator: 1 }
    }
}

/// The number of connected components of the graph, a node without edges
/// being a component of its own.
pub fn find_connected_components(graph: &TeamGraph) -> (count: usize)
    ensures
        count == component_count(graph.names().len(), graph.edges()),
        count <= graph.names().len(),
        graph.names().len() >= 1 ==> count >= 1,
        count == 0 <==> graph.names().len() == 0,
{
    let inner = graph.as_petgraph();
    proof {
        lemma_component_count_positive(graph.names().len(), graph.edges());
    }
    count_components(inner)
}

/// The sum of the distances from `from` to the nodes that `lengths` has an
/// entry for.
fn sum_lengths(
    node_count: usize,
    lengths: &HashMap<usize, u64>,
    from: usize,
    Ghost(edges): Ghost<Seq<(int, int)>>,
) -> (total: u64)
    requires
        from < node_count <= u32::MAX,
        forall|v: usize|
            lengths@.contains_key(v) <==> reachable(
                node_count as nat,
                edges,
                from as int,
                v as int,
            ),
        forall|v: usize|
            lengths@.contains_key(v) ==> is_distance(
                node_count as nat,
                edges,
                from as int,
                v as int,
                lengths@[v] as nat,
            ),
    ensures
        total == total_distance(node_count as nat, edges, from as int),
{
    let ghost n = node_count as nat;
    let mut total: u64 = 0;
    let mut v: usize = 0;
    while v < node_count
        invariant
            v <= node_count <= u32::MAX,
            from < node_count,
            n == node_count,
            total == distance_sum(n, edges, from as int, v as nat),
            forall|v: usize|
                lengths@.contains_key(v) <==> reachable(
                    n,
                    edges,
                    from as int,
                    v as int,
                ),
            forall|v: usize|
                lengths@.contains_key(v) ==> is_distance(
                    n,
                    edges,
                    from as int,
                    v as int,
                    lengths@[v] as nat,
                ),
        decreases node_count - v,
    {
        proof {
            lemma_distance_sum_bound(n, edges, from as int, (v + 1) as nat);
            assert((v + 1) * (n - 1) <= 0xFFFF_FFFF * 0xFFFF_FFFF) by (nonlinear_arith)
                requires
                    0 <= v + 1 <= 0xFFFF_FFFF,
                    0 <= n - 1 <= 0xFFFF_FFFF,
            ;
        }
        if let Some(length) = lengths.get(&v) {
            total = total + *length;
        }
        v += 1;
    }
    total
}

/// The closeness score of every node, by node index.
pub fn compute_closeness_centrality(graph: &TeamGraph) -> (scores: HashMap<usize, Closeness>)
    ensures
        forall|v: usize| scores@.contains_key(v) <==> v < graph.names().len(),
        forall|v: usize|
            v < graph.names().len() ==> (#[trigger] scores@[v]).ratio() == closeness(
                graph.names().len(),
                graph.edges(),
                v as int,
            ),
{
    let inner = graph.as_petgraph();
    let node_count = graph.node_count();
    let ghost n = graph.names().len();
    let ghost edges = graph.edges();
    let mut scores: HashMap<usize, Closeness> = HashMap::new();
    let mut node: usize = 0;
    while node < node_count
        invariant
            node <= node_count <= u32::MAX,
            n == node_count,
            n == node_names(*inner).len(),
            edges == edge_ends(*inner),
            forall|v: usize| scores@.contains_key(v) <==> v < node,
            forall|v: usize|
                v < node ==> (#[trigger] scores@[v]).ratio() == closeness(n, edges, v as int),
        decreases node_count - node,
    {
        let lengths = shortest_paths(inner, node);
        let total = sum_lengths(node_count, &lengths, node, Ghost(edges));
        scores.insert(node, score(node_count, total));
        node += 1;
    }
    scores
}

} // verus!
