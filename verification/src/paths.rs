//! Walks, reachability and distances in an undirected graph given as a
//! node count and a sequence of edges, each edge a pair of node indices.
//!
//! Everything here is ghost code: definitions and lemmas. The nodes of a
//! graph with `n` nodes are the integers `0 .. n`; an edge whose end lies
//! outside that range links nothing.

use vstd::prelude::*;
use vstd::set_lib::*;

verus! {

/// Nodes `a` and `b` are joined by an edge, in either direction.
pub open spec fn linked(n: nat, edges: Seq<(int, int)>, a: int, b: int) -> bool {
    &&& 0 <= a < n
    &&& 0 <= b < n
    &&& exists|i: int|
        0 <= i < edges.len() && (#[trigger] edges[i] == (a, b) || edges[i] == (b, a))
}

/// There is a walk of exactly `len` edges from `a` to `b`.
pub open spec fn walk(n: nat, edges: Seq<(int, int)>, a: int, b: int, len: nat) -> bool
    decreases len,
{
    if len == 0 {
        a == b && 0 <= a < n
    } else {
        exists|c: int|
            walk(n, edges, a, c, (len - 1) as nat) && #[trigger] linked(n, edges, c, b)
    }
}

/// Node `b` can be reached from node `a`.
pub open spec fn reachable(n: nat, edges: Seq<(int, int)>, a: int, b: int) -> bool {
    exists|len: nat| walk(n, edges, a, b, len)
}

/// `d` is the number of edges of a shortest walk from `a` to `b`.
pub open spec fn is_distance(n: nat, edges: Seq<(int, int)>, a: int, b: int, d: nat) -> bool {
    &&& walk(n, edges, a, b, d)
    &&& forall|shorter: nat| shorter < d ==> !walk(n, edges, a, b, shorter)
}

/// The number of edges of a shortest walk from `a` to `b`; meaningful
/// where `b` can be reached from `a`.
pub open spec fn distance(n: nat, edges: Seq<(int, int)>, a: int, b: int) -> nat {
    choose|d: nat| is_distance(n, edges, a, b, d)
}

/// What node `v` adds to the sum of distances from `from`: its distance
/// where it can be reached, nothing where it cannot.
pub open spec fn distance_share(n: nat, edges: Seq<(int, int)>, from: int, v: int) -> nat {
    if reachable(n, edges, from, v) {
        distance(n, edges, from, v)
    } else {
        0
    }
}

/// The sum of the distances from `from` to the nodes below `upto` that can
/// be reached from it.
pub open spec fn distance_sum(n: nat, edges: Seq<(int, int)>, from: int, upto: nat) -> nat
    decreases upto,
{
    if upto == 0 {
        0
    } else {
        distance_sum(n, edges, from, (upto - 1) as nat) + distance_share(
            n,
            edges,
            from,
            upto - 1,
        )
    }
}

/// The sum of the distances from `from` to every node that can be reached
/// from it.
pub open spec fn total_distance(n: nat, edges: Seq<(int, int)>, from: int) -> nat {
    distance_sum(n, edges, from, n)
}

/// Node `v` is the least node of its connected component: no node with a
/// smaller index reaches it.
pub open spec fn is_leader(n: nat, edges: Seq<(int, int)>, v: int) -> bool {
    &&& 0 <= v < n
    &&& forall|u: int| 0 <= u < v ==> !reachable(n, edges, u, v)
}

/// The least nodes of the connected components.
pub open spec fn leaders(n: nat, edges: Seq<(int, int)>) -> Set<int> {
    Set::new(|v: int| is_leader(n, edges, v))
}

/// The number of connected components. Every component has exactly one
/// least node, so this counts the least nodes.
pub open spec fn component_count(n: nat, edges: Seq<(int, int)>) -> nat {
    leaders(n, edges).len()
}

/// Both ends of a walk are nodes of the graph.
pub proof fn lemma_walk_ends(n: nat, edges: Seq<(int, int)>, a: int, b: int, len: nat)
    requires
        walk(n, edges, a, b, len),
    ensures
        0 <= a < n,
        0 <= b < n,
    decreases len,
{
    if len > 0 {
        let c = choose|c: int|
            walk(n, edges, a, c, (len - 1) as nat) && #[trigger] linked(n, edges, c, b);
        lemma_walk_ends(n, edges, a, c, (len - 1) as nat);
    }
}

/// A walk can be prolonged by one edge at its end.
pub proof fn lemma_walk_step(n: nat, edges: Seq<(int, int)>, a: int, c: int, b: int, len: nat)
    requires
        walk(n, edges, a, c, len),
        linked(n, edges, c, b),
    ensures
        walk(n, edges, a, b, len + 1),
{
}

/// Two walks that meet end to start make one walk.
pub proof fn lemma_walk_join(
    n: nat,
    edges: Seq<(int, int)>,
    a: int,
    b: int,
    c: int,
    first: nat,
    second: nat,
)
    requires
        walk(n, edges, a, b, first),
        walk(n, edges, b, c, second),
    ensures
        walk(n, edges, a, c, first + second),
    decreases second,
{
    if second > 0 {
        let m = choose|m: int|
            walk(n, edges, b, m, (second - 1) as nat) && #[trigger] linked(n, edges, m, c);
        lemma_walk_join(n, edges, a, b, m, first, (second - 1) as nat);
    }
}

/// Edges have no direction.
pub proof fn lemma_linked_symmetric(n: nat, edges: Seq<(int, int)>, a: int, b: int)
    requires
        linked(n, edges, a, b),
    ensures
        linked(n, edges, b, a),
{
}

/// A walk can be walked backwards.
pub proof fn lemma_walk_reverse(n: nat, edges: Seq<(int, int)>, a: int, b: int, len: nat)
    requires
        walk(n, edges, a, b, len),
    ensures
        walk(n, edges, b, a, len),
    decreases len,
{
    if len > 0 {
        let c = choose|c: int|
            walk(n, edges, a, c, (len - 1) as nat) && #[trigger] linked(n, edges, c, b);
        lemma_walk_reverse(n, edges, a, c, (len - 1) as nat);
        lemma_linked_symmetric(n, edges, c, b);
        assert(walk(n, edges, b, b, 0));
        lemma_walk_join(n, edges, b, c, a, 1, (len - 1) as nat);
    }
}

/// Every node reaches itself.
pub proof fn lemma_reachable_reflexive(n: nat, edges: Seq<(int, int)>, a: int)
    requires
        0 <= a < n,
    ensures
        reachable(n, edges, a, a),
        is_distance(n, edges, a, a, 0),
{
}

/// Reachability has no direction.
pub proof fn lemma_reachable_symmetric(n: nat, edges: Seq<(int, int)>, a: int, b: int)
    requires
        reachable(n, edges, a, b),
    ensures
        reachable(n, edges, b, a),
{
    let len = choose|len: nat| walk(n, edges, a, b, len);
    lemma_walk_reverse(n, edges, a, b, len);
}

/// What is reached from a reached node is reached.
pub proof fn lemma_reachable_transitive(n: nat, edges: Seq<(int, int)>, a: int, b: int, c: int)
    requires
        reachable(n, edges, a, b),
        reachable(n, edges, b, c),
    ensures
        reachable(n, edges, a, c),
{
    let first = choose|len: nat| walk(n, edges, a, b, len);
    let second = choose|len: nat| walk(n, edges, b, c, len);
    lemma_walk_join(n, edges, a, b, c, first, second);
}

/// Among the walks from `a` to `b` there is a shortest one, no longer
/// than any given walk.
pub proof fn lemma_shortest_walk(n: nat, edges: Seq<(int, int)>, a: int, b: int, len: nat) -> (d:
    nat)
    requires
        walk(n, edges, a, b, len),
    ensures
        is_distance(n, edges, a, b, d),
        d <= len,
    decreases len,
{
    if exists|shorter: nat| shorter < len && walk(n, edges, a, b, shorter) {
        let shorter = choose|shorter: nat| shorter < len && walk(n, edges, a, b, shorter);
        lemma_shortest_walk(n, edges, a, b, shorter)
    } else {
        len
    }
}

/// A reachable node has a distance, and the distance is the only number
/// that is one.
pub proof fn lemma_distance_unique(n: nat, edges: Seq<(int, int)>, a: int, b: int, d: nat)
    requires
        is_distance(n, edges, a, b, d),
    ensures
        reachable(n, edges, a, b),
        distance(n, edges, a, b) == d,
        distance_share(n, edges, a, b) == d,
{
}

/// The distance of a reachable node is a distance.
pub proof fn lemma_distance_of_reachable(n: nat, edges: Seq<(int, int)>, a: int, b: int)
    requires
        reachable(n, edges, a, b),
    ensures
        is_distance(n, edges, a, b, distance(n, edges, a, b)),
{
    let len = choose|len: nat| walk(n, edges, a, b, len);
    lemma_shortest_walk(n, edges, a, b, len);
}

/// A shortest walk of `d` edges passes, for each `k` up to `d`, a node at
/// distance exactly `k`.
proof fn lemma_layers(n: nat, edges: Seq<(int, int)>, a: int, b: int, d: nat) -> (layers: Seq<int>)
    requires
        is_distance(n, edges, a, b, d),
    ensures
        layers.len() == d + 1,
        forall|k: int|
            0 <= k <= d ==> 0 <= #[trigger] layers[k] < n && is_distance(
                n,
                edges,
                a,
                layers[k],
                k as nat,
            ),
    decreases d,
{
    if d == 0 {
        seq![b]
    } else {
        let c = choose|c: int|
            walk(n, edges, a, c, (d - 1) as nat) && #[trigger] linked(n, edges, c, b);
        assert forall|shorter: nat| shorter < d - 1 implies !walk(n, edges, a, c, shorter) by {
            if walk(n, edges, a, c, shorter) {
                lemma_walk_step(n, edges, a, c, b, shorter);
            }
        }
        let inner = lemma_layers(n, edges, a, c, (d - 1) as nat);
        inner.push(b)
    }
}

/// A shortest walk never has as many edges as the graph has nodes.
pub proof fn lemma_distance_bound(n: nat, edges: Seq<(int, int)>, a: int, b: int, d: nat)
    requires
        is_distance(n, edges, a, b, d),
    ensures
        d < n,
{
    let layers = lemma_layers(n, edges, a, b, d);
    assert(layers.no_duplicates());
    layers.unique_seq_to_set();
    lemma_int_range(0, n as int);
    assert(layers.to_set().subset_of(set_int_range(0, n as int)));
    lemma_len_subset(layers.to_set(), set_int_range(0, n as int));
}

/// No node adds as much as the node count to a sum of distances.
pub proof fn lemma_share_bound(n: nat, edges: Seq<(int, int)>, from: int, v: int)
    ensures
        distance_share(n, edges, from, v) == 0 || distance_share(n, edges, from, v) < n,
{
    if reachable(n, edges, from, v) {
        lemma_distance_of_reachable(n, edges, from, v);
        lemma_distance_bound(n, edges, from, v, distance(n, edges, from, v));
    }
}

/// A sum of distances over the nodes below `upto` stays below `upto`
/// times the largest distance that a graph of `n` nodes allows.
pub proof fn lemma_distance_sum_bound(n: nat, edges: Seq<(int, int)>, from: int, upto: nat)
    requires
        n >= 1,
    ensures
        distance_sum(n, edges, from, upto) <= upto * (n - 1),
    decreases upto,
{
    if upto > 0 {
        lemma_distance_sum_bound(n, edges, from, (upto - 1) as nat);
        lemma_share_bound(n, edges, from, upto - 1);
        assert((upto - 1) * (n - 1) + (n - 1) == upto * (n - 1)) by (nonlinear_arith);
    }
}

/// The least nodes of the components are nodes: there are finitely many,
/// and no more than nodes.
pub proof fn lemma_leaders_finite(n: nat, edges: Seq<(int, int)>)
    ensures
        leaders(n, edges).finite(),
        component_count(n, edges) <= n,
{
    lemma_int_range(0, n as int);
    lemma_len_subset(leaders(n, edges), set_int_range(0, n as int));
}

/// A graph has no component exactly when it has no node.
pub proof fn lemma_component_count_positive(n: nat, edges: Seq<(int, int)>)
    ensures
        component_count(n, edges) <= n,
        n >= 1 ==> component_count(n, edges) >= 1,
        component_count(n, edges) == 0 <==> n == 0,
{
    lemma_leaders_finite(n, edges);
    if n >= 1 {
        assert(leaders(n, edges).contains(0));
        if leaders(n, edges).len() == 0 {
            leaders(n, edges).lemma_len0_is_empty();
        }
    }
}

/// Node `v` has no edge to another node.
pub open spec fn isolated(n: nat, edges: Seq<(int, int)>, v: int) -> bool {
    forall|b: int| b != v ==> !linked(n, edges, v, b)
}

/// Every two different nodes are joined by an edge.
pub open spec fn complete(n: nat, edges: Seq<(int, int)>) -> bool {
    forall|a: int, b: int| 0 <= a < n && 0 <= b < n && a != b ==> linked(n, edges, a, b)
}

/// A walk that starts at a node without edges to other nodes stays there.
pub proof fn lemma_isolated_walk(n: nat, edges: Seq<(int, int)>, v: int, b: int, len: nat)
    requires
        isolated(n, edges, v),
        walk(n, edges, v, b, len),
    ensures
        b == v,
    decreases len,
{
    if len > 0 {
        let c = choose|c: int|
            walk(n, edges, v, c, (len - 1) as nat) && #[trigger] linked(n, edges, c, b);
        lemma_isolated_walk(n, edges, v, c, (len - 1) as nat);
    }
}

/// A node without edges to other nodes reaches itself only, and its
/// distances sum up to nothing.
pub proof fn lemma_isolated_node(n: nat, edges: Seq<(int, int)>, v: int)
    requires
        0 <= v < n,
        isolated(n, edges, v),
    ensures
        forall|b: int| reachable(n, edges, v, b) <==> b == v,
        forall|b: int| reachable(n, edges, b, v) <==> b == v,
        total_distance(n, edges, v) == 0,
{
    lemma_reachable_reflexive(n, edges, v);
    assert forall|b: int| reachable(n, edges, v, b) implies b == v by {
        let len = choose|len: nat| walk(n, edges, v, b, len);
        lemma_isolated_walk(n, edges, v, b, len);
    }
    assert forall|b: int| reachable(n, edges, b, v) implies b == v by {
        lemma_reachable_symmetric(n, edges, b, v);
    }
    lemma_isolated_sum(n, edges, v, n);
}

/// From a node that reaches itself only, every sum of distances is zero.
proof fn lemma_isolated_sum(n: nat, edges: Seq<(int, int)>, v: int, upto: nat)
    requires
        0 <= v < n,
        forall|b: int| reachable(n, edges, v, b) <==> b == v,
    ensures
        distance_sum(n, edges, v, upto) == 0,
    decreases upto,
{
    if upto > 0 {
        lemma_isolated_sum(n, edges, v, (upto - 1) as nat);
        if upto - 1 == v {
            lemma_reachable_reflexive(n, edges, v);
        }
    }
}

/// A graph in which no node has an edge to another node has as many
/// components as nodes.
pub proof fn lemma_all_isolated(n: nat, edges: Seq<(int, int)>)
    requires
        forall|v: int| 0 <= v < n ==> isolated(n, edges, v),
    ensures
        component_count(n, edges) == n,
{
    assert forall|v: int| 0 <= v < n implies is_leader(n, edges, v) by {
        lemma_isolated_node(n, edges, v);
    }
    assert(leaders(n, edges) =~= set_int_range(0, n as int));
    lemma_int_range(0, n as int);
}

/// In a graph in which every two nodes are joined, every other node is at
/// distance one.
pub proof fn lemma_complete_distance(n: nat, edges: Seq<(int, int)>, a: int, b: int)
    requires
        complete(n, edges),
        0 <= a < n,
        0 <= b < n,
    ensures
        reachable(n, edges, a, b),
        distance_share(n, edges, a, b) == if a == b {
            0nat
        } else {
            1nat
        },
{
    lemma_reachable_reflexive(n, edges, a);
    if a != b {
        lemma_walk_step(n, edges, a, a, b, 0);
        assert(forall|shorter: nat| shorter < 1 ==> !walk(n, edges, a, b, shorter));
        lemma_distance_unique(n, edges, a, b, 1);
    }
}

/// In a graph in which every two nodes are joined, the distances from a
/// node to the nodes below `upto` sum up to the number of other nodes
/// below `upto`.
proof fn lemma_complete_sum(n: nat, edges: Seq<(int, int)>, a: int, upto: nat)
    requires
        complete(n, edges),
        0 <= a < n,
        upto <= n,
    ensures
        distance_sum(n, edges, a, upto) == if upto <= a {
            upto as int
        } else {
            upto - 1
        },
    decreases upto,
{
    if upto > 0 {
        lemma_complete_sum(n, edges, a, (upto - 1) as nat);
        lemma_complete_distance(n, edges, a, upto - 1);
    }
}

/// A graph with a node in which every two nodes are joined is one
/// component, and from each node the distances sum up to the number of
/// other nodes.
pub proof fn lemma_complete_graph(n: nat, edges: Seq<(int, int)>)
    requires
        n >= 1,
        complete(n, edges),
    ensures
        component_count(n, edges) == 1,
        forall|v: int| 0 <= v < n ==> total_distance(n, edges, v) == n - 1,
{
    assert forall|v: int| is_leader(n, edges, v) <==> v == 0 by {
        if 0 < v < n {
            lemma_complete_distance(n, edges, 0, v);
        }
    }
    assert(leaders(n, edges) =~= set![0int]);
    assert(set![0int].len() == 1);
    assert forall|v: int| 0 <= v < n implies total_distance(n, edges, v) == n - 1 by {
        lemma_complete_sum(n, edges, v, n);
    }
}

/// Every node is reached by exactly one least node of a component: the
/// least nodes stand one for each component.
pub proof fn lemma_one_leader(n: nat, edges: Seq<(int, int)>, v: int) -> (leader: int)
    requires
        0 <= v < n,
    ensures
        is_leader(n, edges, leader),
        reachable(n, edges, leader, v),
        forall|other: int|
            is_leader(n, edges, other) && reachable(n, edges, other, v) ==> other == leader,
{
    lemma_reachable_reflexive(n, edges, v);
    let leader = lemma_least_reaching(n, edges, v, v);
    assert forall|u: int| 0 <= u < leader implies !reachable(n, edges, u, leader) by {
        if reachable(n, edges, u, leader) {
            lemma_reachable_transitive(n, edges, u, leader, v);
        }
    }
    assert forall|other: int|
        is_leader(n, edges, other) && reachable(n, edges, other, v) implies other == leader by {
        lemma_reachable_symmetric(n, edges, leader, v);
        lemma_reachable_transitive(n, edges, other, v, leader);
        lemma_reachable_symmetric(n, edges, other, leader);
    }
    leader
}

/// The least node that reaches `v`, among the nodes up to `bound`.
proof fn lemma_least_reaching(n: nat, edges: Seq<(int, int)>, v: int, bound: int) -> (least: int)
    requires
        0 <= bound < n,
        reachable(n, edges, bound, v),
    ensures
        0 <= least <= bound,
        reachable(n, edges, least, v),
        forall|u: int| 0 <= u < least ==> !reachable(n, edges, u, v),
    decreases bound,
{
    if exists|u: int| 0 <= u < bound && reachable(n, edges, u, v) {
        let u = choose|u: int| 0 <= u < bound && reachable(n, edges, u, v);
        lemma_least_reaching(n, edges, v, u)
    } else {
        bound
    }
}

} // verus!
