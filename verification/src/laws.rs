//! What holds of every roster and of the graph that is built from it.

use crate::analysis::closeness;
use crate::paths::{
    complete, component_count, is_leader, isolated, lemma_all_isolated, lemma_complete_graph,
    lemma_component_count_positive, lemma_isolated_node, lemma_one_leader, linked, reachable,
};
use crate::roster::{
    lemma_cliques_len, lemma_node_of, pair_total, roster_edges, roster_groups, roster_names,
    node_of, Player,
};
use crate::team_graph::TeamGraph;
use crate::teammates::{
    lemma_edge_origin, lemma_linked_are_teammates, lemma_node_has_record,
    lemma_same_node_same_name, teammates,
};
use vstd::prelude::*;

verus! {

/// Every record names the same team.
pub open spec fn one_team(players: Seq<Player>) -> bool {
    forall|i: int, j: int|
        0 <= i < players.len() && 0 <= j < players.len() ==> players[i].team@
            == players[j].team@
}

/// No team is named by records of two different players.
pub open spec fn no_shared_team(players: Seq<Player>) -> bool {
    forall|i: int, j: int|
        0 <= i < players.len() && 0 <= j < players.len() && players[i].team@ == players[j].team@
            ==> players[i].player_name@ == players[j].player_name@
}

/// The player of record `record` is alone in every team that lists the
/// player.
pub open spec fn without_teammates(players: Seq<Player>, record: int) -> bool {
    forall|i: int, j: int|
        0 <= i < players.len() && 0 <= j < players.len() && players[i].player_name@
            == players[record].player_name@ && players[i].team@ == players[j].team@
            ==> players[j].player_name@ == players[record].player_name@
}

/// `graph` is the graph of the roster `players`.
pub open spec fn built_from(graph: TeamGraph, players: Seq<Player>) -> bool {
    &&& graph.names() == roster_names(players)
    &&& graph.edges() == roster_edges(players)
}

/// A graph has no component exactly when it has no node, and never more
/// components than nodes.
pub proof fn law_component_count_range(n: nat, edges: Seq<(int, int)>)
    ensures
        n >= 1 ==> 1 <= component_count(n, edges) <= n,
        component_count(n, edges) == 0 <==> n == 0,
{
    lemma_component_count_positive(n, edges);
}

/// Counting the least node of each component counts the components: every
/// node is reached by exactly one node that no smaller node reaches.
pub proof fn law_one_leader_per_component(n: nat, edges: Seq<(int, int)>, v: int)
    requires
        0 <= v < n,
    ensures
        exists|leader: int|
            {
                &&& #[trigger] is_leader(n, edges, leader)
                &&& reachable(n, edges, leader, v)
                &&& forall|other: int|
                    is_leader(n, edges, other) && reachable(n, edges, other, v) ==> other
                        == leader
            },
{
    lemma_one_leader(n, edges, v);
}

/// The graph of a roster has one edge for every pair of members of one
/// team, summed over the teams.
pub proof fn law_edge_count(players: Seq<Player>)
    ensures
        roster_edges(players).len() == pair_total(
            roster_groups(players),
            roster_groups(players).len(),
        ),
{
    lemma_cliques_len(roster_groups(players), roster_groups(players).len());
}

/// Where every record names the same team, the graph joins every two
/// nodes.
pub proof fn lemma_one_team_complete(players: Seq<Player>)
    requires
        one_team(players),
    ensures
        complete(roster_names(players).len(), roster_edges(players)),
{
    let n = roster_names(players).len();
    let edges = roster_edges(players);
    assert forall|a: int, b: int| 0 <= a < n && 0 <= b < n && a != b implies linked(
        n,
        edges,
        a,
        b,
    ) by {
        lemma_node_has_record(players, a);
        lemma_node_has_record(players, b);
        lemma_linked_are_teammates(players, a, b);
    }
}

/// A roster with at least one record in which every record names the same
/// team gives a single component, and where it has two players or more,
/// every node has the closeness one: as many other nodes as the distances
/// to them sum up to. (A lone player reaches no one and has the closeness
/// zero.)
pub proof fn law_one_team_is_a_clique(players: Seq<Player>)
    requires
        players.len() >= 1,
        one_team(players),
    ensures
        roster_names(players).len() >= 1,
        component_count(roster_names(players).len(), roster_edges(players)) == 1,
        roster_names(players).len() >= 2 ==> forall|v: int|
            0 <= v < roster_names(players).len() ==> #[trigger] closeness(
                roster_names(players).len(),
                roster_edges(players),
                v,
            ) == (
                (roster_names(players).len() - 1) as nat,
                (roster_names(players).len() - 1) as nat,
            ),
        roster_names(players).len() == 1 ==> closeness(
            roster_names(players).len(),
            roster_edges(players),
            0,
        ) == (0nat, 1nat),
{
    lemma_one_team_complete(players);
    lemma_complete_graph(roster_names(players).len(), roster_edges(players));
}

/// In the graph of a roster, the node of a player who is alone in every
/// team that lists the player has no edge to another node.
pub proof fn lemma_loner_isolated(players: Seq<Player>, record: int)
    requires
        0 <= record < players.len(),
        without_teammates(players, record),
    ensures
        isolated(roster_names(players).len(), roster_edges(players), node_of(players, record)),
{
    let n = roster_names(players).len();
    let edges = roster_edges(players);
    let v = node_of(players, record);
    assert forall|b: int| b != v implies !linked(n, edges, v, b) by {
        lemma_linked_are_teammates(players, v, b);
        if teammates(players, v, b) {
            let (i, j) = choose|i: int, j: int|
                0 <= i < players.len() && 0 <= j < players.len() && #[trigger] node_of(
                    players,
                    i,
                ) == v && #[trigger] node_of(players, j) == b && players[i].team@
                    == players[j].team@;
            lemma_same_node_same_name(players, i, record);
        }
    }
}

/// A player who is alone in every team that lists the player is a
/// component alone: the player's node reaches no other node and no other
/// node reaches it, and its closeness is zero.
pub proof fn law_loner_is_a_singleton(players: Seq<Player>, record: int)
    requires
        0 <= record < players.len(),
        without_teammates(players, record),
    ensures
        0 <= node_of(players, record) < roster_names(players).len(),
        forall|b: int|
            reachable(
                roster_names(players).len(),
                roster_edges(players),
                node_of(players, record),
                b,
            ) <==> b == node_of(players, record),
        forall|b: int|
            reachable(
                roster_names(players).len(),
                roster_edges(players),
                b,
                node_of(players, record),
            ) <==> b == node_of(players, record),
        closeness(roster_names(players).len(), roster_edges(players), node_of(players, record))
            == (0nat, 1nat),
{
    lemma_node_of(players, record);
    lemma_loner_isolated(players, record);
    lemma_isolated_node(
        roster_names(players).len(),
        roster_edges(players),
        node_of(players, record),
    );
}

/// A roster in which no team is shared by two players gives as many
/// components as nodes, and every node has the closeness zero.
pub proof fn law_no_shared_team(players: Seq<Player>)
    requires
        no_shared_team(players),
    ensures
        roster_edges(players).len() == 0,
        component_count(roster_names(players).len(), roster_edges(players)) == roster_names(
            players,
        ).len(),
        forall|v: int|
            0 <= v < roster_names(players).len() ==> #[trigger] closeness(
                roster_names(players).len(),
                roster_edges(players),
                v,
            ) == (0nat, 1nat),
{
    let n = roster_names(players).len();
    let edges = roster_edges(players);
    assert forall|v: int| 0 <= v < n implies isolated(n, edges, v) && closeness(n, edges, v) == (
        0nat,
        1nat,
    ) by {
        let record = lemma_node_has_record(players, v);
        law_loner_is_a_singleton(players, record);
        lemma_loner_isolated(players, record);
    }
    lemma_all_isolated(n, edges);
    if edges.len() > 0 {
        let pair = edges[0];
        lemma_edge_origin(players, pair.0, pair.1);
    }
}

/// Two graphs built from one roster have the same number of components
/// and the same closeness at every node.
pub proof fn law_rebuild_agrees(players: Seq<Player>, first: TeamGraph, second: TeamGraph)
    requires
        built_from(first, players),
        built_from(second, players),
    ensures
        first.names() == second.names(),
        first.edges() == second.edges(),
        component_count(first.names().len(), first.edges()) == component_count(
            second.names().len(),
            second.edges(),
        ),
        forall|v: int|
            closeness(first.names().len(), first.edges(), v) == closeness(
                second.names().len(),
                second.edges(),
                v,
            ),
{
}

} // verus!
