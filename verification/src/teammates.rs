//! Which nodes the graph of a roster joins: exactly the pairs of different
//! players that share a team.

use crate::paths::linked;
use crate::roster::{
    clique_edges, clique_rows, cliques, lemma_distinct, lemma_node_of, lemma_team_members,
    name_column, node_of, roster_edges, roster_groups, roster_names, roster_teams, team_column,
    team_members, Player,
};
use vstd::prelude::*;

verus! {

/// Nodes `a` and `b` are different and some team lists both.
pub open spec fn teammates(players: Seq<Player>, a: int, b: int) -> bool {
    &&& a != b
    &&& exists|i: int, j: int|
        0 <= i < players.len() && 0 <= j < players.len() && #[trigger] node_of(players, i) == a
            && #[trigger] node_of(players, j) == b && players[i].team@ == players[j].team@
}

/// The records of one node carry one name.
pub proof fn lemma_same_node_same_name(players: Seq<Player>, i: int, j: int)
    requires
        0 <= i < players.len(),
        0 <= j < players.len(),
    ensures
        node_of(players, i) == node_of(players, j) <==> players[i].player_name@
            == players[j].player_name@,
{
    lemma_node_of(players, i);
    lemma_node_of(players, j);
}

/// Every node is the node of some record.
pub proof fn lemma_node_has_record(players: Seq<Player>, v: int) -> (record: int)
    requires
        0 <= v < roster_names(players).len(),
    ensures
        0 <= record < players.len(),
        node_of(players, record) == v,
{
    let names = roster_names(players);
    let column = name_column(players);
    lemma_distinct(column);
    assert(column.contains(names[v]));
    let record = choose|i: int| 0 <= i < column.len() && column[i] == names[v];
    record
}

/// The first `rows` rows of a clique hold the pairs of an earlier member,
/// among the first `rows`, and a later one.
pub proof fn lemma_clique_rows_hold(members: Seq<int>, rows: nat, pair: (int, int))
    requires
        rows <= members.len(),
    ensures
        clique_rows(members, rows).contains(pair) <==> exists|p: int, q: int|
            0 <= p < rows && p < q < members.len() && #[trigger] members[p] == pair.0
                && #[trigger] members[q] == pair.1,
    decreases rows,
{
    if rows > 0 {
        let before = clique_rows(members, (rows - 1) as nat);
        let now = clique_rows(members, rows);
        lemma_clique_rows_hold(members, (rows - 1) as nat, pair);
        if now.contains(pair) {
            let e = choose|e: int| 0 <= e < now.len() && now[e] == pair;
            if e < before.len() {
                assert(before.contains(pair));
            } else {
                assert(members[rows - 1] == pair.0 && members[rows + (e - before.len())] == pair.1);
            }
        }
        if exists|p: int, q: int|
            0 <= p < rows && p < q < members.len() && #[trigger] members[p] == pair.0
                && #[trigger] members[q] == pair.1 {
            let (p, q) = choose|p: int, q: int|
                0 <= p < rows && p < q < members.len() && #[trigger] members[p] == pair.0
                    && #[trigger] members[q] == pair.1;
            if p < rows - 1 {
                let e = choose|e: int| 0 <= e < before.len() && before[e] == pair;
                assert(now[e] == pair);
            } else {
                assert(now[before.len() + (q - rows)] == pair);
            }
        }
    }
}

/// A clique holds the pairs of an earlier member and a later one.
pub proof fn lemma_clique_holds(members: Seq<int>, pair: (int, int))
    ensures
        clique_edges(members).contains(pair) <==> exists|p: int, q: int|
            0 <= p < q < members.len() && #[trigger] members[p] == pair.0
                && #[trigger] members[q] == pair.1,
{
    lemma_clique_rows_hold(members, members.len(), pair);
}

/// The cliques of the first groups hold what one of those groups' cliques
/// holds.
pub proof fn lemma_cliques_hold(groups: Seq<Seq<int>>, done: nat, pair: (int, int))
    requires
        done <= groups.len(),
    ensures
        cliques(groups, done).contains(pair) <==> exists|t: int|
            0 <= t < done && clique_edges(#[trigger] groups[t]).contains(pair),
    decreases done,
{
    if done > 0 {
        let before = cliques(groups, (done - 1) as nat);
        let last = clique_edges(groups[done - 1]);
        let now = cliques(groups, done);
        lemma_cliques_hold(groups, (done - 1) as nat, pair);
        if now.contains(pair) {
            let e = choose|e: int| 0 <= e < now.len() && now[e] == pair;
            if e < before.len() {
                assert(before.contains(pair));
            } else {
                assert(last[e - before.len()] == pair);
            }
        }
        if exists|t: int| 0 <= t < done && clique_edges(#[trigger] groups[t]).contains(pair) {
            let t = choose|t: int|
                0 <= t < done && clique_edges(#[trigger] groups[t]).contains(pair);
            if t < done - 1 {
                let e = choose|e: int| 0 <= e < before.len() && before[e] == pair;
                assert(now[e] == pair);
            } else {
                let k = choose|k: int| 0 <= k < last.len() && last[k] == pair;
                assert(now[before.len() + k] == pair);
            }
        }
    }
}

/// An edge of the graph of a roster joins two teammates, and two
/// teammates are joined by an edge in one direction or the other.
pub proof fn lemma_edge_origin(players: Seq<Player>, a: int, b: int)
    ensures
        roster_edges(players).contains((a, b)) ==> teammates(players, a, b),
        teammates(players, a, b) ==> roster_edges(players).contains((a, b)) || roster_edges(
            players,
        ).contains((b, a)),
{
    let groups = roster_groups(players);
    let teams = roster_teams(players);
    let total = players.len();
    lemma_cliques_hold(groups, groups.len(), (a, b));
    lemma_cliques_hold(groups, groups.len(), (b, a));
    if roster_edges(players).contains((a, b)) {
        let t = choose|t: int|
            0 <= t < groups.len() && clique_edges(#[trigger] groups[t]).contains((a, b));
        let members = team_members(players, teams[t], total);
        lemma_clique_holds(members, (a, b));
        lemma_team_members(players, teams[t], total);
        assert(members.contains(a) && members.contains(b));
    }
    if teammates(players, a, b) {
        let (i, j) = choose|i: int, j: int|
            0 <= i < total && 0 <= j < total && #[trigger] node_of(players, i) == a
                && #[trigger] node_of(players, j) == b && players[i].team@ == players[j].team@;
        let team = players[i].team@;
        lemma_distinct(team_column(players));
        assert(team_column(players)[i] == team);
        assert(team_column(players).contains(team));
        let t = choose|t: int| 0 <= t < teams.len() && teams[t] == team;
        let members = team_members(players, team, total);
        assert(groups[t] == members);
        lemma_team_members(players, team, total);
        assert(members.contains(a) && members.contains(b));
        lemma_clique_holds(members, (a, b));
        lemma_clique_holds(members, (b, a));
    }
}

/// The graph of a roster joins two nodes exactly where they are
/// teammates. In particular it joins no node to itself.
pub proof fn lemma_linked_are_teammates(players: Seq<Player>, a: int, b: int)
    ensures
        linked(roster_names(players).len(), roster_edges(players), a, b) <==> teammates(
            players,
            a,
            b,
        ),
{
    lemma_edge_origin(players, a, b);
    lemma_edge_origin(players, b, a);
    if teammates(players, a, b) {
        let (i, j) = choose|i: int, j: int|
            0 <= i < players.len() && 0 <= j < players.len() && #[trigger] node_of(players, i)
                == a && #[trigger] node_of(players, j) == b && players[i].team@
                == players[j].team@;
        lemma_node_of(players, i);
        lemma_node_of(players, j);
    }
}

} // verus!
