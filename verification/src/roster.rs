//! The roster: players with their teams, and what a roster says about the
//! graph that is built from it.
//!
//! A player's name stands for one node, whichever record names it first
//! decides its index, and later records with the same name are further
//! memberships of that node. A team's members are kept in the order in
//! which the roster first lists them, each member once.

use vstd::prelude::*;

verus! {

/// One record of the roster: a player and a team the player belongs to.
#[derive(Debug)]
pub struct Player {
    pub player_name: String,
    pub team: String,
}

impl Player {
    /// A record that lists `player_name` in `team`.
    pub fn new(player_name: &str, team: &str) -> (player: Player)
        ensures
            player.player_name@ == player_name@,
            player.team@ == team@,
    {
        Player { player_name: player_name.to_owned(), team: team.to_owned() }
    }
}

/// The player names of the records, in roster order.
pub open spec fn name_column(players: Seq<Player>) -> Seq<Seq<char>> {
    Seq::new(players.len(), |i: int| players[i].player_name@)
}

/// The team names of the records, in roster order.
pub open spec fn team_column(players: Seq<Player>) -> Seq<Seq<char>> {
    Seq::new(players.len(), |i: int| players[i].team@)
}

/// The values of `items`, each once, in the order of first appearance.
pub open spec fn distinct(items: Seq<Seq<char>>) -> Seq<Seq<char>>
    decreases items.len(),
{
    if items.len() == 0 {
        Seq::empty()
    } else {
        let earlier = distinct(items.drop_last());
        if earlier.contains(items.last()) {
            earlier
        } else {
            earlier.push(items.last())
        }
    }
}

/// The name on each node: the distinct player names, in the order of
/// first appearance.
pub open spec fn roster_names(players: Seq<Player>) -> Seq<Seq<char>> {
    distinct(name_column(players))
}

/// The distinct team names, in the order of first appearance.
pub open spec fn roster_teams(players: Seq<Player>) -> Seq<Seq<char>> {
    distinct(team_column(players))
}

/// The node that stands for the player of record `record`.
pub open spec fn node_of(players: Seq<Player>, record: int) -> int {
    roster_names(players).index_of(players[record].player_name@)
}

/// The members of `team` among the first `upto` records: the nodes of the
/// records that name the team, each once, in the order of first
/// appearance.
pub open spec fn team_members(players: Seq<Player>, team: Seq<char>, upto: nat) -> Seq<int>
    decreases upto,
{
    if upto == 0 {
        Seq::empty()
    } else {
        let earlier = team_members(players, team, (upto - 1) as nat);
        let node = node_of(players, upto - 1);
        if players[upto - 1].team@ == team && !earlier.contains(node) {
            earlier.push(node)
        } else {
            earlier
        }
    }
}

/// The member list of each team, in the order of `roster_teams`.
pub open spec fn roster_groups(players: Seq<Player>) -> Seq<Seq<int>> {
    let teams = roster_teams(players);
    Seq::new(teams.len(), |t: int| team_members(players, teams[t], players.len()))
}

/// The edges from member `i` of a group to each member after it.
pub open spec fn pairs_from(members: Seq<int>, i: int) -> Seq<(int, int)> {
    Seq::new((members.len() - 1 - i) as nat, |k: int| (members[i], members[i + 1 + k]))
}

/// The edges from each of the first `rows` members of a group to the
/// members after it.
pub open spec fn clique_rows(members: Seq<int>, rows: nat) -> Seq<(int, int)>
    decreases rows,
{
    if rows == 0 {
        Seq::empty()
    } else {
        clique_rows(members, (rows - 1) as nat) + pairs_from(members, rows - 1)
    }
}

/// The edges that make a group a clique: one for every pair of members,
/// the earlier member first.
pub open spec fn clique_edges(members: Seq<int>) -> Seq<(int, int)> {
    clique_rows(members, members.len())
}

/// The clique edges of the first `done` groups, group after group.
pub open spec fn cliques(groups: Seq<Seq<int>>, done: nat) -> Seq<(int, int)>
    decreases done,
{
    if done == 0 {
        Seq::empty()
    } else {
        cliques(groups, (done - 1) as nat) + clique_edges(groups[done - 1])
    }
}

/// The edges of the graph of a roster, in the order of their creation.
pub open spec fn roster_edges(players: Seq<Player>) -> Seq<(int, int)> {
    cliques(roster_groups(players), roster_groups(players).len())
}

/// The number of pairs among `m` things.
pub open spec fn pair_count(m: nat) -> nat {
    (m * (m - 1) / 2) as nat
}

/// The number of pairs of members, summed over the first `done` groups.
pub open spec fn pair_total(groups: Seq<Seq<int>>, done: nat) -> nat
    decreases done,
{
    if done == 0 {
        0
    } else {
        pair_total(groups, (done - 1) as nat) + pair_count(groups[done - 1].len())
    }
}

/// A roster fits a graph whose node and edge indices are 32 bits wide.
pub open spec fn fits_graph(players: Seq<Player>) -> bool {
    &&& roster_names(players).len() <= u32::MAX
    &&& roster_edges(players).len() <= u32::MAX
}

/// `distinct` keeps every value and repeats none.
pub proof fn lemma_distinct(items: Seq<Seq<char>>)
    ensures
        distinct(items).no_duplicates(),
        distinct(items).len() <= items.len(),
        forall|x: Seq<char>| distinct(items).contains(x) <==> items.contains(x),
    decreases items.len(),
{
    if items.len() > 0 {
        let front = items.drop_last();
        let earlier = distinct(front);
        lemma_distinct(front);
        assert forall|x: Seq<char>| distinct(items).contains(x) <==> items.contains(x) by {
            if items.contains(x) {
                let i = choose|i: int| 0 <= i < items.len() && items[i] == x;
                if i < items.len() - 1 {
                    assert(front[i] == x);
                    assert(front.contains(x));
                    let j = choose|j: int| 0 <= j < earlier.len() && earlier[j] == x;
                    assert(distinct(items)[j] == x);
                } else if !earlier.contains(x) {
                    assert(distinct(items)[earlier.len() as int] == x);
                }
            }
            if distinct(items).contains(x) {
                let j = choose|j: int| 0 <= j < distinct(items).len() && distinct(items)[j] == x;
                if j < earlier.len() {
                    assert(front.contains(x));
                }
            }
        }
    }
}

/// Every record's node is a node of the roster and carries the record's
/// player name.
pub proof fn lemma_node_of(players: Seq<Player>, record: int)
    requires
        0 <= record < players.len(),
    ensures
        0 <= node_of(players, record) < roster_names(players).len(),
        roster_names(players)[node_of(players, record)] == players[record].player_name@,
{
    lemma_distinct(name_column(players));
    assert(name_column(players)[record] == players[record].player_name@);
    assert(name_column(players).contains(players[record].player_name@));
}

/// Twice the number of edges in the first `rows` rows of a clique.
pub proof fn lemma_clique_rows_len(members: Seq<int>, rows: nat)
    requires
        rows <= members.len(),
    ensures
        2 * clique_rows(members, rows).len() == rows * (2 * members.len() - rows - 1),
    decreases rows,
{
    let len = members.len() as int;
    let r = rows as int;
    if rows > 0 {
        lemma_clique_rows_len(members, (rows - 1) as nat);
        assert((r - 1) * (2 * len - (r - 1) - 1) + 2 * (len - r) == r * (2 * len - r - 1))
            by (nonlinear_arith);
    } else {
        assert(r * (2 * len - r - 1) == 0) by (nonlinear_arith)
            requires
                r == 0,
        ;
    }
}

/// The rows of a clique only add edges.
pub proof fn lemma_clique_rows_grow(members: Seq<int>, fewer: nat, more: nat)
    requires
        fewer <= more <= members.len(),
    ensures
        clique_rows(members, fewer).len() <= clique_rows(members, more).len(),
    decreases more,
{
    if fewer < more {
        lemma_clique_rows_grow(members, fewer, (more - 1) as nat);
    }
}

/// A clique has one edge for every pair of its members.
pub proof fn lemma_clique_len(members: Seq<int>)
    ensures
        clique_edges(members).len() == pair_count(members.len()),
{
    lemma_clique_rows_len(members, members.len());
    let len = members.len() as int;
    assert(len * (2 * len - len - 1) == len * (len - 1)) by (nonlinear_arith);
}

/// The cliques of the first groups have one edge for every pair of members
/// of one group.
pub proof fn lemma_cliques_len(groups: Seq<Seq<int>>, done: nat)
    requires
        done <= groups.len(),
    ensures
        cliques(groups, done).len() == pair_total(groups, done),
    decreases done,
{
    if done > 0 {
        lemma_cliques_len(groups, (done - 1) as nat);
        lemma_clique_len(groups[done - 1]);
    }
}

/// Further groups only add pairs.
pub proof fn lemma_pair_total_grows(groups: Seq<Seq<int>>, fewer: nat, more: nat)
    requires
        fewer <= more <= groups.len(),
    ensures
        pair_total(groups, fewer) <= pair_total(groups, more),
    decreases more,
{
    if fewer < more {
        lemma_pair_total_grows(groups, fewer, (more - 1) as nat);
    }
}

/// The members of a team are nodes of the roster, none listed twice, and
/// they are the nodes of the records that name the team.
pub proof fn lemma_team_members(players: Seq<Player>, team: Seq<char>, upto: nat)
    requires
        upto <= players.len(),
    ensures
        team_members(players, team, upto).no_duplicates(),
        forall|k: int|
            0 <= k < team_members(players, team, upto).len() ==> 0 <= #[trigger] team_members(
                players,
                team,
                upto,
            )[k] < roster_names(players).len(),
        forall|v: int| #[trigger]
            team_members(players, team, upto).contains(v) <==> exists|i: int|
                0 <= i < upto && #[trigger] players[i].team@ == team && node_of(players, i) == v,
    decreases upto,
{
    if upto > 0 {
        let earlier = team_members(players, team, (upto - 1) as nat);
        let now = team_members(players, team, upto);
        lemma_team_members(players, team, (upto - 1) as nat);
        lemma_node_of(players, upto - 1);
        assert forall|v: int| #[trigger] now.contains(v) <==> exists|i: int|
            0 <= i < upto && #[trigger] players[i].team@ == team && node_of(players, i)
                == v by {
            if now.contains(v) {
                let k = choose|k: int| 0 <= k < now.len() && now[k] == v;
                if k < earlier.len() {
                    assert(earlier.contains(v));
                }
            }
            if exists|i: int|
                0 <= i < upto && #[trigger] players[i].team@ == team && node_of(players, i) == v {
                let i = choose|i: int|
                    0 <= i < upto && #[trigger] players[i].team@ == team && node_of(players, i)
                        == v;
                if i < upto - 1 {
                    assert(earlier.contains(v));
                    let k = choose|k: int| 0 <= k < earlier.len() && earlier[k] == v;
                    assert(now[k] == v);
                } else if !earlier.contains(v) {
                    assert(now[earlier.len() as int] == v);
                }
            }
        }
    }
}

/// Every member of every group of a roster is a node of the roster.
pub proof fn lemma_groups_hold_nodes(players: Seq<Player>)
    ensures
        forall|t: int, k: int|
            0 <= t < roster_groups(players).len() && 0 <= k < roster_groups(players)[t].len() ==> 0
                <= #[trigger] roster_groups(players)[t][k] < roster_names(players).len(),
{
    let teams = roster_teams(players);
    assert forall|t: int, k: int|
        0 <= t < roster_groups(players).len() && 0 <= k < roster_groups(
            players,
        )[t].len() implies 0 <= #[trigger] roster_groups(players)[t][k] < roster_names(
        players,
    ).len() by {
        lemma_team_members(players, teams[t], players.len());
    }
}

} // verus!
