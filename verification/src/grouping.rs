//! Indexing a roster: which node each record names, and which nodes each
//! team holds.

use crate::roster::{
    distinct, lemma_distinct, name_column, node_of, roster_groups,
    roster_names, team_column, team_members, Player,
};
use vstd::prelude::*;

verus! {

/// The texts of a list of strings.
pub open spec fn texts(items: Seq<String>) -> Seq<Seq<char>> {
    Seq::new(items.len(), |i: int| items[i]@)
}

/// A list of node indices as mathematical integers.
pub open spec fn as_ints(nodes: Seq<usize>) -> Seq<int> {
    Seq::new(nodes.len(), |i: int| nodes[i] as int)
}

/// The member lists of a list of groups.
pub open spec fn group_views(groups: Seq<Vec<usize>>) -> Seq<Seq<int>> {
    Seq::new(groups.len(), |t: int| as_ints(groups[t]@))
}

/// Where `needle` first stands in `items`, if it stands there.
pub fn position(items: &Vec<String>, needle: &String) -> (found: Option<usize>)
    ensures
        match found {
            Some(i) => {
                &&& i < items.len()
                &&& items[i as int]@ == needle@
                &&& forall|j: int| 0 <= j < i ==> items[j]@ != needle@
            },
            None => !texts(items@).contains(needle@),
        },
{
    let mut i: usize = 0;
    while i < items.len()
        invariant
            i <= items.len(),
            forall|j: int| 0 <= j < i ==> items[j]@ != needle@,
        decreases items.len() - i,
    {
        if items[i] == *needle {
            return Some(i);
        }
        i += 1;
    }
    None
}

/// Whether `node` is among `nodes`.
pub fn has_node(nodes: &Vec<usize>, node: usize) -> (found: bool)
    ensures
        found == as_ints(nodes@).contains(node as int),
{
    let mut i: usize = 0;
    while i < nodes.len()
        invariant
            i <= nodes.len(),
            forall|j: int| 0 <= j < i ==> nodes[j] != node,
        decreases nodes.len() - i,
    {
        if nodes[i] == node {
            assert(as_ints(nodes@)[i as int] == node as int);
            return true;
        }
        i += 1;
    }
    false
}

/// The node names of a roster, and for each record the node it names.
pub fn collect_names(players: &[Player]) -> (index: (Vec<String>, Vec<usize>))
    ensures
        texts(index.0@) == roster_names(players@),
        index.1.len() == players.len(),
        forall|i: int| 0 <= i < players.len() ==> index.1[i] as int == node_of(players@, i),
{
    let mut names: Vec<String> = Vec::new();
    let mut nodes: Vec<usize> = Vec::new();
    let ghost column = name_column(players@);
    let mut k: usize = 0;
    while k < players.len()
        invariant
            k <= players.len(),
            column == name_column(players@),
            texts(names@) == distinct(column.take(k as int)),
            nodes.len() == k,
            forall|i: int|
                0 <= i < k ==> (#[trigger] nodes[i]) < names.len() && names[nodes[i] as int]@
                    == players[i].player_name@,
        decreases players.len() - k,
    {
        proof {
            assert(column.take(k + 1).drop_last() =~= column.take(k as int));
        }
        match position(&names, &players[k].player_name) {
            Some(i) => {
                proof {
                    assert(texts(names@)[i as int] == players[k as int].player_name@);
                }
                nodes.push(i);
            },
            None => {
                let node = names.len();
                names.push(players[k].player_name.clone());
                nodes.push(node);
            },
        }
        k += 1;
    }
    proof {
        assert(column.take(k as int) =~= column);
        lemma_distinct(column);
        assert forall|i: int| 0 <= i < players.len() implies nodes[i] as int == node_of(
            players@,
            i,
        ) by {
            let at = nodes[i] as int;
            assert(texts(names@)[at] == players@[i].player_name@);
        }
    }
    (names, nodes)
}

/// No record before `upto` names `team`: it has no members there.
pub proof fn lemma_unseen_team(players: Seq<Player>, team: Seq<char>, upto: nat)
    requires
        upto <= players.len(),
        !team_column(players).take(upto as int).contains(team),
    ensures
        team_members(players, team, upto) == Seq::<int>::empty(),
    decreases upto,
{
    if upto > 0 {
        assert(team_column(players).take(upto as int)[upto - 1] == players[upto - 1].team@);
        lemma_unseen_team(players, team, (upto - 1) as nat);
    }
}

/// The members of each team, the teams in the order in which the roster
/// first names them. `nodes` gives the node of each record.
pub fn group_by_team(players: &[Player], nodes: &Vec<usize>) -> (groups: Vec<Vec<usize>>)
    requires
        nodes.len() == players.len(),
        forall|i: int| 0 <= i < players.len() ==> nodes[i] as int == node_of(players@, i),
    ensures
        group_views(groups@) == roster_groups(players@),
{
    let mut keys: Vec<String> = Vec::new();
    let mut groups: Vec<Vec<usize>> = Vec::new();
    let ghost column = team_column(players@);
    let mut k: usize = 0;
    while k < players.len()
        invariant
            k <= players.len(),
            nodes.len() == players.len(),
            forall|i: int| 0 <= i < players.len() ==> nodes[i] as int == node_of(players@, i),
            column == team_column(players@),
            texts(keys@) == distinct(column.take(k as int)),
            groups.len() == keys.len(),
            forall|t: int|
                0 <= t < keys.len() ==> as_ints(#[trigger] groups[t]@) == team_members(
                    players@,
                    keys[t]@,
                    k as nat,
                ),
        decreases players.len() - k,
    {
        let node = nodes[k];
        let ghost team = players[k as int].team@;
        let ghost old_keys = keys@;
        proof {
            assert(column.take(k + 1).drop_last() =~= column.take(k as int));
            lemma_distinct(column.take(k as int));
        }
        match position(&keys, &players[k].team) {
            Some(t) => {
                proof {
                    assert(texts(keys@)[t as int] == team);
                }
                if !has_node(&groups[t], node) {
                    groups[t].push(node);
                }
                proof {
                    assert forall|u: int| 0 <= u < keys.len() implies as_ints(
                        #[trigger] groups[u]@,
                    ) == team_members(players@, keys[u]@, (k + 1) as nat) by {
                        if u != t {
                            assert(texts(keys@)[u] == keys[u]@);
                        }
                    }
                }
            },
            None => {
                keys.push(players[k].team.clone());
                let mut group: Vec<usize> = Vec::new();
                group.push(node);
                groups.push(group);
                proof {
                    lemma_unseen_team(players@, team, k as nat);
                    assert forall|u: int| 0 <= u < keys.len() implies as_ints(
                        #[trigger] groups[u]@,
                    ) == team_members(players@, keys[u]@, (k + 1) as nat) by {
                        if u < old_keys.len() {
                            assert(texts(old_keys)[u] == keys[u]@);
                        }
                    }
                }
            },
        }
        k += 1;
    }
    proof {
        assert(column.take(k as int) =~= column);
        assert(group_views(groups@) =~= roster_groups(players@));
    }
    groups
}

} // verus!
