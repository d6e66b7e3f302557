//! Building the graph of a roster.

use crate::grouping::{as_ints, collect_names, group_by_team, group_views, texts};
use crate::network::{edge_ends, edge_labels, empty_graph, node_names, push_edge, push_node};
use crate::roster::{
    clique_edges, clique_rows, cliques, fits_graph, lemma_clique_len, lemma_clique_rows_grow,
    lemma_cliques_len, lemma_groups_hold_nodes, lemma_pair_total_grows,
    pair_count, pair_total, pairs_from, roster_edges, roster_groups, roster_names, Player,
};
use crate::team_graph::TeamGraph;
use petgraph::graph::UnGraph;
use vstd::prelude::*;

verus! {

/// The label that every edge carries.
pub const EDGE_LABEL: &'static str = "teammate";

/// The labels of `count` edges: each one is the label of this library.
pub open spec fn teammate_labels(count: nat) -> Seq<Seq<char>> {
    Seq::new(count, |i: int| EDGE_LABEL@)
}

/// Joins every two members of a group by an edge, the earlier member
/// first, in the order of the earlier member and then of the later one.
fn add_clique(graph: &mut UnGraph<String, &'static str>, members: &Vec<usize>)
    requires
        node_names(*old(graph)).len() <= u32::MAX,
        forall|k: int| 0 <= k < members.len() ==> members[k] < node_names(*old(graph)).len(),
        edge_ends(*old(graph)).len() + pair_count(members.len() as nat) <= u32::MAX,
        edge_labels(*old(graph)) == teammate_labels(edge_ends(*old(graph)).len()),
    ensures
        node_names(*final(graph)) == node_names(*old(graph)),
        edge_ends(*final(graph)) == edge_ends(*old(graph)) + clique_edges(as_ints(members@)),
        edge_labels(*final(graph)) == teammate_labels(edge_ends(*final(graph)).len()),
{
    let ghost base = edge_ends(*graph);
    let ghost nodes = node_names(*graph);
    let ghost group = as_ints(members@);
    let len = members.len();
    proof {
        lemma_clique_len(group);
    }
    let mut i: usize = 0;
    while i < len
        invariant
            i <= len,
            len == members.len(),
            group == as_ints(members@),
            nodes.len() <= u32::MAX,
            node_names(*graph) == nodes,
            forall|k: int| 0 <= k < members.len() ==> members[k] < nodes.len(),
            base.len() + clique_edges(group).len() <= u32::MAX,
            edge_ends(*graph) == base + clique_rows(group, i as nat),
            edge_labels(*graph) == teammate_labels(edge_ends(*graph).len()),
        decreases len - i,
    {
        let ghost row = pairs_from(group, i as int);
        let ghost rows = clique_rows(group, i as nat);
        proof {
            lemma_clique_rows_grow(group, (i + 1) as nat, len as nat);
        }
        let mut j: usize = i + 1;
        while j < len
            invariant
                i < j <= len,
                len == members.len(),
                group == as_ints(members@),
                row == pairs_from(group, i as int),
                rows == clique_rows(group, i as nat),
                rows.len() + row.len() <= clique_edges(group).len(),
                nodes.len() <= u32::MAX,
                node_names(*graph) == nodes,
                forall|k: int| 0 <= k < members.len() ==> members[k] < nodes.len(),
                base.len() + clique_edges(group).len() <= u32::MAX,
                edge_ends(*graph) == base + (rows + row.take(j - i - 1)),
                edge_labels(*graph) == teammate_labels(edge_ends(*graph).len()),
            decreases len - j,
        {
            push_edge(graph, members[i], members[j], EDGE_LABEL);
            j += 1;
        }
        i += 1;
    }
}

/// The number of edges that the cliques of `groups` have together, if a
/// 32-bit edge index can count them.
pub fn count_clique_edges(groups: &Vec<Vec<usize>>) -> (count: Option<u32>)
    ensures
        match count {
            Some(c) => c == cliques(group_views(groups@), groups.len() as nat).len(),
            None => cliques(group_views(groups@), groups.len() as nat).len() > u32::MAX,
        },
{
    let ghost views = group_views(groups@);
    let mut total: u32 = 0;
    let mut t: usize = 0;
    while t < groups.len()
        invariant
            t <= groups.len(),
            views == group_views(groups@),
            total == pair_total(views, t as nat),
        decreases groups.len() - t,
    {
        let size = groups[t].len();
        proof {
            lemma_pair_total_grows(views, (t + 1) as nat, groups.len() as nat);
            lemma_cliques_len(views, groups.len() as nat);
        }
        if size >= 2 {
            let wide: u128 = size as u128;
            assert(wide * (wide - 1) <= 0xFFFF_FFFF_FFFF_FFFF * 0xFFFF_FFFF_FFFF_FFFF)
                by (nonlinear_arith)
                requires
                    1 <= wide <= 0xFFFF_FFFF_FFFF_FFFF,
            ;
            let pairs: u128 = wide * (wide - 1) / 2;
            if pairs > (u32::MAX - total) as u128 {
                return None;
            }
            total = total + pairs as u32;
        } else {
            assert(pair_count(size as nat) == 0) by (nonlinear_arith)
                requires
                    size == 0 || size == 1,
                    pair_count(size as nat) == (size * (size - 1) / 2) as nat,
            ;
        }
        t += 1;
    }
    proof {
        lemma_cliques_len(views, groups.len() as nat);
    }
    Some(total)
}

/// The graph with one node for each of `names` and the cliques of
/// `groups` as its edges.
fn assemble(names: &Vec<String>, groups: &Vec<Vec<usize>>) -> (g: TeamGraph)
    requires
        names.len() <= u32::MAX,
        cliques(group_views(groups@), groups.len() as nat).len() <= u32::MAX,
        forall|t: int, k: int|
            0 <= t < groups.len() && 0 <= k < groups[t].len() ==> #[trigger] groups[t][k]
                < names.len(),
    ensures
        g.names() == texts(names@),
        g.edges() == cliques(group_views(groups@), groups.len() as nat),
        g.labels() == teammate_labels(g.edges().len()),
{
    let ghost views = group_views(groups@);
    let mut graph = empty_graph();
    let mut i: usize = 0;
    while i < names.len()
        invariant
            i <= names.len() <= u32::MAX,
            node_names(graph) == texts(names@).take(i as int),
            edge_ends(graph) == Seq::<(int, int)>::empty(),
            edge_labels(graph) == Seq::<Seq<char>>::empty(),
        decreases names.len() - i,
    {
        push_node(&mut graph, names[i].clone());
        i += 1;
    }
    let mut t: usize = 0;
    while t < groups.len()
        invariant
            t <= groups.len(),
            names.len() <= u32::MAX,
            views == group_views(groups@),
            cliques(views, groups.len() as nat).len() <= u32::MAX,
            forall|t: int, k: int|
                0 <= t < groups.len() && 0 <= k < groups[t].len() ==> #[trigger] groups[t][k]
                    < names.len(),
            node_names(graph) == texts(names@),
            edge_ends(graph) == cliques(views, t as nat),
            edge_labels(graph) == teammate_labels(edge_ends(graph).len()),
        decreases groups.len() - t,
    {
        proof {
            lemma_cliques_len(views, t as nat);
            lemma_cliques_len(views, groups.len() as nat);
            lemma_pair_total_grows(views, (t + 1) as nat, groups.len() as nat);
        }
        add_clique(&mut graph, &groups[t]);
        t += 1;
    }
    TeamGraph::seal(graph)
}

/// The node names of a roster and the member list of each of its teams.
fn index_roster(players: &[Player]) -> (index: (Vec<String>, Vec<Vec<usize>>))
    ensures
        texts(index.0@) == roster_names(players@),
        group_views(index.1@) == roster_groups(players@),
        forall|t: int, k: int|
            0 <= t < index.1.len() && 0 <= k < index.1[t].len() ==> #[trigger] index.1[t][k]
                < index.0.len(),
{
    let (names, nodes) = collect_names(players);
    let groups = group_by_team(players, &nodes);
    proof {
        lemma_groups_hold_nodes(players@);
        assert forall|t: int, k: int|
            0 <= t < groups.len() && 0 <= k < groups[t].len() implies #[trigger] groups[t][k]
            < names.len() by {
            assert(group_views(groups@)[t][k] == groups[t][k] as int);
        }
    }
    (names, groups)
}

/// Builds the graph of a roster: a node for every distinct player name,
/// in the order of first appearance, and for every team, in the order of
/// first appearance, an edge between every two of its members.
pub fn create_graph(players: &[Player]) -> (g: TeamGraph)
    requires
        fits_graph(players@),
    ensures
        g.names() == roster_names(players@),
        g.edges() == roster_edges(players@),
        g.edges().len() == pair_total(roster_groups(players@), roster_groups(players@).len()),
        g.labels() == teammate_labels(g.edges().len()),
{
    let (names, groups) = index_roster(players);
    proof {
        lemma_cliques_len(roster_groups(players@), roster_groups(players@).len());
    }
    assemble(&names, &groups)
}

/// Builds the graph of a roster where node and edge indices of 32 bits can
/// hold it, and says so where they cannot.
pub fn try_create_graph(players: &[Player]) -> (built: Option<TeamGraph>)
    ensures
        built.is_some() <==> fits_graph(players@),
        match built {
            Some(g) => {
                &&& g.names() == roster_names(players@)
                &&& g.edges() == roster_edges(players@)
                &&& g.edges().len() == pair_total(
                    roster_groups(players@),
                    roster_groups(players@).len(),
                )
                &&& g.labels() == teammate_labels(g.edges().len())
            },
            None => true,
        },
{
    let (names, groups) = index_roster(players);
    proof {
        lemma_cliques_len(roster_groups(players@), roster_groups(players@).len());
    }
    if names.len() > u32::MAX as usize {
        return None;
    }
    match count_clique_edges(&groups) {
        Some(_) => Some(assemble(&names, &groups)),
        None => None,
    }
}

} // verus!
