use petgraph::graph::{EdgeIndex, NodeIndex};
use roster_graph::builder::{count_clique_edges, create_graph, try_create_graph, EDGE_LABEL};
use roster_graph::grouping::{collect_names, group_by_team, has_node, position};
use roster_graph::roster::Player;
use roster_graph::team_graph::TeamGraph;

fn roster(records: &[(&str, &str)]) -> Vec<Player> {
    records.iter().map(|(name, team)| Player::new(name, team)).collect()
}

fn names_of(graph: &TeamGraph) -> Vec<String> {
    let inner = graph.as_petgraph();
    (0..graph.node_count()).map(|i| inner[NodeIndex::new(i)].clone()).collect()
}

fn edges_of(graph: &TeamGraph) -> Vec<(usize, usize)> {
    let inner = graph.as_petgraph();
    (0..graph.edge_count())
        .map(|e| {
            let (a, b) = inner.edge_endpoints(EdgeIndex::new(e)).unwrap();
            (a.index(), b.index())
        })
        .collect()
}

#[test]
fn player_new_keeps_both_fields() {
    let p = Player::new("Ada", "Owls");
    assert_eq!(p.player_name, "Ada");
    assert_eq!(p.team, "Owls");
}

#[test]
fn position_finds_the_first_match() {
    let items = vec!["a".to_string(), "b".to_string(), "a".to_string()];
    assert_eq!(position(&items, &"a".to_string()), Some(0));
    assert_eq!(position(&items, &"b".to_string()), Some(1));
    assert_eq!(position(&items, &"c".to_string()), None);
    assert_eq!(position(&Vec::new(), &"a".to_string()), None);
}

#[test]
fn has_node_tells_members_from_others() {
    let nodes = vec![4usize, 7, 1];
    assert!(has_node(&nodes, 7));
    assert!(has_node(&nodes, 1));
    assert!(!has_node(&nodes, 0));
    assert!(!has_node(&Vec::new(), 0));
}

#[test]
fn names_are_numbered_by_first_appearance() {
    let players = roster(&[("B", "X"), ("A", "X"), ("B", "Y"), ("C", "Y"), ("A", "Z")]);
    let (names, nodes) = collect_names(&players);
    assert_eq!(names, vec!["B".to_string(), "A".to_string(), "C".to_string()]);
    assert_eq!(nodes, vec![0, 1, 0, 2, 1]);
}

#[test]
fn groups_follow_first_appearance_and_list_a_node_once() {
    let players = roster(&[("A", "X"), ("B", "Y"), ("B", "X"), ("A", "Y"), ("A", "X")]);
    let (_, nodes) = collect_names(&players);
    let groups = group_by_team(&players, &nodes);
    assert_eq!(groups, vec![vec![0, 1], vec![1, 0]]);
}

#[test]
fn empty_team_name_is_a_team_like_any_other() {
    let players = roster(&[("A", ""), ("B", ""), ("C", "X")]);
    let graph = create_graph(&players);
    assert_eq!(edges_of(&graph), vec![(0, 1)]);
}

#[test]
fn empty_roster_gives_empty_graph() {
    let graph = create_graph(&[]);
    assert_eq!(graph.node_count(), 0);
    assert_eq!(graph.edge_count(), 0);
}

#[test]
fn two_teams_of_two_give_two_edges() {
    let players = roster(&[("A", "X"), ("B", "X"), ("C", "Y"), ("D", "Y")]);
    let graph = create_graph(&players);
    assert_eq!(names_of(&graph), vec!["A", "B", "C", "D"]);
    assert_eq!(edges_of(&graph), vec![(0, 1), (2, 3)]);
}

#[test]
fn a_team_is_joined_pair_by_pair_in_order() {
    let players = roster(&[("A", "X"), ("B", "X"), ("C", "X"), ("D", "X")]);
    let graph = create_graph(&players);
    assert_eq!(
        edges_of(&graph),
        vec![(0, 1), (0, 2), (0, 3), (1, 2), (1, 3), (2, 3)]
    );
}

#[test]
fn teams_are_joined_in_order_of_first_appearance() {
    let players = roster(&[("A", "Y"), ("B", "X"), ("C", "Y"), ("D", "X")]);
    let graph = create_graph(&players);
    assert_eq!(edges_of(&graph), vec![(0, 2), (1, 3)]);
}

#[test]
fn edge_count_is_the_sum_of_pairs_per_team() {
    let players = roster(&[
        ("A", "X"),
        ("B", "X"),
        ("C", "X"),
        ("D", "Y"),
        ("E", "Y"),
        ("F", "Z"),
    ]);
    let graph = create_graph(&players);
    assert_eq!(graph.node_count(), 6);
    assert_eq!(graph.edge_count(), 3 + 1 + 0);
}

#[test]
fn team_of_one_adds_a_node_and_no_edge() {
    let graph = create_graph(&roster(&[("A", "X")]));
    assert_eq!(graph.node_count(), 1);
    assert_eq!(graph.edge_count(), 0);
}

#[test]
fn repeated_record_adds_neither_node_nor_loop() {
    let players = roster(&[("A", "X"), ("B", "X"), ("A", "X")]);
    let graph = create_graph(&players);
    assert_eq!(names_of(&graph), vec!["A", "B"]);
    assert_eq!(edges_of(&graph), vec![(0, 1)]);
}

#[test]
fn repeated_name_joins_both_teams() {
    let players = roster(&[("A", "X"), ("B", "X"), ("A", "Y"), ("C", "Y")]);
    let graph = create_graph(&players);
    assert_eq!(names_of(&graph), vec!["A", "B", "C"]);
    assert_eq!(edges_of(&graph), vec![(0, 1), (0, 2)]);
}

#[test]
fn every_edge_is_labelled_teammate() {
    let players = roster(&[("A", "X"), ("B", "X"), ("C", "X")]);
    let graph = create_graph(&players);
    let inner = graph.as_petgraph();
    assert_eq!(EDGE_LABEL, "teammate");
    for e in 0..graph.edge_count() {
        assert_eq!(inner.edge_weight(EdgeIndex::new(e)), Some(&"teammate"));
    }
}

#[test]
fn building_does_not_change_the_roster() {
    let players = roster(&[("A", "X"), ("B", "X")]);
    let _ = create_graph(&players);
    assert_eq!(players[0].player_name, "A");
    assert_eq!(players[1].team, "X");
    assert_eq!(players.len(), 2);
}

#[test]
fn try_create_graph_builds_what_create_graph_builds() {
    let players = roster(&[("A", "X"), ("B", "X"), ("C", "Y"), ("B", "Y")]);
    let built = try_create_graph(&players).expect("a small roster fits");
    let direct = create_graph(&players);
    assert_eq!(names_of(&built), names_of(&direct));
    assert_eq!(edges_of(&built), edges_of(&direct));
}

#[test]
fn clique_edges_are_counted_per_group() {
    assert_eq!(count_clique_edges(&Vec::new()), Some(0));
    assert_eq!(count_clique_edges(&vec![vec![], vec![5]]), Some(0));
    assert_eq!(count_clique_edges(&vec![vec![0, 1, 2], vec![3, 4], vec![5]]), Some(4));
}

#[test]
fn clique_edges_beyond_32_bits_are_refused() {
    let fits: Vec<usize> = (0..92_682).collect();
    assert_eq!(count_clique_edges(&vec![fits.clone()]), Some(4_294_930_221));
    let too_many: Vec<usize> = (0..92_683).collect();
    assert_eq!(count_clique_edges(&vec![too_many]), None);
    assert_eq!(count_clique_edges(&vec![fits, vec![0; 273]]), None);
}
