use roster_graph::analysis::{
    compute_closeness_centrality, find_connected_components, score, Closeness,
};
use roster_graph::builder::create_graph;
use roster_graph::network::edge_cost;
use roster_graph::roster::Player;

fn roster(records: &[(&str, &str)]) -> Vec<Player> {
    records.iter().map(|(name, team)| Player::new(name, team)).collect()
}

fn ratio(numerator: u64, denominator: u64) -> Closeness {
    Closeness { numerator, denominator }
}

fn value(c: &Closeness) -> f64 {
    c.numerator as f64 / c.denominator as f64
}

#[test]
fn every_edge_costs_one() {
    assert_eq!(edge_cost(), 1);
}

#[test]
fn score_divides_other_nodes_by_total_distance() {
    assert_eq!(score(4, 1), ratio(3, 1));
    assert_eq!(score(5, 6), ratio(4, 6));
    assert_eq!(score(2, 1), ratio(1, 1));
}

#[test]
fn score_is_zero_without_distance() {
    assert_eq!(score(1, 0), ratio(0, 1));
    assert_eq!(score(7, 0), ratio(0, 1));
}

#[test]
fn empty_graph_has_no_component_and_no_score() {
    let graph = create_graph(&[]);
    assert_eq!(find_connected_components(&graph), 0);
    assert!(compute_closeness_centrality(&graph).is_empty());
}

#[test]
fn graph_with_nodes_has_a_component() {
    let graph = create_graph(&roster(&[("A", "X"), ("B", "Y"), ("C", "X")]));
    let count = find_connected_components(&graph);
    assert!(count >= 1);
    assert!(count <= graph.node_count());
    assert_eq!(count, 2);
}

#[test]
fn two_cliques_scenario() {
    let players = roster(&[("A", "X"), ("B", "X"), ("C", "Y"), ("D", "Y")]);
    let graph = create_graph(&players);
    assert_eq!(find_connected_components(&graph), 2);
    let scores = compute_closeness_centrality(&graph);
    assert_eq!(scores.len(), 4);
    for node in 0..4 {
        assert_eq!(scores[&node], ratio(3, 1));
        assert_eq!(value(&scores[&node]), 3.0);
    }
}

#[test]
fn single_team_is_one_clique_with_score_one() {
    let players = roster(&[("A", "X"), ("B", "X"), ("C", "X"), ("D", "X"), ("E", "X")]);
    let graph = create_graph(&players);
    assert_eq!(find_connected_components(&graph), 1);
    let scores = compute_closeness_centrality(&graph);
    assert_eq!(scores.len(), 5);
    for node in 0..5 {
        assert_eq!(scores[&node], ratio(4, 4));
        assert_eq!(value(&scores[&node]), 1.0);
    }
}

#[test]
fn no_shared_team_leaves_every_node_alone() {
    let players = roster(&[("A", "X"), ("B", "Y"), ("C", "Z")]);
    let graph = create_graph(&players);
    assert_eq!(graph.edge_count(), 0);
    assert_eq!(find_connected_components(&graph), 3);
    let scores = compute_closeness_centrality(&graph);
    assert_eq!(scores.len(), 3);
    for node in 0..3 {
        assert_eq!(scores[&node], ratio(0, 1));
        assert_eq!(value(&scores[&node]), 0.0);
    }
}

#[test]
fn lone_record_is_a_singleton_with_score_zero() {
    let graph = create_graph(&roster(&[("A", "X")]));
    assert_eq!(find_connected_components(&graph), 1);
    let scores = compute_closeness_centrality(&graph);
    assert_eq!(scores.len(), 1);
    assert_eq!(scores[&0], ratio(0, 1));
}

#[test]
fn player_without_teammates_beside_a_team() {
    let players = roster(&[("A", "X"), ("B", "X"), ("C", "Y")]);
    let graph = create_graph(&players);
    assert_eq!(find_connected_components(&graph), 2);
    let scores = compute_closeness_centrality(&graph);
    assert_eq!(scores[&2], ratio(0, 1));
    assert_eq!(scores[&0], ratio(2, 1));
    assert_eq!(scores[&1], ratio(2, 1));
}

#[test]
fn building_twice_gives_the_same_measures() {
    let players = roster(&[("A", "X"), ("B", "X"), ("B", "Y"), ("C", "Y"), ("D", "Z")]);
    let first = create_graph(&players);
    let second = create_graph(&players);
    assert_eq!(find_connected_components(&first), find_connected_components(&second));
    assert_eq!(compute_closeness_centrality(&first), compute_closeness_centrality(&second));
}

#[test]
fn distances_along_a_chain_are_summed() {
    let players = roster(&[
        ("A", "T1"),
        ("B", "T1"),
        ("B", "T2"),
        ("C", "T2"),
        ("C", "T3"),
        ("D", "T3"),
    ]);
    let graph = create_graph(&players);
    assert_eq!(find_connected_components(&graph), 1);
    let scores = compute_closeness_centrality(&graph);
    assert_eq!(scores[&0], ratio(3, 1 + 2 + 3));
    assert_eq!(scores[&1], ratio(3, 1 + 1 + 2));
    assert_eq!(scores[&2], ratio(3, 2 + 1 + 1));
    assert_eq!(scores[&3], ratio(3, 3 + 2 + 1));
    assert_eq!(value(&scores[&0]), 0.5);
}

#[test]
fn unreachable_nodes_count_above_and_not_below() {
    let players = roster(&[
        ("A", "X"),
        ("B", "X"),
        ("C", "X"),
        ("D", "Y"),
        ("E", "Y"),
        ("F", "Z"),
    ]);
    let graph = create_graph(&players);
    assert_eq!(find_connected_components(&graph), 3);
    let scores = compute_closeness_centrality(&graph);
    assert_eq!(scores[&0], ratio(5, 2));
    assert_eq!(scores[&3], ratio(5, 1));
    assert_eq!(scores[&5], ratio(0, 1));
    assert_eq!(value(&scores[&0]), 2.5);
}

#[test]
fn repeated_records_do_not_change_the_measures() {
    let once = create_graph(&roster(&[("A", "X"), ("B", "X"), ("C", "Y")]));
    let twice =
        create_graph(&roster(&[("A", "X"), ("B", "X"), ("A", "X"), ("C", "Y"), ("B", "X")]));
    assert_eq!(find_connected_components(&once), find_connected_components(&twice));
    assert_eq!(compute_closeness_centrality(&once), compute_closeness_centrality(&twice));
}
