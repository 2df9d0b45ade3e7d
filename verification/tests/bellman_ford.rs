use std::collections::HashMap;

use mgraph::bellman_ford::INFINITE;
use mgraph::Graph;

#[test]
fn test_graph_bellman_ford_1() {
    let mut graph = Graph::new();

    graph.add_node(0);
    graph.add_node(1);
    graph.add_node(2);
    graph.add_node(3);

    graph.add_edge(0, 1, 6);
    graph.add_edge(0, 2, 11);
    graph.add_edge(1, 2, 7);
    graph.add_edge(2, 3, 8);

    let distances = graph.bellman_ford(0);
    let result = distances.get(&2).unwrap();

    assert_eq!(*result, 11);
}

#[test]
fn test_graph_has_negative_cycle_1() {
    let mut graph = Graph::new();

    graph.add_node(0);
    graph.add_node(1);
    graph.add_node(2);
    graph.add_node(3);

    graph.add_edge(0, 1, 1);
    graph.add_edge(1, 2, 1);
    graph.add_edge(2, 3, 1);
    graph.add_edge(3, 0, -4);

    let distances = graph.bellman_ford(0);
    let result = graph.has_negative_cycle(&distances);

    assert_eq!(result, true);
}

#[test]
fn test_graph_has_negative_cycle_2() {
    let mut graph = Graph::new();

    graph.add_node(0);
    graph.add_node(1);
    graph.add_node(2);
    graph.add_node(3);

    graph.add_edge(0, 1, 2);
    graph.add_edge(1, 2, 3);
    graph.add_edge(2, 3, 4);
    graph.add_edge(3, 0, 1);

    let distances = graph.bellman_ford(0);
    let result = graph.has_negative_cycle(&distances);

    assert_eq!(result, false);
}

fn directed_cycle(weights: [i32; 4]) -> Graph {
    let mut graph = Graph::new();
    for node in 0..4 {
        graph.add_node(node);
    }
    for node in 0..4 {
        graph.add_edge_directed(node, (node + 1) % 4, weights[node as usize]);
    }
    graph
}

#[test]
fn directed_cycle_of_negative_cost_is_found() {
    let graph = directed_cycle([1, 1, 1, -4]);

    let distances = graph.bellman_ford(0);

    assert_eq!(graph.has_negative_cycle(&distances), true);
}

#[test]
fn directed_cycle_of_positive_cost_is_not_taken_for_a_negative_one() {
    let graph = directed_cycle([2, 3, 4, 1]);

    let distances = graph.bellman_ford(0);

    assert_eq!(
        distances,
        HashMap::from([(0, 0), (1, 2), (2, 5), (3, 9)])
    );
    assert_eq!(graph.has_negative_cycle(&distances), false);
}

#[test]
fn directed_cycle_that_costs_nothing_is_not_taken_for_a_negative_one() {
    let graph = directed_cycle([1, 1, 1, -3]);

    let distances = graph.bellman_ford(2);

    assert_eq!(
        distances,
        HashMap::from([(2, 0), (3, 1), (0, -2), (1, -1)])
    );
    assert_eq!(graph.has_negative_cycle(&distances), false);
}

#[test]
fn bellman_ford_finds_negative_distances() {
    let mut graph = Graph::new();
    for node in 0..4 {
        graph.add_node(node);
    }
    graph.add_edge_directed(0, 1, 4);
    graph.add_edge_directed(0, 2, 5);
    graph.add_edge_directed(1, 3, -7);
    graph.add_edge_directed(2, 3, -10);
    graph.add_edge_directed(3, 2, 12);

    let distances = graph.bellman_ford(0);

    assert_eq!(
        distances,
        HashMap::from([(0, 0), (1, 4), (2, 5), (3, -5)])
    );
    assert_eq!(graph.has_negative_cycle(&distances), false);
}

#[test]
fn bellman_ford_gives_the_cheapest_walks_with_fewer_arcs_than_nodes() {
    // Round the cycle 0, 1, 2 a walk gains one; with three nodes only walks
    // of at most two arcs count.
    let mut graph = Graph::new();
    for node in 0..3 {
        graph.add_node(node);
    }
    graph.add_edge_directed(0, 1, 1);
    graph.add_edge_directed(1, 2, 1);
    graph.add_edge_directed(2, 0, -3);

    let distances = graph.bellman_ford(0);

    assert_eq!(distances, HashMap::from([(0, 0), (1, 1), (2, 2)]));
    assert_eq!(graph.has_negative_cycle(&distances), true);
}

#[test]
fn bellman_ford_leaves_what_is_out_of_reach_infinite() {
    let mut graph = Graph::new();
    for node in 0..4 {
        graph.add_node(node);
    }
    graph.add_edge_directed(0, 1, 3);
    graph.add_edge_directed(2, 3, -5);
    graph.add_edge_directed(3, 2, 1);

    let distances = graph.bellman_ford(0);

    assert_eq!(
        distances,
        HashMap::from([(0, 0), (1, 3), (2, INFINITE), (3, INFINITE)])
    );
    // The cycle of negative cost cannot be reached from node 0.
    assert_eq!(graph.has_negative_cycle(&distances), false);
    assert_eq!(INFINITE, 9223372036854775807);
}

#[test]
fn bellman_ford_from_an_unknown_node_reaches_nothing() {
    let mut graph = Graph::new();
    graph.add_node(0);
    graph.add_node(1);
    graph.add_edge(0, 1, 1);

    let distances = graph.bellman_ford(5);

    assert_eq!(distances, HashMap::from([(0, INFINITE), (1, INFINITE)]));
    assert_eq!(graph.has_negative_cycle(&distances), false);
    assert_eq!(Graph::new().bellman_ford(0), HashMap::new());
}

#[test]
fn bellman_ford_on_a_single_node() {
    let mut graph = Graph::new();
    graph.add_node(3);

    assert_eq!(graph.bellman_ford(3), HashMap::from([(3, 0)]));
}

#[test]
fn bellman_ford_agrees_with_dijkstra_without_negative_weights() {
    let mut graph = Graph::new();
    for node in 0..6 {
        graph.add_node(node);
    }
    graph.add_edge(0, 1, 7);
    graph.add_edge(0, 2, 9);
    graph.add_edge(0, 5, 14);
    graph.add_edge(1, 2, 10);
    graph.add_edge(1, 3, 15);
    graph.add_edge(2, 3, 11);
    graph.add_edge(2, 5, 2);
    graph.add_edge(3, 4, 6);
    graph.add_edge(4, 5, 9);

    let distances = graph.bellman_ford(0);

    assert_eq!(
        distances,
        HashMap::from([(0, 0), (1, 7), (2, 9), (3, 20), (4, 20), (5, 11)])
    );
    for target in 0..6 {
        let cost = graph.shortest_path(0, target).cost.unwrap();
        assert_eq!(distances[&target], cost as i64);
    }
}

#[test]
fn has_negative_cycle_takes_any_distances() {
    let mut graph = Graph::new();
    graph.add_node(0);
    graph.add_node(1);
    graph.add_edge_directed(0, 1, 5);

    // A node without a distance counts as not reached.
    assert_eq!(graph.has_negative_cycle(&HashMap::new()), false);
    assert_eq!(graph.has_negative_cycle(&HashMap::from([(1, 0)])), false);
    assert_eq!(graph.has_negative_cycle(&HashMap::from([(0, 0)])), true);
    assert_eq!(graph.has_negative_cycle(&HashMap::from([(0, 0), (1, 5)])), false);
    assert_eq!(graph.has_negative_cycle(&HashMap::from([(0, 0), (1, 6)])), true);
    // The sums are taken beyond the range of the distances.
    assert_eq!(
        graph.has_negative_cycle(&HashMap::from([(0, INFINITE - 1), (1, INFINITE)])),
        false
    );
    assert_eq!(
        graph.has_negative_cycle(&HashMap::from([(0, i64::MIN), (1, i64::MIN)])),
        false
    );
}
