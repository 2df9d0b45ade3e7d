use std::collections::HashSet;

use mgraph::Graph;
use mgraph::GraphError;

fn path_of_three() -> Graph {
    let mut graph = Graph::new();

    graph.add_node(0);
    graph.add_node(1);
    graph.add_node(2);

    graph.add_edge(0, 1, 1);
    graph.add_edge(1, 2, 2);

    return graph;
}

#[test]
fn test_graph_connected_true() {
    let graph = path_of_three();

    assert_eq!(graph.is_connected().unwrap(), true);
}

#[test]
fn test_graph_connected_false() {
    let mut graph = Graph::new();

    graph.add_node(0);
    graph.add_node(1);
    graph.add_node(2);

    graph.add_edge(0, 1, 3);

    assert_eq!(graph.is_connected().unwrap(), false);
}

#[test]
fn test_breadth_first_search() {
    let graph = path_of_three();

    assert_eq!(graph.breadth_first_search(0, 2), 2)
}

#[test]
fn dropping_an_edge_disconnects_the_path() {
    let mut graph = path_of_three();
    assert_eq!(graph.is_connected(), Ok(true));

    graph.drop_edge(1, 2);

    assert_eq!(graph.is_connected(), Ok(false));
}

#[test]
fn connectivity_needs_node_zero() {
    let mut graph = Graph::new();
    assert_eq!(graph.is_connected(), Err(GraphError::NodeNotFound(0)));

    graph.add_node(1);
    graph.add_node(2);
    graph.add_edge(1, 2, 1);
    assert_eq!(graph.is_connected(), Err(GraphError::NodeNotFound(0)));

    graph.add_node(0);
    assert_eq!(graph.is_connected(), Ok(false));
}

#[test]
fn connectivity_follows_the_direction_of_arcs() {
    let mut graph = Graph::new();
    graph.add_node(0);
    graph.add_node(1);

    graph.add_edge_directed(1, 0, 1);
    assert_eq!(graph.is_connected(), Ok(false));

    graph.add_edge_directed(0, 1, 1);
    assert_eq!(graph.is_connected(), Ok(true));
}

#[test]
fn depth_first_search_visits_what_is_reachable() {
    let mut graph = path_of_three();
    graph.add_node(3);
    graph.add_node(4);
    graph.add_edge(3, 4, 1);
    graph.add_edge_directed(3, 0, 1);

    assert_eq!(graph.depth_first_search(0), HashSet::from([0, 1, 2]));
    assert_eq!(graph.depth_first_search(2), HashSet::from([0, 1, 2]));
    assert_eq!(graph.depth_first_search(4), HashSet::from([0, 1, 2, 3, 4]));
}

#[test]
fn depth_first_search_from_an_unknown_node_visits_only_it() {
    let graph = path_of_three();

    assert_eq!(graph.depth_first_search(9), HashSet::from([9]));
}

#[test]
fn depth_first_search_passes_over_neighbours_that_are_no_nodes() {
    let mut graph = Graph::new();
    graph.add_node(0);
    graph.add_node(1);
    graph.add_edge_directed(0, 1, 1);
    graph.add_edge_directed(0, 6, 1);

    assert_eq!(graph.depth_first_search(0), HashSet::from([0, 1]));
}

#[test]
fn depth_first_search_ends_on_a_cycle() {
    let mut graph = Graph::new();
    for node in 0..5 {
        graph.add_node(node);
    }
    for node in 0..5 {
        graph.add_edge(node, (node + 1) % 5, 1);
    }

    assert_eq!(graph.depth_first_search(3), HashSet::from([0, 1, 2, 3, 4]));
}

#[test]
fn breadth_first_search_gives_minus_one_for_what_is_out_of_reach() {
    let mut graph = path_of_three();
    graph.add_node(3);

    assert_eq!(graph.breadth_first_search(0, 3), -1);
    assert_eq!(graph.breadth_first_search(0, 8), -1);
    assert_eq!(graph.breadth_first_search(3, 0), -1);
    assert_eq!(graph.breadth_first_search(0, 0), 0);
    assert_eq!(graph.breadth_first_search(8, 8), 8);
    assert_eq!(graph.breadth_first_search(2, 0), 0);
}

#[test]
fn breadth_first_search_returns_the_largest_node_as_it_is() {
    let mut graph = Graph::new();
    graph.add_node(0);
    graph.add_node(u32::MAX);
    graph.add_edge(0, u32::MAX, 1);

    assert_eq!(graph.breadth_first_search(0, u32::MAX), 4294967295);
}
