use std::collections::HashMap;
use std::collections::HashSet;

use mgraph::Graph;
use mgraph::GraphError;

// The graph that most tests start from: a path of three nodes.
fn generate_test_graph() -> Graph {
    let mut graph = Graph::new();

    graph.add_node(0);
    graph.add_node(1);
    graph.add_node(2);

    graph.add_edge(0, 1, 1);
    graph.add_edge(1, 2, 2);

    return graph;
}

#[test]
fn test_graph_adds_nodes() {
    let mut graph = Graph { nodes: HashMap::new() };

    graph.add_node(1);
    graph.add_node(2);
    graph.add_node(3);

    let nodes = graph.get_nodes();

    assert_eq!(nodes, HashSet::from([1, 2, 3]));
}

#[test]
fn test_graph_add_edge() {
    let graph = generate_test_graph();

    assert_eq!(graph.has_edge(1, 2), true);
}

#[test]
fn test_graph_clear() {
    let mut graph = generate_test_graph();

    graph.clear();

    assert_eq!(graph.nodes, HashMap::from([]));
}

#[test]
fn test_graph_has_node() {
    let mut graph = Graph::new();

    graph.add_node(0);

    assert_eq!(graph.has_node(0), true);
}

#[test]
fn test_graph_has_edge() {
    let graph = generate_test_graph();

    assert_eq!(graph.has_edge(0, 1), true);
}

#[test]
fn test_graph_get_leaf_nodes() {
    let mut graph = Graph::new();

    graph.add_node(0);
    graph.add_node(1);
    graph.add_node(2);
    graph.add_node(3);

    graph.add_edge(0, 1, 4);
    graph.add_edge(1, 2, 5);
    graph.add_edge(2, 3, 6);

    assert_eq!(graph.get_leaf_nodes(), HashSet::from([0, 3]));
}

#[test]
fn test_graph_drops_edge() {
    let mut graph = Graph::new();

    graph.add_node(0);
    graph.add_node(1);
    graph.add_node(2);
    graph.add_node(3);

    graph.add_edge(0, 1, 6);
    graph.add_edge(1, 2, 7);
    graph.add_edge(2, 3, 8);

    graph.drop_edge(2, 3);

    assert_eq!(graph.has_edge(2, 3), false);
}

#[test]
fn test_graph_drops_node() {
    let mut graph = generate_test_graph();

    graph.drop_node(2);

    assert_eq!(graph.has_node(2), false);
}

#[test]
fn test_graph_directed_edge() {
    let mut graph = Graph::new();

    graph.add_node(0);
    graph.add_node(1);
    graph.add_node(2);
    graph.add_node(3);

    graph.add_edge(0, 1, 6);
    graph.add_edge(0, 2, 16);
    graph.add_edge(1, 2, 7);
    graph.add_edge_directed(2, 3, 8);

    assert_eq!(graph.has_edge(2, 3), false);
    assert_eq!(graph.has_edge_directed(2, 3), true);
    assert_eq!(graph.has_edge_directed(3, 2), false);

    graph.drop_edge(2, 3);
    assert_eq!(graph.has_edge_directed(2, 3), false);
}

#[test]
fn new_graph_is_empty() {
    let graph = Graph::new();

    assert!(graph.nodes.is_empty());
    assert_eq!(graph.get_nodes(), HashSet::new());
    assert_eq!(graph.has_node(0), false);
}

#[test]
fn adding_a_node_again_drops_its_arcs() {
    let mut graph = generate_test_graph();

    graph.add_node(1);

    assert_eq!(graph.has_node(1), true);
    assert_eq!(graph.get_node_adjacents(1).unwrap().len(), 0);
    assert_eq!(graph.has_edge_directed(1, 0), false);
    assert_eq!(graph.has_edge_directed(1, 2), false);
    // The arcs that lead to the node are still there.
    assert_eq!(graph.has_edge_directed(0, 1), true);
    assert_eq!(graph.has_edge_directed(2, 1), true);
}

#[test]
fn added_edge_leads_both_ways_with_its_weight() {
    let mut graph = Graph::new();
    graph.add_node(4);
    graph.add_node(9);

    graph.add_edge(4, 9, 17);

    assert_eq!(graph.has_edge(4, 9), true);
    assert_eq!(graph.has_edge(9, 4), true);
    assert_eq!(graph.get_node_adjacents(4).unwrap().get(&9), Some(&17));
    assert_eq!(graph.get_node_adjacents(9).unwrap().get(&4), Some(&17));
}

#[test]
fn added_arc_leads_one_way() {
    let mut graph = Graph::new();
    graph.add_node(4);
    graph.add_node(9);

    graph.add_edge_directed(4, 9, 17);

    assert_eq!(graph.has_edge_directed(4, 9), true);
    assert_eq!(graph.has_edge_directed(9, 4), false);
    assert_eq!(graph.has_edge(4, 9), false);
}

#[test]
fn edge_from_a_node_to_itself_is_not_added() {
    let mut graph = Graph::new();
    graph.add_node(3);

    graph.add_edge(3, 3, 5);
    graph.add_edge_directed(3, 3, 5);

    assert_eq!(graph.has_edge(3, 3), false);
    assert_eq!(graph.has_edge_directed(3, 3), false);
    assert_eq!(graph.get_node_adjacents(3).unwrap().len(), 0);
}

#[test]
fn arc_from_an_unknown_node_is_not_added() {
    let mut graph = Graph::new();
    graph.add_node(1);

    graph.add_edge_directed(7, 1, 5);

    assert_eq!(graph.has_node(7), false);
    assert_eq!(graph.nodes.len(), 1);
    assert_eq!(graph.get_node_adjacents(1).unwrap().len(), 0);
}

#[test]
fn arc_to_an_unknown_node_is_stored_but_is_no_arc() {
    let mut graph = Graph::new();
    graph.add_node(1);

    graph.add_edge_directed(1, 7, 5);

    assert_eq!(graph.get_node_adjacents(1).unwrap().get(&7), Some(&5));
    assert_eq!(graph.has_edge_directed(1, 7), false);
    assert_eq!(graph.arcs_from(1), vec![]);

    graph.add_node(7);
    assert_eq!(graph.has_edge_directed(1, 7), true);
    assert_eq!(graph.arcs_from(1), vec![(7, 5)]);
}

#[test]
fn adding_an_arc_again_replaces_its_weight() {
    let mut graph = Graph::new();
    graph.add_node(1);
    graph.add_node(2);

    graph.add_edge_directed(1, 2, 5);
    graph.add_edge_directed(1, 2, 8);

    let adjacents = graph.get_node_adjacents(1).unwrap();
    assert_eq!(adjacents.len(), 1);
    assert_eq!(adjacents.get(&2), Some(&8));
}

#[test]
fn dropping_an_arc_leaves_the_arc_back() {
    let mut graph = generate_test_graph();

    graph.drop_edge_directed(0, 1);

    assert_eq!(graph.has_edge_directed(0, 1), false);
    assert_eq!(graph.has_edge_directed(1, 0), true);

    // Dropping what is not there changes nothing.
    graph.drop_edge_directed(0, 1);
    graph.drop_edge_directed(5, 1);
    assert_eq!(graph.has_edge_directed(1, 0), true);
    assert_eq!(graph.nodes.len(), 3);
}

#[test]
fn dropping_a_node_drops_the_arcs_to_it() {
    let mut graph = generate_test_graph();

    graph.drop_node(1);

    assert_eq!(graph.has_node(1), false);
    assert_eq!(graph.get_nodes(), HashSet::from([0, 2]));
    assert_eq!(graph.get_node_adjacents(0).unwrap().len(), 0);
    assert_eq!(graph.get_node_adjacents(2).unwrap().len(), 0);
}

#[test]
fn dropping_a_node_keeps_arcs_whose_weight_is_its_number() {
    let mut graph = Graph::new();
    graph.add_node(0);
    graph.add_node(1);
    graph.add_node(2);
    graph.add_edge(0, 1, 2);

    graph.drop_node(2);

    assert_eq!(graph.has_edge(0, 1), true);
    assert_eq!(graph.get_node_adjacents(0).unwrap().get(&1), Some(&2));
}

#[test]
fn clear_returns_the_emptied_store() {
    let mut graph = generate_test_graph();

    assert!(graph.clear().is_empty());
    assert_eq!(graph.has_node(0), false);
}

#[test]
fn adjacents_of_an_unknown_node_are_an_error() {
    let graph = generate_test_graph();

    assert_eq!(graph.get_node_adjacents(5), Err(GraphError::NodeNotFound(5)));
    assert_eq!(
        graph.get_node_adjacents(1),
        Ok(&HashMap::from([(0, 1), (2, 2)]))
    );
}

#[test]
fn has_edge_is_false_for_unknown_nodes() {
    let graph = generate_test_graph();

    assert_eq!(graph.has_edge_directed(0, 5), false);
    assert_eq!(graph.has_edge_directed(5, 0), false);
    assert_eq!(graph.has_edge(5, 6), false);
}

#[test]
fn leaves_have_exactly_one_neighbour() {
    let mut graph = Graph::new();
    assert_eq!(graph.get_leaf_nodes(), HashSet::new());

    graph.add_node(0);
    graph.add_node(1);
    graph.add_node(2);
    assert_eq!(graph.get_leaf_nodes(), HashSet::new());

    graph.add_edge_directed(0, 1, 1);
    assert_eq!(graph.get_leaf_nodes(), HashSet::from([0]));

    graph.add_edge_directed(0, 2, 1);
    assert_eq!(graph.get_leaf_nodes(), HashSet::new());
}

#[test]
fn node_list_holds_every_node_once() {
    let graph = generate_test_graph();

    let mut list = graph.node_list();
    list.sort();

    assert_eq!(list, vec![0, 1, 2]);
}

#[test]
fn arcs_from_lists_neighbours_and_weights() {
    let graph = generate_test_graph();

    let mut arcs = graph.arcs_from(1);
    arcs.sort();

    assert_eq!(arcs, vec![(0, 1), (2, 2)]);
    assert_eq!(graph.arcs_from(8), vec![]);
}

#[test]
fn negative_weights_are_told_apart() {
    let mut graph = generate_test_graph();
    assert_eq!(graph.has_no_negative_weight(), true);

    graph.add_edge_directed(2, 0, 0);
    assert_eq!(graph.has_no_negative_weight(), true);

    // An entry for a neighbour that is no node is no arc.
    graph.add_edge_directed(2, 9, -1);
    assert_eq!(graph.has_no_negative_weight(), true);

    graph.add_edge_directed(2, 1, -1);
    assert_eq!(graph.has_no_negative_weight(), false);
    assert_eq!(Graph::new().has_no_negative_weight(), true);
}

#[test]
fn arcs_from_lists_every_arc_once() {
    let mut graph = Graph::new();
    for node in 0..6 {
        graph.add_node(node);
    }
    for to in 1..6 {
        graph.add_edge_directed(0, to, 1);
        graph.add_edge_directed(0, to, 2);
    }

    let mut arcs = graph.arcs_from(0);
    arcs.sort();

    assert_eq!(arcs, vec![(1, 2), (2, 2), (3, 2), (4, 2), (5, 2)]);
}
