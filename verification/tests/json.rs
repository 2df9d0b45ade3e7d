use std::collections::BTreeMap;
use std::collections::HashMap;

use mgraph::json::entry_list;
use mgraph::Graph;
use mgraph::GraphError;

#[test]
fn serialize_writes_an_object_of_arrays_of_pairs() {
    let mut graph = Graph::new();
    graph.add_node(10);
    graph.add_node(2);
    graph.add_node(7);
    graph.add_edge(10, 2, 6);
    graph.add_edge_directed(7, 9, -3);

    let text = graph.serialize();

    assert_eq!(text, "{\"2\":[[10,6]],\"7\":[[9,-3]],\"10\":[[2,6]]}");
}

#[test]
fn serialize_writes_the_neighbours_in_ascending_order() {
    let mut graph = Graph::new();
    for node in [30, 4, 100, 2, 17] {
        graph.add_node(node);
    }
    for (to, weight) in [(100, 1), (2, -2), (30, 3), (17, 0)] {
        graph.add_edge_directed(4, to, weight);
    }

    assert_eq!(
        graph.serialize(),
        "{\"2\":[],\"4\":[[2,-2],[17,0],[30,3],[100,1]],\"17\":[],\"30\":[],\"100\":[]}"
    );
}

#[test]
fn serialize_writes_an_empty_object_for_an_empty_graph() {
    assert_eq!(Graph::new().serialize(), "{}");
}

#[test]
fn deserialize_reads_what_serialize_wrote() {
    let mut graph = Graph::new();
    for node in 0..6 {
        graph.add_node(node);
    }
    graph.add_edge(0, 1, 6);
    graph.add_edge(0, 2, 16);
    graph.add_edge(1, 2, 7);
    graph.add_edge(2, 3, 8);
    graph.add_edge_directed(4, 3, -2);
    graph.add_edge_directed(4, 40, i32::MIN);
    graph.add_edge_directed(3, 4, i32::MAX);

    let text = graph.serialize();
    let read = Graph::deserialize(&text).unwrap();

    assert_eq!(read.nodes, graph.nodes);
}

#[test]
fn deserialize_reads_a_graph() {
    let text = " { \"1\": [[2, 5], [3, -1]], \"2\": [], \"4294967295\": [[1, 0]] } ";
    let read = Graph::deserialize(text).unwrap();

    assert_eq!(
        read.nodes,
        HashMap::from([
            (1, HashMap::from([(2, 5), (3, -1)])),
            (2, HashMap::new()),
            (u32::MAX, HashMap::from([(1, 0)])),
        ])
    );
}

#[test]
fn deserialize_lets_the_later_weight_count() {
    let read = Graph::deserialize("{\"1\":[[2,5],[2,8]]}").unwrap();

    assert_eq!(read.nodes, HashMap::from([(1, HashMap::from([(2, 8)]))]));
}

#[test]
fn deserialize_rejects_what_is_no_graph() {
    assert_eq!(
        Graph::deserialize("").map(|graph| graph.nodes),
        Err(GraphError::Malformed)
    );
    assert_eq!(
        Graph::deserialize("[1, 2]").map(|graph| graph.nodes),
        Err(GraphError::Malformed)
    );
    assert_eq!(
        Graph::deserialize("{\"a\":[]}").map(|graph| graph.nodes),
        Err(GraphError::Malformed)
    );
    assert_eq!(
        Graph::deserialize("{\"1\":[[2]]}").map(|graph| graph.nodes),
        Err(GraphError::Malformed)
    );
    assert_eq!(
        Graph::deserialize("{\"1\":[[2,2147483648]]}").map(|graph| graph.nodes),
        Err(GraphError::Malformed)
    );
    assert_eq!(
        Graph::deserialize("{\"-1\":[]}").map(|graph| graph.nodes),
        Err(GraphError::Malformed)
    );
}

#[test]
fn listing_names_every_node_with_its_arcs() {
    let mut graph = Graph::new();
    graph.add_node(0);
    graph.add_node(1);
    graph.add_node(2);
    graph.add_edge(0, 1, 1);
    graph.add_edge(1, 2, 2);

    assert_eq!(
        graph.listing(),
        BTreeMap::from([
            (0, vec![(1, 1)]),
            (1, vec![(0, 1), (2, 2)]),
            (2, vec![(1, 2)]),
        ])
    );
}

#[test]
fn from_listing_builds_the_graph_that_was_listed() {
    let mut graph = Graph::new();
    graph.add_node(0);
    graph.add_node(1);
    graph.add_node(2);
    graph.add_edge(0, 1, 1);
    graph.add_edge_directed(1, 2, -2);

    let read = Graph::from_listing(&graph.listing());

    assert_eq!(read.nodes, graph.nodes);
    assert_eq!(Graph::from_listing(&BTreeMap::new()).nodes, HashMap::new());
}

#[test]
fn entry_list_holds_every_neighbour_once() {
    let adjacents = HashMap::from([(3, 1), (1, -4), (2, 0)]);

    assert_eq!(entry_list(&adjacents), vec![(1, -4), (2, 0), (3, 1)]);
    assert_eq!(entry_list(&HashMap::new()), vec![]);
}
