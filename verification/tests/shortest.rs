use std::cell::RefCell;
use std::collections::HashMap;
use std::collections::VecDeque;

use mgraph::DijkstraResult;
use mgraph::Graph;
use mgraph::GraphError;

fn four_nodes(direct: i32) -> Graph {
    let mut graph = Graph::new();

    graph.add_node(0);
    graph.add_node(1);
    graph.add_node(2);
    graph.add_node(3);

    graph.add_edge(0, 1, 6);
    graph.add_edge(0, 2, direct);
    graph.add_edge(1, 2, 7);
    graph.add_edge(2, 3, 8);

    return graph;
}

#[test]
fn test_graph_shortest_path_1() {
    let mut graph = Graph::new();

    graph.add_node(0);
    graph.add_node(1);
    graph.add_node(2);
    graph.add_node(3);

    graph.add_edge(0, 1, 6);
    graph.add_edge(0, 2, 11);
    graph.add_edge(1, 2, 7);
    graph.add_edge(2, 3, 8);

    let result = graph.shortest_path(0, 2);

    assert_eq!(result.cost.unwrap(), 11);
}

#[test]
fn test_graph_shortest_path_2() {
    let mut graph = Graph::new();

    graph.add_node(0);
    graph.add_node(1);
    graph.add_node(2);
    graph.add_node(3);

    graph.add_edge(0, 1, 6);
    graph.add_edge(0, 2, 16);
    graph.add_edge(1, 2, 7);
    graph.add_edge(2, 3, 8);

    let result = graph.shortest_path(0, 2);

    assert_eq!(result.cost.unwrap(), 13);
}

#[test]
fn test_graph_shortest_path_1_astar() {
    let mut graph = Graph::new();

    graph.add_node(0);
    graph.add_node(1);
    graph.add_node(2);
    graph.add_node(3);

    graph.add_edge(0, 1, 6);
    graph.add_edge(0, 2, 11);
    graph.add_edge(1, 2, 7);
    graph.add_edge(2, 3, 8);

    fn heuristic(_node: u32, _target: u32) -> u32 {
        return 1;
    }

    let result = graph.astar(0, 2, heuristic);

    assert_eq!(result, 11);
}

#[test]
fn shortest_path_gives_parents_that_restore_the_path() {
    let graph = four_nodes(16);

    let result = graph.shortest_path(0, 3);
    assert_eq!(result.cost, Some(21));

    let parents = result.parents.unwrap();
    assert_eq!(parents.len(), 4);
    assert_eq!(parents.get(&0), Some(&None));
    assert_eq!(parents.get(&1), Some(&Some(0)));
    assert_eq!(parents.get(&2), Some(&Some(1)));
    assert_eq!(parents.get(&3), Some(&Some(2)));

    let path = graph.restore_path(0, 3, parents).unwrap();
    assert_eq!(path, VecDeque::from([0, 1, 2, 3]));
}

#[test]
fn shortest_path_from_a_node_to_itself_costs_nothing() {
    let graph = four_nodes(16);

    let result = graph.shortest_path(2, 2);

    assert_eq!(result.cost, Some(0));
    let parents = result.parents.unwrap();
    assert_eq!(
        parents,
        HashMap::from([(0, None), (1, None), (2, None), (3, None)])
    );
    assert_eq!(graph.restore_path(2, 2, parents), Ok(VecDeque::from([2])));

    let unknown = graph.shortest_path(9, 9);
    assert_eq!(unknown.cost, Some(0));
}

#[test]
fn shortest_path_reports_that_there_is_no_path() {
    let mut graph = four_nodes(16);
    graph.add_node(4);

    assert_eq!(
        graph.shortest_path(0, 4),
        DijkstraResult {
            cost: None,
            parents: None
        }
    );
    assert_eq!(graph.shortest_path(0, 9).cost, None);
    assert_eq!(graph.shortest_path(9, 0).cost, None);
    assert_eq!(graph.shortest_path(4, 0).parents, None);
}

#[test]
fn shortest_path_follows_the_direction_of_arcs() {
    let mut graph = Graph::new();
    graph.add_node(0);
    graph.add_node(1);
    graph.add_node(2);
    graph.add_edge_directed(0, 1, 4);
    graph.add_edge_directed(1, 2, 5);
    graph.add_edge_directed(2, 0, 1);

    assert_eq!(graph.shortest_path(0, 2).cost, Some(9));
    assert_eq!(graph.shortest_path(2, 1).cost, Some(5));
    assert_eq!(graph.shortest_path(1, 0).cost, Some(6));
}

#[test]
fn shortest_path_takes_arcs_that_cost_nothing() {
    let mut graph = Graph::new();
    for node in 0..4 {
        graph.add_node(node);
    }
    graph.add_edge(0, 1, 0);
    graph.add_edge(1, 2, 0);
    graph.add_edge(2, 3, 0);
    graph.add_edge(0, 3, 1);

    let result = graph.shortest_path(0, 3);
    assert_eq!(result.cost, Some(0));
    let path = graph.restore_path(0, 3, result.parents.unwrap()).unwrap();
    assert_eq!(path, VecDeque::from([0, 1, 2, 3]));
}

#[test]
fn shortest_path_adds_up_the_largest_weights() {
    let mut graph = Graph::new();
    for node in 0..4 {
        graph.add_node(node);
    }
    graph.add_edge(0, 1, i32::MAX);
    graph.add_edge(1, 2, i32::MAX);
    graph.add_edge(2, 3, i32::MAX);

    assert_eq!(graph.shortest_path(0, 3).cost, Some(6442450941));
    assert_eq!(graph.astar(0, 3, |_, _| u32::MAX), 6442450941);
}

#[test]
fn shortest_path_passes_over_neighbours_that_are_no_nodes() {
    let mut graph = Graph::new();
    graph.add_node(0);
    graph.add_node(1);
    graph.add_edge_directed(0, 5, 1);
    graph.add_edge_directed(0, 1, 3);

    assert_eq!(graph.shortest_path(0, 1).cost, Some(3));
    assert_eq!(graph.shortest_path(0, 5).cost, None);
}

#[test]
fn astar_with_no_estimate_agrees_with_dijkstra() {
    let graph = four_nodes(16);

    for source in 0..5 {
        for target in 0..5 {
            let dijkstra = graph.shortest_path(source, target).cost;
            let astar = graph.astar(source, target, |_, _| 0);
            assert_eq!(astar, dijkstra.unwrap_or(0));
        }
    }
}

#[test]
fn astar_returns_zero_when_there_is_no_path() {
    let mut graph = four_nodes(16);
    graph.add_node(4);

    assert_eq!(graph.astar(0, 4, |_, _| 0), 0);
    assert_eq!(graph.astar(0, 9, |_, _| 3), 0);
    assert_eq!(graph.astar(3, 3, |_, _| 3), 0);
}

#[test]
fn astar_keeps_the_estimate_out_of_the_cost() {
    // A grid of three by three nodes, numbered row by row; the estimate is
    // the number of steps that are left to the target.
    let mut graph = Graph::new();
    for node in 0..9 {
        graph.add_node(node);
    }
    for row in 0..3 {
        for column in 0..3 {
            let node = row * 3 + column;
            if column < 2 {
                graph.add_edge(node, node + 1, 2);
            }
            if row < 2 {
                graph.add_edge(node, node + 3, 3);
            }
        }
    }
    fn steps_left(node: u32, target: u32) -> u32 {
        let rows = (node / 3).abs_diff(target / 3);
        let columns = (node % 3).abs_diff(target % 3);
        rows + columns
    }

    assert_eq!(graph.astar(0, 8, steps_left), 10);
    assert_eq!(graph.astar(8, 0, steps_left), 10);
    assert_eq!(graph.astar(2, 6, steps_left), 10);
    assert_eq!(graph.astar(0, 4, steps_left), 5);
    assert_eq!(graph.shortest_path(0, 8).cost, Some(10));
}

#[test]
fn astar_with_a_misleading_estimate_still_returns_the_cost_of_a_path() {
    let graph = four_nodes(16);

    // The estimate makes node 1 look far away, so the search comes to
    // node 2 by the direct edge.
    let cost = graph.astar(0, 2, |node, _| if node == 1 { 100 } else { 0 });

    assert_eq!(cost, 16);
}

// The cost of the cheapest path from `at` to `target` that visits none of
// the nodes in `visited`, found by trying every such path.
fn cheapest_by_trying_all(
    graph: &Graph,
    at: u32,
    target: u32,
    visited: &mut Vec<u32>,
) -> Option<u64> {
    if at == target {
        return Some(0);
    }
    visited.push(at);
    let mut best: Option<u64> = None;
    for (next, weight) in graph.arcs_from(at) {
        if !visited.contains(&next) {
            if let Some(rest) = cheapest_by_trying_all(graph, next, target, visited) {
                let cost = rest + weight as u64;
                if best.map_or(true, |known| cost < known) {
                    best = Some(cost);
                }
            }
        }
    }
    visited.pop();
    best
}

#[test]
fn shortest_path_finds_what_trying_every_path_finds() {
    let mut seed: u64 = 0x2545_f491_4f6c_dd1d;
    let mut next = move |bound: u64| {
        seed = seed
            .wrapping_mul(6364136223846793005)
            .wrapping_add(1442695040888963407);
        (seed >> 33) % bound
    };
    for _ in 0..40 {
        let nodes = 2 + next(5) as u32;
        let mut graph = Graph::new();
        for node in 0..nodes {
            graph.add_node(node);
        }
        let arcs = next(14);
        for _ in 0..arcs {
            let from = next(nodes as u64) as u32;
            let to = next(nodes as u64) as u32;
            let weight = next(10) as i32;
            if next(2) == 0 {
                graph.add_edge(from, to, weight);
            } else {
                graph.add_edge_directed(from, to, weight);
            }
        }
        for source in 0..nodes {
            for target in 0..nodes {
                let expected = cheapest_by_trying_all(&graph, source, target, &mut Vec::new());
                let result = graph.shortest_path(source, target);
                assert_eq!(result.cost, expected);
                assert_eq!(graph.astar(source, target, |_, _| 0), expected.unwrap_or(0));
                if let Some(parents) = result.parents {
                    let path = graph.restore_path(source, target, parents).unwrap();
                    let mut cost: u64 = 0;
                    for step in 1..path.len() {
                        let adjacents = graph.get_node_adjacents(path[step - 1]).unwrap();
                        cost += *adjacents.get(&path[step]).unwrap() as u64;
                    }
                    assert_eq!(Some(cost), expected);
                    assert_eq!(path[0], source);
                    assert_eq!(path[path.len() - 1], target);
                }
            }
        }
    }
}

#[test]
fn restore_path_fails_where_a_parent_is_missing() {
    let graph = Graph::new();

    let parents = HashMap::from([(2, Some(1)), (1, None), (0, None)]);
    assert_eq!(
        graph.restore_path(0, 2, parents),
        Err(GraphError::BrokenPath)
    );

    let parents = HashMap::from([(2, Some(1))]);
    assert_eq!(
        graph.restore_path(0, 2, parents),
        Err(GraphError::BrokenPath)
    );

    assert_eq!(
        graph.restore_path(0, 2, HashMap::new()),
        Err(GraphError::BrokenPath)
    );
}

#[test]
fn restore_path_fails_where_the_parents_go_in_a_circle() {
    let graph = Graph::new();

    let parents = HashMap::from([(1, Some(2)), (2, Some(3)), (3, Some(1))]);

    assert_eq!(
        graph.restore_path(0, 1, parents),
        Err(GraphError::BrokenPath)
    );
}

#[test]
fn restore_path_uses_every_entry_where_it_has_to() {
    let graph = Graph::new();

    let parents = HashMap::from([(1, Some(0)), (2, Some(1)), (3, Some(2))]);

    assert_eq!(
        graph.restore_path(0, 3, parents),
        Ok(VecDeque::from([0, 1, 2, 3]))
    );
}

#[test]
fn restore_path_stops_at_the_source() {
    let graph = Graph::new();

    // The source has a parent of its own, which is never looked at.
    let parents = HashMap::from([(0, Some(7)), (1, Some(0))]);

    assert_eq!(
        graph.restore_path(0, 1, parents),
        Ok(VecDeque::from([0, 1]))
    );
    assert_eq!(
        graph.restore_path(5, 5, HashMap::new()),
        Ok(VecDeque::from([5]))
    );
}

#[test]
fn shortest_path_breaks_ties_by_the_lower_node() {
    let mut graph = Graph::new();
    for node in 0..4 {
        graph.add_node(node);
    }
    graph.add_edge_directed(0, 1, 1);
    graph.add_edge_directed(0, 2, 1);
    graph.add_edge_directed(1, 3, 1);
    graph.add_edge_directed(2, 3, 1);

    let result = graph.shortest_path(0, 3);

    assert_eq!(result.cost, Some(2));
    let parents = result.parents.unwrap();
    assert_eq!(parents[&3], Some(1));
    assert_eq!(
        graph.restore_path(0, 3, parents),
        Ok(VecDeque::from([0, 1, 3]))
    );
}

#[test]
fn shortest_path_prefers_the_nearer_of_two_predecessors() {
    // Node 4 is reached at cost 4 both over node 1 (at distance 1) and
    // over node 3 (at distance 3); node 1 leaves the queue first.
    let mut graph = Graph::new();
    for node in 0..5 {
        graph.add_node(node);
    }
    graph.add_edge_directed(0, 3, 3);
    graph.add_edge_directed(0, 1, 1);
    graph.add_edge_directed(3, 4, 1);
    graph.add_edge_directed(1, 4, 3);

    let result = graph.shortest_path(0, 4);

    assert_eq!(result.cost, Some(4));
    assert_eq!(result.parents.unwrap()[&4], Some(1));
}

#[test]
fn astar_calls_the_heuristic_only_on_nodes_and_the_target() {
    let mut graph = Graph::new();
    for node in [2, 5, 8, 11] {
        graph.add_node(node);
    }
    graph.add_edge(2, 5, 3);
    graph.add_edge(5, 8, 4);
    graph.add_edge(2, 11, 1);
    graph.add_edge_directed(5, 77, 1);

    let calls = RefCell::new(Vec::new());
    let cost = graph.astar(2, 8, |node, target| {
        calls.borrow_mut().push((node, target));
        0
    });

    assert_eq!(cost, 7);
    assert!(!calls.borrow().is_empty());
    for (node, target) in calls.borrow().iter() {
        assert!(graph.has_node(*node));
        assert_eq!(*target, 8);
    }
}

#[test]
fn shortest_path_takes_a_nearest_predecessor_past_arcs_that_cost_nothing() {
    // Nodes 1 and 2 both lie at distance 5 and both lead on to node 4, but
    // node 1 is reached only over node 3, which leaves the queue after
    // node 2.
    let mut graph = Graph::new();
    for node in 0..5 {
        graph.add_node(node);
    }
    graph.add_edge_directed(0, 2, 5);
    graph.add_edge_directed(0, 3, 5);
    graph.add_edge_directed(3, 1, 0);
    graph.add_edge_directed(1, 4, 1);
    graph.add_edge_directed(2, 4, 1);

    let result = graph.shortest_path(0, 4);

    assert_eq!(result.cost, Some(6));
    assert_eq!(result.parents.unwrap()[&4], Some(2));
}
