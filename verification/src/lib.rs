//! An in-memory weighted graph whose operations are verified with Verus.
//!
//! A [`Graph`] keeps, for every node, the neighbours that its arcs lead to
//! and the weights of these arcs. On it work two traversals (depth first
//! and breadth first), a test for connectedness, and three searches for a
//! cheapest walk: Dijkstra's algorithm and A* for graphs without negative
//! weights, and Bellman-Ford, which also tells whether a cycle of negative
//! cost can be reached.
//!
//! Every function states in its contract what it returns, over the model
//! of a graph in [`walks`]: a map from each node to the map of its
//! neighbours and weights. The laws that relate the operations to one
//! another are proved in [`laws`].
//!
//! ```
//! let mut graph = mgraph::Graph::new();
//!
//! graph.add_node(0);
//! graph.add_node(1);
//! graph.add_node(2);
//! graph.add_node(3);
//!
//! graph.add_edge(0, 1, 6);
//! graph.add_edge(0, 2, 16);
//! graph.add_edge(1, 2, 7);
//! graph.add_edge(2, 3, 8);
//!
//! let result = graph.shortest_path(0, 2);
//! assert_eq!(result.cost, Some(13));
//!
//! let path = graph.restore_path(0, 2, result.parents.unwrap()).unwrap();
//! assert_eq!(path, [0, 1, 2]);
//! ```

pub mod bellman_ford;
pub mod error;
pub mod graph;
pub mod json;
pub mod laws;
pub mod queue;
pub mod search;
pub mod shortest;
pub mod sorted;
pub mod traversal;
pub mod walks;

pub use crate::error::GraphError;
pub use crate::graph::Graph;
pub use crate::shortest::DijkstraResult;
