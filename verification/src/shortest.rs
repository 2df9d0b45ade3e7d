//! Cheapest walks in a graph without negative weights: Dijkstra's
//! algorithm, A*, and the walk that a table of parents describes.

use std::collections::HashMap;
use std::collections::VecDeque;
use vstd::prelude::*;

use crate::error::GraphError;
use crate::graph::Graph;
use crate::search::admissible;
use crate::search::follows_parents;
use crate::search::estimates_nothing;
use crate::search::is_routed;
use crate::search::takes_first_predecessors;
use crate::search::blank_tables;
use crate::walks::connects;
use crate::walks::is_distance;
use crate::walks::is_walk_cost;
use crate::walks::lemma_cost_not_negative;
use crate::walks::lemma_single_node_walk;
use crate::walks::nonnegative;
use crate::walks::reachable;
use crate::walks::walk_cost;
use crate::walks::Adjacency;

verus! {

/// What Dijkstra's algorithm found.
#[derive(PartialEq, Debug)]
pub struct DijkstraResult {
    /// The cost of a cheapest walk, or `None` where no walk exists.
    pub cost: Option<u64>,
    /// For every node of the graph its predecessor on the walk by which
    /// the search reached it, if it did; `None` where no walk exists.
    pub parents: Option<HashMap<u32, Option<u32>>>,
}

/// The estimate that turns a best-first search into Dijkstra's algorithm.
fn no_estimate(_node: u32, _target: u32) -> (estimate: u32)
    ensures
        estimate == 0,
{
    0
}

/// An estimate that is always zero never exceeds the cost of a walk.
pub proof fn lemma_zero_is_admissible<F: Fn(u32, u32) -> u32>(
    heuristic: F,
    g: Adjacency,
    target: u32,
)
    requires
        nonnegative(g),
        forall|node: u32, other: u32, estimate: u32|
            call_ensures(heuristic, (node, other), estimate) ==> estimate == 0,
    ensures
        admissible(heuristic, g, target),
{
    assert forall|node: u32, estimate: u32, walk: Seq<u32>|
        #![trigger
            call_ensures(heuristic, (node, target), estimate),
            connects(g, walk, node, target),
        ]
        node != target && call_ensures(heuristic, (node, target), estimate) && connects(
            g,
            walk,
            node,
            target,
        ) implies estimate <= walk_cost(g, walk) by {
        lemma_cost_not_negative(g, walk);
    }
}

/// The parents describe `route` from its second node on: none of these is
/// `source`, and each has its predecessor as parent.
pub open spec fn is_chain(parents: Map<u32, Option<u32>>, source: u32, route: Seq<u32>) -> bool {
    &&& route.len() > 0
    &&& forall|i: int|
        1 <= i < route.len() ==> (#[trigger] route[i]) != source && parents.contains_key(route[i])
            && parents[route[i]] == Some(route[i - 1])
}

/// A route that the parents describe from `source` ends like every chain
/// that ends at the same node.
pub proof fn lemma_chain_is_suffix(
    parents: Map<u32, Option<u32>>,
    source: u32,
    target: u32,
    route: Seq<u32>,
    chain: Seq<u32>,
    k: int,
)
    requires
        follows_parents(parents, route, source, target),
        is_chain(parents, source, chain),
        chain.last() == target,
        0 <= k < chain.len(),
    ensures
        k < route.len(),
        chain[chain.len() - 1 - k] == route[route.len() - 1 - k],
    decreases k,
{
    if k > 0 {
        lemma_chain_is_suffix(parents, source, target, route, chain, k - 1);
        let c = chain.len() - k;
        let r = route.len() - k;
        assert(chain[c] == route[r]);
        assert(chain[c] != source);
        assert(r >= 1);
        assert(parents[route[r]] == Some(route[r - 1]));
    }
}

/// A route that the parents describe from `source` visits no node twice.
pub proof fn lemma_route_visits_once(
    parents: Map<u32, Option<u32>>,
    source: u32,
    target: u32,
    route: Seq<u32>,
    i: int,
    j: int,
)
    requires
        follows_parents(parents, route, source, target),
        0 <= i < j < route.len(),
    ensures
        route[i] != route[j],
    decreases i,
{
    if i == 0 {
        assert(route[j] != source);
    } else {
        lemma_route_visits_once(parents, source, target, route, i - 1, j - 1);
        assert(parents[route[i]] == Some(route[i - 1]));
        assert(parents[route[j]] == Some(route[j - 1]));
    }
}

/// A route that the parents describe has, after its first node, no more
/// nodes than the parents have entries.
pub proof fn lemma_route_length(
    parents: Map<u32, Option<u32>>,
    source: u32,
    target: u32,
    route: Seq<u32>,
)
    requires
        parents.dom().finite(),
        follows_parents(parents, route, source, target),
    ensures
        route.len() <= parents.dom().len() + 1,
{
    let rest = route.skip(1);
    assert forall|i: int, j: int| 0 <= i < j < rest.len() implies rest[i] != rest[j] by {
        lemma_route_visits_once(parents, source, target, route, i + 1, j + 1);
    }
    assert(rest.no_duplicates());
    assert forall|v: u32| rest.to_set().contains(v) implies parents.dom().contains(v) by {
        let i = choose|i: int| 0 <= i < rest.len() && rest[i] == v;
        assert(route[i + 1] == v);
    }
    rest.unique_seq_to_set();
    vstd::set_lib::lemma_len_subset(rest.to_set(), parents.dom());
}

/// Of two routes that the parents describe between the same ends, the
/// second is no longer than the first.
proof fn lemma_route_no_longer(
    parents: Map<u32, Option<u32>>,
    source: u32,
    target: u32,
    first: Seq<u32>,
    second: Seq<u32>,
)
    requires
        follows_parents(parents, first, source, target),
        follows_parents(parents, second, source, target),
    ensures
        second.len() <= first.len(),
{
    lemma_chain_is_suffix(parents, source, target, second, first, first.len() - 1);
    if first.len() < second.len() {
        assert(first[0] == second[second.len() - first.len()]);
        assert(second[second.len() - first.len()] != source);
    }
}

/// The parents describe at most one route from `source` to `target`.
pub proof fn lemma_route_is_unique(
    parents: Map<u32, Option<u32>>,
    source: u32,
    target: u32,
    first: Seq<u32>,
    second: Seq<u32>,
)
    requires
        follows_parents(parents, first, source, target),
        follows_parents(parents, second, source, target),
    ensures
        first == second,
{
    lemma_route_no_longer(parents, source, target, first, second);
    lemma_route_no_longer(parents, source, target, second, first);
    assert forall|i: int| 0 <= i < first.len() implies first[i] == second[i] by {
        lemma_chain_is_suffix(parents, source, target, second, first, first.len() - 1 - i);
    }
    assert(first =~= second);
}

/// The parents lead from `target` back to `source` along a walk of the
/// graph that costs `cost`.
pub open spec fn describes_route(
    g: Adjacency,
    parents: Map<u32, Option<u32>>,
    source: u32,
    target: u32,
    cost: int,
) -> bool {
    exists|route: Seq<u32>| #[trigger]
        follows_parents(parents, route, source, target) && connects(g, route, source, target)
            && walk_cost(g, route) == cost
}

/// `cost` is what a search for a cheapest walk from `source` to `target`
/// owes: the cost of a cheapest walk, or `None` when no walk leads there.
pub open spec fn is_cheapest_cost(
    g: Adjacency,
    source: u32,
    target: u32,
    cost: Option<u64>,
) -> bool {
    match cost {
        Some(cost) => is_distance(g, source, target, cost as int),
        None => !reachable(g, source, target),
    }
}

/// `cost` is what A* may return for a walk from `source` to `target`: 0
/// when no walk leads there, else the cost of some walk, which is that of
/// a cheapest one where the heuristic was admissible.
pub open spec fn is_astar_cost(
    g: Adjacency,
    source: u32,
    target: u32,
    trusted: bool,
    cost: u64,
) -> bool {
    if reachable(g, source, target) {
        is_walk_cost(g, source, target, cost as int) && (trusted ==> is_distance(
            g,
            source,
            target,
            cost as int,
        ))
    } else {
        cost == 0
    }
}

impl Graph {
    /// Finds a cheapest walk from `source` to `target` with Dijkstra's
    /// algorithm. The graph must not hold a negative weight.
    ///
    /// The cost is that of a cheapest walk, and `None` exactly when no walk
    /// leads from `source` to `target`. With a cost come the parents: they
    /// cover the nodes of the graph and lead from `target` back to `source`
    /// along a walk of that cost, and from every other node that has a
    /// parent along some walk. A walk from a node to itself costs nothing,
    /// and then no node has a parent.
    ///
    /// Nodes leave the queue in ascending order of cost, and at equal cost
    /// in ascending order of number. This decides between cheapest walks:
    /// each node on the route has as parent, of its predecessors on
    /// cheapest walks, one of the nearest to `source`; where every weight
    /// is above zero, it is among the nearest the one with the lowest
    /// number.
    pub fn shortest_path(&self, source: u32, target: u32) -> (result: DijkstraResult)
        requires
            nonnegative(self@),
        ensures
            is_cheapest_cost(self@, source, target, result.cost),
            match result.parents {
                Some(parents) => {
                    &&& result.cost is Some
                    &&& parents@.dom() == self@.dom()
                    &&& describes_route(self@, parents@, source, target, result.cost->0 as int)
                    &&& parents@.contains_key(source) ==> parents@[source] is None
                    &&& forall|node: u32| #[trigger]
                        parents@.contains_key(node) && parents@[node] is Some ==> is_routed(
                            self@,
                            parents@,
                            source,
                            node,
                        )
                    &&& takes_first_predecessors(self@, parents@, source, target)
                },
                None => result.cost is None,
            },
    {
        if source == target {
            let order = self.node_list();
            let (_, parents) = blank_tables(&order);
            proof {
                lemma_single_node_walk(self@, source);
                let route = seq![source];
                assert(connects(self@, route, source, target) && walk_cost(self@, route) == 0);
                assert(follows_parents(parents@, route, source, target));
                assert forall|walk: Seq<u32>| #[trigger]
                    connects(self@, walk, source, target) implies 0 <= walk_cost(self@, walk) by {
                    lemma_cost_not_negative(self@, walk);
                }
                assert forall|other: Seq<u32>, i: int|
                    #![trigger follows_parents(parents@, other, source, target), other[i]]
                    follows_parents(parents@, other, source, target) && 1 <= i
                        < other.len() implies false by {
                    assert(other[other.len() - 1] != source);
                }
            }
            return DijkstraResult { cost: Some(0), parents: Some(parents) };
        }
        proof {
            lemma_zero_is_admissible(no_estimate, self@, target);
            assert(estimates_nothing(no_estimate, target));
        }
        let (found, parents) = self.best_first_search(source, target, no_estimate);
        match found {
            None => DijkstraResult { cost: None, parents: None },
            Some(cost) => {
                proof {
                    let route = choose|route: Seq<u32>| #[trigger]
                        follows_parents(parents@, route, source, target) && connects(
                            self@,
                            route,
                            source,
                            target,
                        ) && walk_cost(self@, route) <= cost;
                    assert(follows_parents(parents@, route, source, target) && connects(
                        self@,
                        route,
                        source,
                        target,
                    ) && walk_cost(self@, route) == cost);
                }
                DijkstraResult { cost: Some(cost), parents: Some(parents) }
            },
        }
    }

    /// Finds the cost of a walk from `source` to `target` with A*: a
    /// best-first search that expands first the node whose cost so far plus
    /// `heuristic(node, target)` is lowest. The graph must not hold a
    /// negative weight. The heuristic is called only on nodes of the graph
    /// and the given target, and need not be defined on anything else.
    ///
    /// Returns 0 when no walk leads from `source` to `target`, and else the
    /// cost of some walk. Where the heuristic is admissible, that is where
    /// it never estimates more for a node than a walk from there to
    /// `target` costs, this is the cost of a cheapest walk. The estimate
    /// only orders the queue and never enters a cost; a node that is
    /// reached again at a lower cost is expanded again, so the heuristic
    /// need not be consistent.
    pub fn astar<F: Fn(u32, u32) -> u32>(&self, source: u32, target: u32, heuristic: F) -> (cost:
        u64)
        requires
            nonnegative(self@),
            forall|node: u32| #[trigger]
                self@.contains_key(node) ==> call_requires(heuristic, (node, target)),
        ensures
            is_astar_cost(self@, source, target, admissible(heuristic, self@, target), cost),
    {
        if source == target {
            proof {
                lemma_single_node_walk(self@, source);
                assert(connects(self@, seq![source], source, target));
                assert forall|walk: Seq<u32>| #[trigger]
                    connects(self@, walk, source, target) implies 0 <= walk_cost(self@, walk) by {
                    lemma_cost_not_negative(self@, walk);
                }
            }
            return 0;
        }
        let (found, _) = self.best_first_search(source, target, heuristic);
        match found {
            None => 0,
            Some(cost) => cost,
        }
    }

    /// Lists the nodes from `source` to `target` that `parents` describes:
    /// each node but `source` is preceded by its parent.
    ///
    /// Fails with `GraphError::BrokenPath` exactly when the parents describe
    /// no such route, because a node on the way back from `target` has no
    /// parent or because the way never comes to `source`.
    pub fn restore_path(
        &self,
        source: u32,
        target: u32,
        parents: HashMap<u32, Option<u32>>,
    ) -> (path: Result<VecDeque<u32>, GraphError>)
        ensures
            match path {
                Ok(route) => follows_parents(parents@, route@, source, target),
                Err(error) => error == GraphError::BrokenPath && forall|route: Seq<u32>|
                    !follows_parents(parents@, route, source, target),
            },
    {
        let mut route: VecDeque<u32> = VecDeque::new();
        let mut current = target;
        route.push_front(current);
        let limit = parents.len();
        assert(route@ =~= seq![target]);
        while current != source
            invariant
                limit == parents@.dom().len(),
                parents@.dom().finite(),
                is_chain(parents@, source, route@),
                route@[0] == current,
                route@.last() == target,
                route@.len() <= limit + 1,
            decreases limit + 1 - route@.len(),
        {
            let parent = match parents.get(&current) {
                Some(Some(parent)) => *parent,
                _ => {
                    proof {
                        assert forall|other: Seq<u32>|
                            !follows_parents(parents@, other, source, target) by {
                            if follows_parents(parents@, other, source, target) {
                                lemma_chain_is_suffix(
                                    parents@,
                                    source,
                                    target,
                                    other,
                                    route@,
                                    route@.len() - 1,
                                );
                                let at = other.len() - route@.len();
                                assert(other[at] == current);
                                assert(at >= 1);
                                assert(parents@[other[at]] == Some(other[at - 1]));
                            }
                        }
                    }
                    return Err(GraphError::BrokenPath);
                },
            };
            if route.len() > limit {
                proof {
                    assert forall|other: Seq<u32>|
                        !follows_parents(parents@, other, source, target) by {
                        if follows_parents(parents@, other, source, target) {
                            lemma_chain_is_suffix(
                                parents@,
                                source,
                                target,
                                other,
                                route@,
                                route@.len() - 1,
                            );
                            let at = other.len() - route@.len();
                            assert(other[at] == current);
                            assert(at >= 1);
                            lemma_route_length(parents@, source, target, other);
                        }
                    }
                }
                return Err(GraphError::BrokenPath);
            }
            let ghost before = route@;
            route.push_front(parent);
            current = parent;
            proof {
                assert forall|i: int| 1 <= i < route@.len() implies (#[trigger] route@[i]) != source
                    && parents@.contains_key(route@[i]) && parents@[route@[i]] == Some(
                    route@[i - 1],
                ) by {
                    assert(route@[i] == before[i - 1]);
                    if i >= 2 {
                        assert(route@[i - 1] == before[i - 2]);
                    }
                }
            }
        }
        Ok(route)
    }
}

} // verus!
