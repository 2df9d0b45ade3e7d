//! Laws that relate the operations of the library to one another.

use vstd::prelude::*;

use crate::bellman_ford::are_bounded_distances;
use crate::bellman_ford::can_lower;
use crate::bellman_ford::can_lower_any;
use crate::bellman_ford::distance_of;
use crate::bellman_ford::INFINITE;
use crate::bellman_ford::is_bounded_distance;
use crate::bellman_ford::negative_cycle_in_reach;
use crate::bellman_ford::rounds;
use crate::bellman_ford::within_reach;
use crate::graph::loop_free;
use crate::graph::with_arc;
use crate::graph::without_node;
use crate::search::admissible;
use crate::shortest::is_astar_cost;
use crate::shortest::is_cheapest_cost;
use crate::shortest::lemma_zero_is_admissible;
use crate::walks::Adjacency;
use crate::walks::connects;
use crate::walks::has_arc;
use crate::walks::is_distance;
use crate::walks::is_walk;
use crate::walks::lemma_cost_bounds;
use crate::walks::lemma_cost_not_negative;
use crate::walks::lemma_cut_cycle;
use crate::walks::lemma_extend_walk;
use crate::walks::lemma_join_walks;
use crate::walks::lemma_node_count;
use crate::walks::lemma_simple_walk;
use crate::walks::lemma_simple_walk_length;
use crate::walks::lemma_walk_nodes_known;
use crate::walks::lemma_walk_prefix;
use crate::walks::nonnegative;
use crate::walks::reachable;
use crate::walks::walk_cost;

verus! {

/// Adding a node again empties it: whatever arcs it had, none leaves it
/// afterwards. Adding it once more changes nothing.
pub proof fn lemma_added_node_is_bare(g: Adjacency, node: u32, to: u32)
    ensures
        g.insert(node, Map::<u32, i32>::empty())[node].len() == 0,
        !has_arc(g.insert(node, Map::<u32, i32>::empty()), node, to),
        g.insert(node, Map::<u32, i32>::empty()).insert(node, Map::<u32, i32>::empty())
            == g.insert(node, Map::<u32, i32>::empty()),
{
    assert(g.insert(node, Map::<u32, i32>::empty()).insert(node, Map::<u32, i32>::empty())
        =~= g.insert(node, Map::<u32, i32>::empty()));
}

/// After an edge was added between two different nodes of the graph, arcs
/// of the given weight lead both ways.
pub proof fn lemma_added_edge_leads_both_ways(g: Adjacency, a: u32, b: u32, weight: i32)
    requires
        a != b,
        g.contains_key(a),
        g.contains_key(b),
    ensures
        ({
            let added = with_arc(with_arc(g, a, b, weight), b, a, weight);
            &&& has_arc(added, a, b)
            &&& has_arc(added, b, a)
            &&& added[a][b] == weight
            &&& added[b][a] == weight
        }),
{
}

/// After an arc was added from one node of the graph to another, it is
/// there with the given weight, and an arc leads back exactly if one did
/// before.
pub proof fn lemma_added_arc_leads_one_way(g: Adjacency, a: u32, b: u32, weight: i32)
    requires
        a != b,
        g.contains_key(a),
        g.contains_key(b),
    ensures
        has_arc(with_arc(g, a, b, weight), a, b),
        with_arc(g, a, b, weight)[a][b] == weight,
        has_arc(with_arc(g, a, b, weight), b, a) == has_arc(g, b, a),
{
}

/// Asking for an edge from a node to itself changes nothing, so a graph
/// without loops has none afterwards.
pub proof fn lemma_no_loop_is_added(g: Adjacency, a: u32, weight: i32)
    ensures
        with_arc(with_arc(g, a, a, weight), a, a, weight) == g,
        loop_free(g) ==> !has_arc(with_arc(with_arc(g, a, a, weight), a, a, weight), a, a),
{
}

/// After a node was dropped, no arc leads to it or from it.
pub proof fn lemma_dropped_node_is_gone(g: Adjacency, node: u32, other: u32)
    ensures
        !without_node(g, node).contains_key(node),
        !has_arc(without_node(g, node), node, other),
        !has_arc(without_node(g, node), other, node),
        without_node(g, node).contains_key(other) ==> !without_node(g, node)[other].contains_key(
            node,
        ),
{
}

/// Two costs that are both the distance between the same nodes are equal.
pub proof fn lemma_distance_is_unique(g: Adjacency, from: u32, to: u32, first: int, second: int)
    requires
        is_distance(g, from, to, first),
        is_distance(g, from, to, second),
    ensures
        first == second,
{
    let one = choose|walk: Seq<u32>| #[trigger]
        connects(g, walk, from, to) && walk_cost(g, walk) == first;
    let other = choose|walk: Seq<u32>| #[trigger]
        connects(g, walk, from, to) && walk_cost(g, walk) == second;
    assert(first <= walk_cost(g, other));
    assert(second <= walk_cost(g, one));
}

/// With a heuristic that always estimates zero, A* returns what Dijkstra's
/// algorithm finds: the cost of a cheapest walk, and 0 where Dijkstra's
/// algorithm finds no walk.
pub proof fn lemma_astar_agrees_with_dijkstra<F: Fn(u32, u32) -> u32>(
    g: Adjacency,
    source: u32,
    target: u32,
    heuristic: F,
    astar: u64,
    dijkstra: Option<u64>,
)
    requires
        nonnegative(g),
        forall|node: u32, other: u32, estimate: u32|
            call_ensures(heuristic, (node, other), estimate) ==> estimate == 0,
        is_astar_cost(g, source, target, admissible(heuristic, g, target), astar),
        is_cheapest_cost(g, source, target, dijkstra),
    ensures
        astar == match dijkstra {
            Some(cost) => cost,
            None => 0,
        },
{
    lemma_zero_is_admissible(heuristic, g, target);
    match dijkstra {
        Some(cost) => {
            let walk = choose|walk: Seq<u32>| #[trigger]
                connects(g, walk, source, target) && walk_cost(g, walk) == cost;
            assert(connects(g, walk, source, target));
            lemma_distance_is_unique(g, source, target, astar as int, cost as int);
        },
        None => {},
    }
}

/// Where no arc can lower a distance any more, no walk from the source is
/// cheaper than the distance of the node it leads to, however many arcs
/// it has.
pub proof fn lemma_settled_distances_are_lowest(
    g: Adjacency,
    source: u32,
    limit: int,
    distances: Map<u32, i64>,
    walk: Seq<u32>,
)
    requires
        0 <= limit <= 0xffff_ffff,
        are_bounded_distances(g, source, limit, distances),
        !can_lower_any(g, distances),
        is_walk(g, walk),
        walk[0] == source,
        g.contains_key(walk.last()),
    ensures
        distances[walk.last()] != INFINITE,
        distances[walk.last()] <= walk_cost(g, walk),
    decreases walk.len(),
{
    let v = walk.last();
    if walk.len() == 1 {
        assert(connects(g, walk, source, v) && walk.len() <= limit + 1);
        assert(within_reach(g, source, v, limit));
    } else {
        let head = walk.drop_last();
        let u = head.last();
        lemma_walk_prefix(g, walk, walk.len() - 1);
        assert(walk.take(walk.len() - 1) =~= head);
        assert(walk.take(walk.len() as int) =~= walk);
        lemma_walk_nodes_known(g, walk, walk.len() - 2);
        lemma_settled_distances_are_lowest(g, source, limit, distances, head);
        assert(has_arc(g, u, v));
        assert(!can_lower(g, distances, u, v));
        assert(within_reach(g, source, u, limit));
        let short = choose|short: Seq<u32>| #[trigger]
            connects(g, short, source, u) && short.len() <= limit + 1 && walk_cost(g, short)
                == distances[u];
        lemma_cost_bounds(g, short);
        assert((short.len() - 1) * i32::MAX <= 0xffff_ffff * 0x7fff_ffff) by (nonlinear_arith)
            requires
                0 <= short.len() - 1 <= 0xffff_ffff,
                i32::MAX == 0x7fff_ffff,
        ;
        assert(distance_of(distances, u) == distances[u]);
        assert(distance_of(distances, v) == distances[v]);
    }
}

/// Where no arc can lower a distance any more, the distance of every node
/// that a walk from the source leads to is the cost of a cheapest walk to
/// it, among the walks of any number of arcs.
pub proof fn lemma_settled_distances_are_distances(
    g: Adjacency,
    source: u32,
    limit: int,
    distances: Map<u32, i64>,
    node: u32,
)
    requires
        0 <= limit <= 0xffff_ffff,
        are_bounded_distances(g, source, limit, distances),
        !can_lower_any(g, distances),
        g.contains_key(node),
        reachable(g, source, node),
    ensures
        is_distance(g, source, node, distances[node] as int),
{
    let any = choose|walk: Seq<u32>| connects(g, walk, source, node);
    lemma_settled_distances_are_lowest(g, source, limit, distances, any);
    assert forall|walk: Seq<u32>| #[trigger] connects(g, walk, source, node) implies distances[node]
        <= walk_cost(g, walk) by {
        lemma_settled_distances_are_lowest(g, source, limit, distances, walk);
    }
    if !within_reach(g, source, node, limit) {
        assert(distances[node] == INFINITE);
    }
    let short = choose|short: Seq<u32>| #[trigger]
        connects(g, short, source, node) && short.len() <= limit + 1 && walk_cost(g, short)
            == distances[node];
    assert(connects(g, short, source, node) && walk_cost(g, short) == distances[node]);
}

/// Where an arc can still lower one of the distances that the rounds of
/// `bellman_ford` have found, a cycle of negative cost can be reached from
/// the source.
pub proof fn lemma_lowering_shows_negative_cycle(
    g: Adjacency,
    source: u32,
    distances: Map<u32, i64>,
)
    requires
        g.dom().finite(),
        are_bounded_distances(g, source, rounds(g), distances),
        can_lower_any(g, distances),
    ensures
        negative_cycle_in_reach(g, source),
{
    let limit = rounds(g);
    let (u, v) = choose|u: u32, v: u32| #[trigger] can_lower(g, distances, u, v);
    assert(g.contains_key(u) && g.contains_key(v));
    assert(g.dom().len() >= 1) by {
        if g.dom().len() == 0 {
            assert(g.dom() =~= Set::<u32>::empty());
        }
    }
    if !within_reach(g, source, u, limit) {
        assert(distances[u] == INFINITE);
    }
    assert(is_bounded_distance(g, source, u, limit, distances[u] as int));
    let short = choose|short: Seq<u32>| #[trigger]
        connects(g, short, source, u) && short.len() <= limit + 1 && walk_cost(g, short)
            == distances[u];
    lemma_extend_walk(g, short, v);
    let long = short.push(v);
    assert(connects(g, long, source, v));
    if long.len() <= limit + 1 {
        assert(within_reach(g, source, v, limit));
        assert(is_bounded_distance(g, source, v, limit, distances[v] as int));
        assert(distances[v] <= walk_cost(g, long));
    } else {
        assert(long.len() == g.dom().len() + 1);
        if long.no_duplicates() {
            lemma_simple_walk_length(g, long);
        }
        let (a, b) = choose|a: int, b: int|
            0 <= a < long.len() && 0 <= b < long.len() && a != b && long[a] == long[b];
        let (i, j) = if a < b {
            (a, b)
        } else {
            (b, a)
        };
        lemma_cut_cycle(g, long, i, j);
        let cut = long.take(i + 1) + long.skip(j + 1);
        let cycle = long.subrange(i, j + 1);
        assert(cut.len() <= limit + 1);
        assert(connects(g, cut, source, v) && cut.len() <= limit + 1);
        assert(within_reach(g, source, v, limit));
        assert(is_bounded_distance(g, source, v, limit, distances[v] as int));
        assert(distances[v] <= walk_cost(g, cut));
        lemma_walk_prefix(g, long, i + 1);
        assert(connects(g, long.take(i + 1), source, long[i]));
        assert(is_walk(g, cycle) && cycle.len() >= 2 && cycle[0] == cycle.last() && walk_cost(
            g,
            cycle,
        ) < 0 && reachable(g, source, cycle[0]));
    }
}

/// Where a cycle of negative cost can be reached from the source, an arc
/// can still lower one of the distances that the rounds of `bellman_ford`
/// have found.
pub proof fn lemma_negative_cycle_shows_in_lowering(
    g: Adjacency,
    source: u32,
    distances: Map<u32, i64>,
)
    requires
        g.dom().finite(),
        are_bounded_distances(g, source, rounds(g), distances),
        negative_cycle_in_reach(g, source),
    ensures
        can_lower_any(g, distances),
{
    let limit = rounds(g);
    lemma_node_count(g.dom());
    if !can_lower_any(g, distances) {
        let cycle = choose|cycle: Seq<u32>| #[trigger]
            is_walk(g, cycle) && cycle.len() >= 2 && cycle[0] == cycle.last() && walk_cost(
                g,
                cycle,
            ) < 0 && reachable(g, source, cycle[0]);
        let node = cycle[0];
        lemma_walk_nodes_known(g, cycle, 0);
        lemma_settled_distances_are_distances(g, source, limit, distances, node);
        let to = choose|walk: Seq<u32>| #[trigger]
            connects(g, walk, source, node) && walk_cost(g, walk) == distances[node];
        lemma_join_walks(g, to, cycle);
        let round = to + cycle.skip(1);
        assert(connects(g, round, source, node));
        assert(distances[node] <= walk_cost(g, round));
    }
}

/// The test for a negative cycle, made on the distances that `bellman_ford`
/// returns for a source, is true exactly when a cycle of negative cost can
/// be reached from that source.
pub proof fn lemma_negative_cycle_test_is_exact(
    g: Adjacency,
    source: u32,
    distances: Map<u32, i64>,
)
    requires
        g.dom().finite(),
        are_bounded_distances(g, source, rounds(g), distances),
    ensures
        can_lower_any(g, distances) <==> negative_cycle_in_reach(g, source),
{
    if can_lower_any(g, distances) {
        lemma_lowering_shows_negative_cycle(g, source, distances);
    }
    if negative_cycle_in_reach(g, source) {
        lemma_negative_cycle_shows_in_lowering(g, source, distances);
    }
}

/// In a graph without negative weights, the distances that the rounds of
/// `bellman_ford` have found are those that Dijkstra's algorithm finds: the
/// cost of a cheapest walk for every node that can be reached from the
/// source, and `INFINITE` for every other node.
pub proof fn lemma_bellman_ford_agrees_with_dijkstra(
    g: Adjacency,
    source: u32,
    distances: Map<u32, i64>,
    node: u32,
)
    requires
        g.dom().finite(),
        nonnegative(g),
        are_bounded_distances(g, source, rounds(g), distances),
        g.contains_key(node),
    ensures
        reachable(g, source, node) ==> distances[node] != INFINITE && is_cheapest_cost(
            g,
            source,
            node,
            Some(distances[node] as u64),
        ),
        !reachable(g, source, node) ==> distances[node] == INFINITE,
{
    let limit = rounds(g);
    assert(g.dom().len() >= 1) by {
        if g.dom().len() == 0 {
            assert(g.dom() =~= Set::<u32>::empty());
        }
    }
    if reachable(g, source, node) {
        assert forall|walk: Seq<u32>| #[trigger]
            connects(g, walk, source, node) implies within_reach(g, source, node, limit)
            && distances[node] <= walk_cost(g, walk) by {
            let simple = lemma_simple_walk(g, walk);
            lemma_simple_walk_length(g, simple);
            assert(connects(g, simple, source, node) && simple.len() <= limit + 1);
            assert(within_reach(g, source, node, limit));
        }
        let any = choose|walk: Seq<u32>| connects(g, walk, source, node);
        assert(connects(g, any, source, node));
        let short = choose|short: Seq<u32>| #[trigger]
            connects(g, short, source, node) && short.len() <= limit + 1 && walk_cost(g, short)
                == distances[node];
        lemma_cost_not_negative(g, short);
        assert(connects(g, short, source, node) && walk_cost(g, short) == distances[node]);
    } else {
        if within_reach(g, source, node, limit) {
            let walk = choose|walk: Seq<u32>| #[trigger]
                connects(g, walk, source, node) && walk.len() <= limit + 1;
            assert(connects(g, walk, source, node));
        }
    }
}

} // verus!
