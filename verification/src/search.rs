//! Best-first search over a graph without negative weights: the relaxation
//! loop that Dijkstra's algorithm and A* share, and the facts that make its
//! answer a cheapest walk.

use std::collections::HashMap;
use vstd::multiset::Multiset;
use vstd::prelude::*;

use crate::graph::Graph;
use crate::queue::comes_before;
use crate::queue::Candidate;
use crate::queue::MinQueue;
use crate::walks::connects;
use crate::walks::has_arc;
use crate::walks::is_distance;
use crate::walks::is_walk;
use crate::walks::is_walk_cost;
use crate::laws::lemma_distance_is_unique;
use crate::walks::lemma_cost_not_negative;
use crate::walks::lemma_extend_walk;
use crate::walks::lemma_prefix_costs_less;
use crate::walks::lemma_reachable_cheaply;
use crate::walks::lemma_single_node_walk;
use crate::walks::lemma_split_walk;
use crate::walks::lemma_unknown_end_unreachable;
use crate::walks::lemma_walk_prefix;
use crate::walks::nonnegative;
use crate::walks::reachable;
use crate::walks::walk_cost;
use crate::walks::Adjacency;

verus! {

/// The tentative distance of a node that no walk has reached yet.
pub const UNREACHED: u64 = u64::MAX;

/// Every estimate that `heuristic` can give for a node other than `target`
/// is at most the cost of each walk from that node to `target`.
pub open spec fn admissible<F: Fn(u32, u32) -> u32>(
    heuristic: F,
    g: Adjacency,
    target: u32,
) -> bool {
    forall|node: u32, estimate: u32, walk: Seq<u32>|
        #![trigger
            call_ensures(heuristic, (node, target), estimate),
            connects(g, walk, node, target),
        ]
        node != target && call_ensures(heuristic, (node, target), estimate) && connects(
            g,
            walk,
            node,
            target,
        ) ==> estimate <= walk_cost(g, walk)
}

/// `route` leads from `source` to `target` and every node on it but the
/// first has its predecessor as parent.
pub open spec fn follows_parents(
    parents: Map<u32, Option<u32>>,
    route: Seq<u32>,
    source: u32,
    target: u32,
) -> bool {
    &&& route.len() > 0
    &&& route[0] == source
    &&& route.last() == target
    &&& forall|i: int|
        1 <= i < route.len() ==> (#[trigger] route[i]) != source && parents.contains_key(route[i])
            && parents[route[i]] == Some(route[i - 1])
}

/// The parents lead from `node` back to `source` along a walk of the
/// graph.
pub open spec fn is_routed(
    g: Adjacency,
    parents: Map<u32, Option<u32>>,
    source: u32,
    node: u32,
) -> bool {
    exists|route: Seq<u32>| #[trigger]
        follows_parents(parents, route, source, node) && connects(g, route, source, node)
}

/// What a search from `source` for `target` may answer: no cost exactly
/// when no walk leads there; else the cost of some walk, which is a
/// cheapest one where the heuristic could be trusted, together with parents
/// that lead back from the target along a walk of no higher cost, and from
/// every other node that has a parent along some walk.
pub open spec fn is_answer(
    g: Adjacency,
    source: u32,
    target: u32,
    trusted: bool,
    cost: Option<u64>,
    parents: Map<u32, Option<u32>>,
) -> bool {
    match cost {
        None => !reachable(g, source, target),
        Some(cost) => {
            &&& is_walk_cost(g, source, target, cost as int)
            &&& trusted ==> is_distance(g, source, target, cost as int)
            &&& exists|route: Seq<u32>| #[trigger]
                follows_parents(parents, route, source, target) && connects(
                    g,
                    route,
                    source,
                    target,
                ) && walk_cost(g, route) <= cost
            &&& parents.contains_key(source) ==> parents[source] is None
            &&& forall|node: u32| #[trigger]
                parents.contains_key(node) && parents[node] is Some ==> is_routed(
                    g,
                    parents,
                    source,
                    node,
                )
        },
    }
}

/// Every node with a tentative distance is reached by a walk of that cost.
#[verifier::opaque]
spec fn all_witnessed(g: Adjacency, source: u32, tentative: Map<u32, u64>) -> bool {
    forall|v: u32| #[trigger]
        tentative.contains_key(v) && tentative[v] < UNREACHED ==> is_walk_cost(
            g,
            source,
            v,
            tentative[v] as int,
        )
}

/// No arc out of `v` leads to a node whose tentative distance it could
/// still lower.
spec fn relaxed(g: Adjacency, tentative: Map<u32, u64>, v: u32) -> bool {
    forall|x: u32| #[trigger] has_arc(g, v, x) ==> tentative[x] <= tentative[v] + g[v][x]
}

/// The queue holds `v` at cost `cost`.
spec fn queued(waiting: Multiset<Candidate>, v: u32, cost: u64) -> bool {
    exists|e: Candidate| #[trigger] waiting.contains(e) && e.node == v && e.cost == cost
}

/// A reached node either waits in the queue at its tentative distance or
/// has had all its arcs relaxed; the target is never expanded, so it waits.
/// The node `busy`, if any, is the one being expanded.
#[verifier::opaque]
spec fn frontier_kept(
    g: Adjacency,
    target: u32,
    tentative: Map<u32, u64>,
    waiting: Multiset<Candidate>,
    busy: Option<u32>,
) -> bool {
    forall|v: u32| #[trigger]
        tentative.contains_key(v) && tentative[v] < UNREACHED ==> queued(waiting, v, tentative[v])
            || (v != target && relaxed(g, tentative, v)) || busy == Some(v)
}

/// What holds of one candidate in the queue: its node is known and was
/// reached at no more than the candidate's cost, the priority is no less
/// than the cost, and under an admissible heuristic no more than the cost
/// of any walk that goes on from here to the target.
spec fn entry_sound(
    g: Adjacency,
    target: u32,
    tentative: Map<u32, u64>,
    trusted: bool,
    e: Candidate,
) -> bool {
    &&& tentative.contains_key(e.node)
    &&& tentative[e.node] <= e.cost < UNREACHED
    &&& e.cost <= e.priority
    &&& trusted && e.node != target ==> forall|walk: Seq<u32>| #[trigger]
        connects(g, walk, e.node, target) ==> e.priority <= e.cost + walk_cost(g, walk)
}

/// Every candidate in the queue is sound.
#[verifier::opaque]
spec fn entries_sound(
    g: Adjacency,
    target: u32,
    tentative: Map<u32, u64>,
    trusted: bool,
    waiting: Multiset<Candidate>,
) -> bool {
    forall|e: Candidate| #[trigger]
        waiting.contains(e) ==> entry_sound(g, target, tentative, trusted, e)
}

/// When `v` was last reached at a lower cost; 0 if it never was.
spec fn stamp(stamps: Map<u32, nat>, v: u32) -> nat {
    if stamps.contains_key(v) {
        stamps[v]
    } else {
        0
    }
}

/// What holds of the parent of every node: a reached node other than the
/// source has a parent from which an arc leads to it, at no more than its
/// own tentative distance; where the two distances are equal, the parent
/// was reached first.
#[verifier::opaque]
spec fn parents_kept(
    g: Adjacency,
    source: u32,
    tentative: Map<u32, u64>,
    parents: Map<u32, Option<u32>>,
    stamps: Map<u32, nat>,
) -> bool {
    forall|v: u32| #[trigger]
        parents.contains_key(v) ==> match parents[v] {
            None => v == source || tentative[v] == UNREACHED,
            Some(u) => {
                &&& v != source
                &&& has_arc(g, u, v)
                &&& tentative[v] < UNREACHED
                &&& tentative[u] + g[u][v] <= tentative[v]
                &&& tentative[u] == tentative[v] ==> stamp(stamps, u) < stamp(stamps, v)
            },
        }
}

/// The state of a search between two steps.
#[verifier::opaque]
spec fn search_kept(
    g: Adjacency,
    source: u32,
    target: u32,
    trusted: bool,
    tentative: Map<u32, u64>,
    parents: Map<u32, Option<u32>>,
    stamps: Map<u32, nat>,
    waiting: Multiset<Candidate>,
    busy: Option<u32>,
) -> bool {
    &&& nonnegative(g)
    &&& source != target
    &&& g.contains_key(source)
    &&& g.contains_key(target)
    &&& tentative.dom() == g.dom()
    &&& parents.dom() == g.dom()
    &&& tentative[source] == 0
    &&& all_witnessed(g, source, tentative)
    &&& frontier_kept(g, target, tentative, waiting, busy)
    &&& entries_sound(g, target, tentative, trusted, waiting)
    &&& parents_kept(g, source, tentative, parents, stamps)
}

/// The sum of the tentative distances of the nodes in `order`.
spec fn potential(tentative: Map<u32, u64>, order: Seq<u32>) -> nat
    decreases order.len(),
{
    if order.len() == 0 {
        0
    } else {
        potential(tentative, order.drop_last()) + tentative[order.last()] as nat
    }
}

/// The tentative distance of a node outside `order` does not count.
proof fn lemma_potential_unchanged(tentative: Map<u32, u64>, order: Seq<u32>, x: u32, cost: u64)
    requires
        !order.contains(x),
    ensures
        potential(tentative.insert(x, cost), order) == potential(tentative, order),
    decreases order.len(),
{
    if order.len() > 0 {
        assert(order.last() == order[order.len() - 1]);
        assert forall|i: int| 0 <= i < order.drop_last().len() implies order.drop_last()[i]
            != x by {
            assert(order[i] == order.drop_last()[i]);
        }
        lemma_potential_unchanged(tentative, order.drop_last(), x, cost);
    }
}

/// Lowering the tentative distance of one node lowers the potential.
proof fn lemma_potential_drops(tentative: Map<u32, u64>, order: Seq<u32>, x: u32, cost: u64)
    requires
        order.no_duplicates(),
        order.contains(x),
        cost < tentative[x],
    ensures
        potential(tentative.insert(x, cost), order) < potential(tentative, order),
    decreases order.len(),
{
    let rest = order.drop_last();
    if order.last() == x {
        assert forall|i: int| 0 <= i < rest.len() implies rest[i] != x by {
            assert(order[i] == rest[i]);
            assert(order[order.len() - 1] == x);
        }
        lemma_potential_unchanged(tentative, rest, x, cost);
    } else {
        let i = choose|i: int| 0 <= i < order.len() && order[i] == x;
        assert(rest[i] == x);
        lemma_potential_drops(tentative, rest, x, cost);
    }
}

/// Follows a walk from its `n`-th node on, as long as the nodes it passes
/// have all their arcs relaxed, and returns the place where it stops: at a
/// node that waits in the queue, or at the end of the walk. The tentative
/// distance there is at most the cost of the walk up to that place.
proof fn lemma_first_waiting(
    g: Adjacency,
    target: u32,
    tentative: Map<u32, u64>,
    waiting: Multiset<Candidate>,
    walk: Seq<u32>,
    n: int,
) -> (at: int)
    requires
        nonnegative(g),
        tentative.dom() == g.dom(),
        frontier_kept(g, target, tentative, waiting, None),
        is_walk(g, walk),
        walk.last() == target,
        walk_cost(g, walk) < UNREACHED,
        1 <= n <= walk.len(),
        tentative.contains_key(walk[n - 1]),
        tentative[walk[n - 1]] <= walk_cost(g, walk.take(n)),
    ensures
        n - 1 <= at < walk.len(),
        tentative.contains_key(walk[at]),
        tentative[walk[at]] <= walk_cost(g, walk.take(at + 1)),
        at == walk.len() - 1 || queued(waiting, walk[at], tentative[walk[at]]),
    decreases walk.len() - n,
{
    reveal(frontier_kept);
    let v = walk[n - 1];
    lemma_prefix_costs_less(g, walk, n);
    if n == walk.len() || queued(waiting, v, tentative[v]) {
        n - 1
    } else {
        assert(v != target && relaxed(g, tentative, v));
        lemma_walk_prefix(g, walk, n);
        assert(has_arc(g, v, walk[n]));
        lemma_first_waiting(g, target, tentative, waiting, walk, n + 1)
    }
}

/// When the target leaves the queue first, under an admissible heuristic,
/// its tentative distance is at most the cost of any walk to it.
proof fn lemma_target_is_cheapest(
    g: Adjacency,
    source: u32,
    target: u32,
    tentative: Map<u32, u64>,
    waiting: Multiset<Candidate>,
    first: Candidate,
    walk: Seq<u32>,
)
    requires
        nonnegative(g),
        tentative.dom() == g.dom(),
        g.contains_key(source),
        tentative[source] == 0,
        frontier_kept(g, target, tentative, waiting, None),
        entries_sound(g, target, tentative, true, waiting),
        waiting.contains(first),
        first.node == target,
        forall|other: Candidate| #[trigger] waiting.contains(other) ==> !comes_before(other, first),
        connects(g, walk, source, target),
    ensures
        tentative[target] <= walk_cost(g, walk),
{
    reveal(entries_sound);
    assert(entry_sound(g, target, tentative, true, first));
    if walk_cost(g, walk) < UNREACHED {
        assert(walk.take(1) =~= seq![source]);
        let at = lemma_first_waiting(g, target, tentative, waiting, walk, 1);
        lemma_prefix_costs_less(g, walk, at + 1);
        if at == walk.len() - 1 || walk[at] == target {
        } else {
            let e = choose|e: Candidate| #[trigger]
                waiting.contains(e) && e.node == walk[at] && e.cost == tentative[walk[at]];
            assert(entry_sound(g, target, tentative, true, e));
            lemma_split_walk(g, walk, at);
            assert(connects(g, walk.skip(at), e.node, target));
            assert(!comes_before(e, first));
        }
    }
}

/// When the queue has run empty, no walk that costs less than `UNREACHED`
/// leads to the target.
proof fn lemma_nothing_left(
    g: Adjacency,
    source: u32,
    target: u32,
    tentative: Map<u32, u64>,
    waiting: Multiset<Candidate>,
    walk: Seq<u32>,
)
    requires
        nonnegative(g),
        tentative.dom() == g.dom(),
        g.contains_key(source),
        tentative[source] == 0,
        frontier_kept(g, target, tentative, waiting, None),
        waiting.len() == 0,
        connects(g, walk, source, target),
    ensures
        walk_cost(g, walk) >= UNREACHED,
{
    reveal(frontier_kept);
    if walk_cost(g, walk) < UNREACHED {
        assert(walk.take(1) =~= seq![source]);
        let at = lemma_first_waiting(g, target, tentative, waiting, walk, 1);
        lemma_prefix_costs_less(g, walk, at + 1);
        assert forall|e: Candidate| !waiting.contains(e) by {
            if waiting.contains(e) {
                assert(waiting.remove(e).len() == waiting.len() - 1);
            }
        }
        assert(walk.take(walk.len() as int) =~= walk);
        assert(tentative.contains_key(target));
    }
}

/// Walks back from `v` along the parents to the source, and returns the
/// route in walking order. It costs no more than the tentative distance of
/// `v`.
proof fn lemma_route_through_parents(
    g: Adjacency,
    source: u32,
    tentative: Map<u32, u64>,
    parents: Map<u32, Option<u32>>,
    stamps: Map<u32, nat>,
    v: u32,
) -> (route: Seq<u32>)
    requires
        nonnegative(g),
        tentative.dom() == g.dom(),
        parents.dom() == g.dom(),
        tentative[source] == 0,
        parents_kept(g, source, tentative, parents, stamps),
        g.contains_key(v),
        tentative[v] < UNREACHED,
    ensures
        follows_parents(parents, route, source, v),
        connects(g, route, source, v),
        walk_cost(g, route) <= tentative[v],
    decreases tentative[v], stamp(stamps, v),
{
    reveal(parents_kept);
    if v == source {
        lemma_single_node_walk(g, source);
        seq![source]
    } else {
        assert(parents.contains_key(v));
        let u = parents[v]->0;
        assert(has_arc(g, u, v));
        let before = lemma_route_through_parents(g, source, tentative, parents, stamps, u);
        lemma_extend_walk(g, before, v);
        let route = before.push(v);
        assert forall|i: int| 1 <= i < route.len() implies (#[trigger] route[i]) != source
            && parents.contains_key(route[i]) && parents[route[i]] == Some(route[i - 1]) by {
            if i < before.len() {
                assert(route[i] == before[i]);
                assert(route[i - 1] == before[i - 1]);
            }
        }
        route
    }
}

/// Taking a candidate out of the queue keeps the state of the search, when
/// the candidate is out of date or its node is expanded next.
proof fn lemma_taken_out(
    g: Adjacency,
    source: u32,
    target: u32,
    trusted: bool,
    tentative: Map<u32, u64>,
    parents: Map<u32, Option<u32>>,
    stamps: Map<u32, nat>,
    waiting: Multiset<Candidate>,
    first: Candidate,
    busy: Option<u32>,
)
    requires
        search_kept(g, source, target, trusted, tentative, parents, stamps, waiting, None),
        waiting.contains(first),
        first.cost > tentative[first.node] || busy == Some(first.node),
    ensures
        search_kept(
            g,
            source,
            target,
            trusted,
            tentative,
            parents,
            stamps,
            waiting.remove(first),
            busy,
        ),
{
    reveal(frontier_kept);
    reveal(entries_sound);
    reveal(search_kept);
    let rest = waiting.remove(first);
    assert forall|v: u32| #[trigger]
        tentative.contains_key(v) && tentative[v] < UNREACHED implies queued(
        rest,
        v,
        tentative[v],
    ) || (v != target && relaxed(g, tentative, v)) || busy == Some(v) by {
        if queued(waiting, v, tentative[v]) && busy != Some(v) {
            let e = choose|e: Candidate| #[trigger]
                waiting.contains(e) && e.node == v && e.cost == tentative[v];
            assert(e != first);
            assert(rest.contains(e));
        }
    }
    assert forall|e: Candidate| #[trigger] rest.contains(e) implies entry_sound(
        g,
        target,
        tentative,
        trusted,
        e,
    ) by {
        assert(waiting.contains(e));
    }
}

/// Lowering a tentative distance to the cost of a walk through `u` keeps
/// every tentative distance the cost of a walk.
proof fn lemma_lowered_witnessed(
    g: Adjacency,
    source: u32,
    tentative: Map<u32, u64>,
    u: u32,
    e: Candidate,
)
    requires
        all_witnessed(g, source, tentative),
        tentative.contains_key(u),
        has_arc(g, u, e.node),
        tentative[u] < UNREACHED,
        e.cost == tentative[u] + g[u][e.node],
    ensures
        all_witnessed(g, source, tentative.insert(e.node, e.cost)),
{
    reveal(all_witnessed);
    let x = e.node;
    let lowered = tentative.insert(x, e.cost);
    assert forall|v: u32| #[trigger]
        lowered.contains_key(v) && lowered[v] < UNREACHED implies is_walk_cost(
        g,
        source,
        v,
        lowered[v] as int,
    ) by {
        if v == x {
            let walk = choose|walk: Seq<u32>| #[trigger]
                connects(g, walk, source, u) && walk_cost(g, walk) == tentative[u];
            lemma_extend_walk(g, walk, x);
            assert(connects(g, walk.push(x), source, x));
        } else {
            assert(tentative.contains_key(v));
        }
    }
}

/// Lowering the tentative distance of a node and putting it in the queue
/// at that cost keeps every reached node waiting or relaxed.
proof fn lemma_lowered_frontier(
    g: Adjacency,
    target: u32,
    tentative: Map<u32, u64>,
    waiting: Multiset<Candidate>,
    u: u32,
    e: Candidate,
)
    requires
        frontier_kept(g, target, tentative, waiting, Some(u)),
        tentative.contains_key(e.node),
        e.node != u,
        e.cost < tentative[e.node],
    ensures
        frontier_kept(
            g,
            target,
            tentative.insert(e.node, e.cost),
            waiting.insert(e),
            Some(u),
        ),
{
    reveal(frontier_kept);
    let x = e.node;
    let lowered = tentative.insert(x, e.cost);
    let longer = waiting.insert(e);
    assert forall|v: u32| #[trigger]
        lowered.contains_key(v) && lowered[v] < UNREACHED implies queued(longer, v, lowered[v]) || (
    v != target && relaxed(g, lowered, v)) || Some(u) == Some(v) by {
        if v == x {
            assert(longer.contains(e));
        } else {
            assert(tentative.contains_key(v));
            if queued(waiting, v, tentative[v]) {
                let w = choose|w: Candidate| #[trigger]
                    waiting.contains(w) && w.node == v && w.cost == tentative[v];
                assert(longer.contains(w));
            } else if v != u {
                assert forall|y: u32| #[trigger] has_arc(g, v, y) implies lowered[y] <= lowered[v]
                    + g[v][y] by {}
            }
        }
    }
}

/// Lowering the tentative distance of a node and putting it in the queue
/// at that cost keeps every candidate in the queue sound.
proof fn lemma_lowered_entries(
    g: Adjacency,
    target: u32,
    trusted: bool,
    tentative: Map<u32, u64>,
    waiting: Multiset<Candidate>,
    e: Candidate,
)
    requires
        entries_sound(g, target, tentative, trusted, waiting),
        tentative.contains_key(e.node),
        e.cost < tentative[e.node],
        e.cost <= e.priority,
        trusted && e.node != target ==> forall|walk: Seq<u32>| #[trigger]
            connects(g, walk, e.node, target) ==> e.priority <= e.cost + walk_cost(g, walk),
    ensures
        entries_sound(g, target, tentative.insert(e.node, e.cost), trusted, waiting.insert(e)),
{
    reveal(entries_sound);
    let lowered = tentative.insert(e.node, e.cost);
    let longer = waiting.insert(e);
    assert forall|w: Candidate| #[trigger] longer.contains(w) implies entry_sound(
        g,
        target,
        lowered,
        trusted,
        w,
    ) by {
        if w != e {
            assert(waiting.contains(w));
            assert(entry_sound(g, target, tentative, trusted, w));
        }
    }
}

/// Lowering the tentative distance of a node through an arc from `u`, and
/// making `u` its parent, keeps what holds of the parents.
proof fn lemma_lowered_parents(
    g: Adjacency,
    source: u32,
    tentative: Map<u32, u64>,
    parents: Map<u32, Option<u32>>,
    stamps: Map<u32, nat>,
    clock: nat,
    u: u32,
    e: Candidate,
)
    requires
        nonnegative(g),
        parents_kept(g, source, tentative, parents, stamps),
        forall|v: u32| #[trigger] stamp(stamps, v) < clock,
        tentative.dom() == g.dom(),
        parents.dom() == g.dom(),
        has_arc(g, u, e.node),
        e.node != source,
        e.node != u,
        tentative[u] < UNREACHED,
        e.cost == tentative[u] + g[u][e.node],
        e.cost < tentative[e.node],
    ensures
        parents_kept(
            g,
            source,
            tentative.insert(e.node, e.cost),
            parents.insert(e.node, Some(u)),
            stamps.insert(e.node, clock),
        ),
{
    reveal(parents_kept);
    let x = e.node;
    let lowered = tentative.insert(x, e.cost);
    let adopted = parents.insert(x, Some(u));
    let stamped = stamps.insert(x, clock);
    assert forall|v: u32| #[trigger] adopted.contains_key(v) implies match adopted[v] {
        None => v == source || lowered[v] == UNREACHED,
        Some(p) => {
            &&& v != source
            &&& has_arc(g, p, v)
            &&& lowered[v] < UNREACHED
            &&& lowered[p] + g[p][v] <= lowered[v]
            &&& lowered[p] == lowered[v] ==> stamp(stamped, p) < stamp(stamped, v)
        },
    } by {
        if v == x {
            assert(stamp(stamps, u) < clock);
        } else {
            assert(parents.contains_key(v));
            match parents[v] {
                None => {},
                Some(p) => {
                    assert(has_arc(g, p, v));
                    if p == x {
                        assert(lowered[p] < tentative[p]);
                    } else {
                        assert(stamp(stamped, p) == stamp(stamps, p));
                    }
                },
            }
        }
    }
}

/// Lowering the tentative distance of `e.node` to what the arc from the
/// node under expansion gives, and putting it in the queue at that cost,
/// keeps the state of the search.
proof fn lemma_lowered(
    g: Adjacency,
    source: u32,
    target: u32,
    trusted: bool,
    tentative: Map<u32, u64>,
    parents: Map<u32, Option<u32>>,
    stamps: Map<u32, nat>,
    clock: nat,
    waiting: Multiset<Candidate>,
    u: u32,
    e: Candidate,
)
    requires
        search_kept(g, source, target, trusted, tentative, parents, stamps, waiting, Some(u)),
        forall|v: u32| #[trigger] stamp(stamps, v) < clock,
        has_arc(g, u, e.node),
        tentative[u] < UNREACHED,
        e.cost == tentative[u] + g[u][e.node],
        e.cost < tentative[e.node],
        e.cost <= e.priority,
        trusted && e.node != target ==> forall|walk: Seq<u32>| #[trigger]
            connects(g, walk, e.node, target) ==> e.priority <= e.cost + walk_cost(g, walk),
    ensures
        e.node != u,
        e.node != source,
        search_kept(
            g,
            source,
            target,
            trusted,
            tentative.insert(e.node, e.cost),
            parents.insert(e.node, Some(u)),
            stamps.insert(e.node, clock),
            waiting.insert(e),
            Some(u),
        ),
{
    reveal(search_kept);
    assert(g.contains_key(u) && g.contains_key(e.node));
    assert(tentative.contains_key(u) && tentative.contains_key(e.node));
    assert(g[u][e.node] >= 0);
    lemma_lowered_witnessed(g, source, tentative, u, e);
    lemma_lowered_frontier(g, target, tentative, waiting, u, e);
    lemma_lowered_entries(g, target, trusted, tentative, waiting, e);
    lemma_lowered_parents(g, source, tentative, parents, stamps, clock, u, e);
    assert(tentative.insert(e.node, e.cost).dom() =~= g.dom());
    assert(parents.insert(e.node, Some(u)).dom() =~= g.dom());
}

/// Once every arc out of the node under expansion has been tried, the
/// node counts as relaxed.
proof fn lemma_expanded(
    g: Adjacency,
    source: u32,
    target: u32,
    trusted: bool,
    tentative: Map<u32, u64>,
    parents: Map<u32, Option<u32>>,
    stamps: Map<u32, nat>,
    waiting: Multiset<Candidate>,
    u: u32,
)
    requires
        search_kept(g, source, target, trusted, tentative, parents, stamps, waiting, Some(u)),
        u != target,
        relaxed(g, tentative, u),
    ensures
        search_kept(g, source, target, trusted, tentative, parents, stamps, waiting, None),
{
    reveal(frontier_kept);
    reveal(search_kept);
}

/// What the state of a search says of the graph, the two ends and the
/// nodes that the maps cover.
proof fn lemma_kept_basics(
    g: Adjacency,
    source: u32,
    target: u32,
    trusted: bool,
    tentative: Map<u32, u64>,
    parents: Map<u32, Option<u32>>,
    stamps: Map<u32, nat>,
    waiting: Multiset<Candidate>,
    busy: Option<u32>,
)
    requires
        search_kept(g, source, target, trusted, tentative, parents, stamps, waiting, busy),
    ensures
        nonnegative(g),
        source != target,
        g.contains_key(source),
        g.contains_key(target),
        tentative.dom() == g.dom(),
        parents.dom() == g.dom(),
        tentative[source] == 0,
        forall|e: Candidate| #[trigger]
            waiting.contains(e) ==> tentative.contains_key(e.node) && tentative[e.node] <= e.cost
                < UNREACHED,
{
    reveal(entries_sound);
    reveal(search_kept);
    assert forall|e: Candidate| #[trigger] waiting.contains(e) implies tentative.contains_key(
        e.node,
    ) && tentative[e.node] <= e.cost < UNREACHED by {
        assert(entry_sound(g, target, tentative, trusted, e));
    }
}

/// The search starts with the source alone in the queue, at no cost, and
/// every other node unreached.
proof fn lemma_search_starts(
    g: Adjacency,
    source: u32,
    target: u32,
    trusted: bool,
    tentative: Map<u32, u64>,
    parents: Map<u32, Option<u32>>,
    waiting: Multiset<Candidate>,
)
    requires
        nonnegative(g),
        source != target,
        g.contains_key(source),
        g.contains_key(target),
        tentative.dom() == g.dom(),
        parents.dom() == g.dom(),
        tentative[source] == 0,
        forall|v: u32| #[trigger]
            tentative.contains_key(v) && v != source ==> tentative[v] == UNREACHED,
        forall|v: u32| #[trigger] parents.contains_key(v) ==> parents[v] == None::<u32>,
        waiting == Multiset::<Candidate>::empty().insert(
            Candidate { priority: 0, node: source, cost: 0 },
        ),
    ensures
        search_kept(
            g,
            source,
            target,
            trusted,
            tentative,
            parents,
            Map::<u32, nat>::empty(),
            waiting,
            None,
        ),
{
    reveal(all_witnessed);
    reveal(frontier_kept);
    reveal(entries_sound);
    reveal(parents_kept);
    reveal(search_kept);
    let start = Candidate { priority: 0, node: source, cost: 0 };
    lemma_single_node_walk(g, source);
    assert(waiting.contains(start));
    assert forall|e: Candidate| #[trigger] waiting.contains(e) implies entry_sound(
        g,
        target,
        tentative,
        trusted,
        e,
    ) by {
        assert(e == start);
        assert forall|walk: Seq<u32>| #[trigger]
            connects(g, walk, source, target) implies 0 <= walk_cost(g, walk) by {
            lemma_cost_not_negative(g, walk);
        }
    }
    assert forall|v: u32| #[trigger]
        tentative.contains_key(v) && tentative[v] < UNREACHED implies is_walk_cost(
        g,
        source,
        v,
        tentative[v] as int,
    ) by {
        assert(v == source);
        assert(connects(g, seq![source], source, source));
    }
}

/// When the target leaves the queue, it has been reached by a walk of its
/// tentative distance, which under an admissible heuristic is a cheapest
/// one, and the parents lead back from it to the source along a walk that
/// costs no more.
proof fn lemma_search_found(
    g: Adjacency,
    source: u32,
    target: u32,
    trusted: bool,
    tentative: Map<u32, u64>,
    parents: Map<u32, Option<u32>>,
    stamps: Map<u32, nat>,
    waiting: Multiset<Candidate>,
    first: Candidate,
)
    requires
        search_kept(g, source, target, trusted, tentative, parents, stamps, waiting, None),
        waiting.contains(first),
        first.node == target,
        forall|other: Candidate| #[trigger] waiting.contains(other) ==> !comes_before(other, first),
    ensures
        is_answer(g, source, target, trusted, Some(tentative[target]), parents),
{
    reveal(all_witnessed);
    reveal(entries_sound);
    reveal(search_kept);
    assert(entry_sound(g, target, tentative, trusted, first));
    assert(tentative.contains_key(target));
    let route = lemma_route_through_parents(g, source, tentative, parents, stamps, target);
    assert(follows_parents(parents, route, source, target) && connects(g, route, source, target)
        && walk_cost(g, route) <= tentative[target]);
    if trusted {
        assert forall|walk: Seq<u32>| #[trigger]
            connects(g, walk, source, target) implies tentative[target] <= walk_cost(g, walk) by {
            lemma_target_is_cheapest(g, source, target, tentative, waiting, first, walk);
        }
    }
    assert(parents.contains_key(source) ==> parents[source] is None) by {
        reveal(parents_kept);
    }
    assert forall|node: u32| #[trigger]
        parents.contains_key(node) && parents[node] is Some implies is_routed(
        g,
        parents,
        source,
        node,
    ) by {
        assert(tentative[node] < UNREACHED) by {
            reveal(parents_kept);
        }
        let to = lemma_route_through_parents(g, source, tentative, parents, stamps, node);
        assert(follows_parents(parents, to, source, node) && connects(g, to, source, node));
    }
}

/// When the queue has run empty, no walk leads to the target.
proof fn lemma_search_exhausted(
    g: Adjacency,
    source: u32,
    target: u32,
    trusted: bool,
    tentative: Map<u32, u64>,
    parents: Map<u32, Option<u32>>,
    stamps: Map<u32, nat>,
    waiting: Multiset<Candidate>,
)
    requires
        search_kept(g, source, target, trusted, tentative, parents, stamps, waiting, None),
        g.dom().finite(),
        waiting.len() == 0,
    ensures
        is_answer(g, source, target, trusted, None, parents),
{
    reveal(search_kept);
    if reachable(g, source, target) {
        let walk = lemma_reachable_cheaply(g, source, target);
        lemma_nothing_left(g, source, target, tentative, waiting, walk);
    }
}

/// Every arc of the graph has a weight above zero.
pub open spec fn positive(g: Adjacency) -> bool {
    forall|a: u32, b: u32| #[trigger] has_arc(g, a, b) ==> g[a][b] > 0
}

/// Every estimate that `heuristic` can give for the way to `target` is
/// zero, so that a search orders its queue by cost alone.
pub open spec fn estimates_nothing<F: Fn(u32, u32) -> u32>(heuristic: F, target: u32) -> bool {
    forall|node: u32, estimate: u32| #[trigger]
        call_ensures(heuristic, (node, target), estimate) ==> estimate == 0
}

/// No predecessor of `node` on a cheapest walk from `source` lies nearer
/// to `source` than `before`, which lies at distance `d`; and where every
/// weight is above zero, none at the same distance has a lower number.
pub open spec fn none_earlier(g: Adjacency, source: u32, node: u32, before: u32, d: int) -> bool {
    forall|other: u32, e: int|
        has_arc(g, other, node) && #[trigger] is_distance(g, source, other, e) && is_distance(
            g,
            source,
            node,
            e + g[other][node],
        ) ==> d < e || (d == e && (positive(g) ==> before <= other))
}

/// `before` is the predecessor of `node` that a search by cost alone comes
/// to first: the arc from `before` to `node` ends a cheapest walk from
/// `source`, and of all such predecessors `before` is among the nearest
/// to `source`. Where every weight is above zero, it is among the nearest
/// the one with the lowest number.
pub open spec fn is_first_predecessor(g: Adjacency, source: u32, node: u32, before: u32) -> bool {
    &&& has_arc(g, before, node)
    &&& exists|d: int| #[trigger]
        is_distance(g, source, before, d) && is_distance(g, source, node, d + g[before][node])
            && none_earlier(g, source, node, before, d)
}

/// On the route that the parents describe from `source` to `target`,
/// every node but the first is preceded by its first predecessor.
pub open spec fn takes_first_predecessors(
    g: Adjacency,
    parents: Map<u32, Option<u32>>,
    source: u32,
    target: u32,
) -> bool {
    forall|route: Seq<u32>, i: int|
        #![trigger follows_parents(parents, route, source, target), route[i]]
        follows_parents(parents, route, source, target) && 1 <= i < route.len()
            ==> is_first_predecessor(g, source, route[i], route[i - 1])
}

/// `a` does not leave the queue before `b`: by priority and number where
/// `ties` are told apart by the number, else by priority alone.
spec fn not_before(ties: bool, a: Candidate, b: Candidate) -> bool {
    if ties {
        !comes_before(a, b)
    } else {
        b.priority <= a.priority
    }
}

/// The candidate under which a node waits at a cost when nothing is
/// estimated.
spec fn plain_entry(cost: u64, node: u32) -> Candidate {
    Candidate { priority: cost, node, cost }
}

/// What holds in addition of a `plain` search, which orders its queue by
/// cost alone. The nodes in `done` have left the queue at their tentative
/// distance, in ascending order of distance, and with `ties`, which is in
/// a graph whose weights are all above zero, at equal distance in
/// ascending order of number; nothing that waits comes before any of
/// them; a reached node that is not among them waits; and the parent of a
/// node is the first of them from which an arc gives the node its
/// tentative distance.
#[verifier::opaque]
spec fn order_kept(
    plain: bool,
    ties: bool,
    g: Adjacency,
    target: u32,
    tentative: Map<u32, u64>,
    parents: Map<u32, Option<u32>>,
    waiting: Multiset<Candidate>,
    done: Set<u32>,
    busy: Option<u32>,
) -> bool {
    plain ==> {
        &&& forall|e: Candidate| #[trigger] waiting.contains(e) ==> e.priority == e.cost
        &&& forall|v: u32| #[trigger]
            tentative.contains_key(v) && tentative[v] < UNREACHED && !done.contains(v) ==> queued(
                waiting,
                v,
                tentative[v],
            )
        &&& forall|x: u32| #[trigger]
            done.contains(x) ==> tentative.contains_key(x) && tentative[x] < UNREACHED && x
                != target && (busy != Some(x) ==> relaxed(g, tentative, x))
        &&& forall|x: u32, e: Candidate|
            #![trigger done.contains(x), waiting.contains(e)]
            done.contains(x) && waiting.contains(e) ==> not_before(ties, 
                e,
                plain_entry(tentative[x], x),
            )
        &&& busy matches Some(u) ==> done.contains(u) && forall|x: u32| #[trigger]
            done.contains(x) ==> not_before(ties, 
                plain_entry(tentative[u], u),
                plain_entry(tentative[x], x),
            )
        &&& forall|v: u32| #[trigger]
            parents.contains_key(v) ==> (parents[v] matches Some(u) ==> done.contains(u)
                && has_arc(g, u, v) && tentative[u] + g[u][v] == tentative[v] && first_done(
                ties,
                g,
                tentative,
                done,
                v,
                u,
            ))
    }
}

/// Of the nodes in `done` from which an arc gives `v` its tentative
/// distance, none comes before `u`.
spec fn first_done(
    ties: bool,
    g: Adjacency, tentative: Map<u32, u64>, done: Set<u32>, v: u32, u: u32) -> bool {
    forall|x: u32| #[trigger]
        done.contains(x) && has_arc(g, x, v) && tentative[x] + g[x][v] == tentative[v]
            ==> not_before(ties, plain_entry(tentative[x], x), plain_entry(tentative[u], u))
}

/// At the start no node has left the queue.
proof fn lemma_order_starts(
    plain: bool,
    ties: bool,
    g: Adjacency,
    source: u32,
    target: u32,
    tentative: Map<u32, u64>,
    parents: Map<u32, Option<u32>>,
    waiting: Multiset<Candidate>,
)
    requires
        tentative.contains_key(source),
        tentative[source] == 0,
        forall|v: u32| #[trigger]
            tentative.contains_key(v) && v != source ==> tentative[v] == UNREACHED,
        forall|v: u32| #[trigger] parents.contains_key(v) ==> parents[v] == None::<u32>,
        waiting == Multiset::<Candidate>::empty().insert(
            Candidate { priority: 0, node: source, cost: 0 },
        ),
    ensures
        order_kept(plain, ties, g, target, tentative, parents, waiting, Set::<u32>::empty(), None),
{
    reveal(order_kept);
    let start = Candidate { priority: 0, node: source, cost: 0 };
    assert(waiting.contains(start));
    assert forall|e: Candidate| #[trigger] waiting.contains(e) implies e.priority == e.cost by {
        assert(e == start);
    }
}

/// Taking a candidate that is out of date out of the queue keeps the
/// order.
proof fn lemma_order_stale(
    plain: bool,
    ties: bool,
    g: Adjacency,
    target: u32,
    tentative: Map<u32, u64>,
    parents: Map<u32, Option<u32>>,
    waiting: Multiset<Candidate>,
    done: Set<u32>,
    first: Candidate,
)
    requires
        order_kept(plain, ties, g, target, tentative, parents, waiting, done, None),
        waiting.contains(first),
        first.cost > tentative[first.node],
    ensures
        order_kept(plain, ties, g, target, tentative, parents, waiting.remove(first), done, None),
{
    reveal(order_kept);
    let rest = waiting.remove(first);
    if plain {
        assert forall|e: Candidate| #[trigger] rest.contains(e) implies e.priority == e.cost by {
            assert(waiting.contains(e));
        }
        assert forall|v: u32| #[trigger]
            tentative.contains_key(v) && tentative[v] < UNREACHED && !done.contains(
                v,
            ) implies queued(rest, v, tentative[v]) by {
            let e = choose|e: Candidate| #[trigger]
                waiting.contains(e) && e.node == v && e.cost == tentative[v];
            assert(e != first);
            assert(rest.contains(e));
        }
        assert forall|x: u32, e: Candidate|
            #![trigger done.contains(x), rest.contains(e)]
            done.contains(x) && rest.contains(e) implies not_before(ties, 
            e,
            plain_entry(tentative[x], x),
        ) by {
            assert(waiting.contains(e));
        }
    }
}

/// Taking out of the queue the candidate that nothing comes before, and
/// that is not out of date, makes its node the last of those that are
/// done.
proof fn lemma_order_taken(
    plain: bool,
    ties: bool,
    g: Adjacency,
    target: u32,
    tentative: Map<u32, u64>,
    parents: Map<u32, Option<u32>>,
    waiting: Multiset<Candidate>,
    done: Set<u32>,
    first: Candidate,
)
    requires
        order_kept(plain, ties, g, target, tentative, parents, waiting, done, None),
        waiting.contains(first),
        forall|other: Candidate| #[trigger] waiting.contains(other) ==> !comes_before(other, first),
        tentative.contains_key(first.node),
        first.cost == tentative[first.node],
        first.cost < UNREACHED,
        first.node != target,
    ensures
        order_kept(
            plain,
            ties,
            g,
            target,
            tentative,
            parents,
            waiting.remove(first),
            done.insert(first.node),
            Some(first.node),
        ),
{
    reveal(order_kept);
    let u = first.node;
    let rest = waiting.remove(first);
    let more = done.insert(u);
    if plain {
        assert(first.priority == first.cost);
        assert forall|e: Candidate| #[trigger] rest.contains(e) implies e.priority == e.cost by {
            assert(waiting.contains(e));
        }
        assert forall|v: u32| #[trigger]
            tentative.contains_key(v) && tentative[v] < UNREACHED && !more.contains(
                v,
            ) implies queued(rest, v, tentative[v]) by {
            assert(!done.contains(v));
            let e = choose|e: Candidate| #[trigger]
                waiting.contains(e) && e.node == v && e.cost == tentative[v];
            assert(e != first);
            assert(rest.contains(e));
        }
        assert forall|x: u32| #[trigger] more.contains(x) implies tentative.contains_key(x)
            && tentative[x] < UNREACHED && x != target && (Some(u) != Some(x) ==> relaxed(
            g,
            tentative,
            x,
        )) by {
            if x != u {
                assert(done.contains(x));
            }
        }
        assert forall|x: u32, e: Candidate|
            #![trigger more.contains(x), rest.contains(e)]
            more.contains(x) && rest.contains(e) implies not_before(ties, 
            e,
            plain_entry(tentative[x], x),
        ) by {
            assert(waiting.contains(e));
            if x != u {
                assert(done.contains(x));
            }
        }
        assert forall|x: u32| #[trigger] more.contains(x) implies not_before(ties, 
            plain_entry(tentative[u], u),
            plain_entry(tentative[x], x),
        ) by {
            if x != u {
                assert(done.contains(x) && waiting.contains(first));
            }
        }
        assert forall|v: u32| #[trigger] parents.contains_key(v) implies (parents[v] matches Some(
            p,
        ) ==> more.contains(p) && has_arc(g, p, v) && tentative[p] + g[p][v] == tentative[v]
            && first_done(ties, g, tentative, more, v, p)) by {
            if let Some(p) = parents[v] {
                assert(done.contains(p) && first_done(ties, g, tentative, done, v, p));
                assert forall|x: u32| #[trigger]
                    more.contains(x) && has_arc(g, x, v) && tentative[x] + g[x][v]
                        == tentative[v] implies not_before(ties, 
                    plain_entry(tentative[x], x),
                    plain_entry(tentative[p], p),
                ) by {
                    if x == u {
                        assert(done.contains(p) && waiting.contains(first));
                    } else {
                        assert(done.contains(x));
                    }
                }
            }
        }
    }
}

/// Lowering the tentative distance of a node through an arc from the node
/// that left the queue last keeps the order.
proof fn lemma_order_lowered(
    plain: bool,
    ties: bool,
    g: Adjacency,
    target: u32,
    tentative: Map<u32, u64>,
    parents: Map<u32, Option<u32>>,
    waiting: Multiset<Candidate>,
    done: Set<u32>,
    u: u32,
    e: Candidate,
)
    requires
        order_kept(plain, ties, g, target, tentative, parents, waiting, done, Some(u)),
        nonnegative(g),
        plain ==> e.priority == e.cost,
        ties ==> positive(g),
        tentative.dom() == g.dom(),
        parents.dom() == g.dom(),
        has_arc(g, u, e.node),
        tentative[u] < UNREACHED,
        e.cost == tentative[u] + g[u][e.node],
        e.cost < tentative[e.node],
    ensures
        order_kept(
            plain,
            ties,
            g,
            target,
            tentative.insert(e.node, e.cost),
            parents.insert(e.node, Some(u)),
            waiting.insert(e),
            done,
            Some(u),
        ),
{
    reveal(order_kept);
    let y = e.node;
    let lowered = tentative.insert(y, e.cost);
    let adopted = parents.insert(y, Some(u));
    let longer = waiting.insert(e);
    if plain {
        assert(g[u][y] >= 0);
        if ties {
            assert(g[u][y] > 0);
        }
        assert(done.contains(u));
        assert(!done.contains(y)) by {
            if done.contains(y) {
                assert(not_before(
                    ties,
                    plain_entry(tentative[u], u),
                    plain_entry(tentative[y], y),
                ));
            }
        }
        assert forall|w: Candidate| #[trigger] longer.contains(w) implies w.priority == w.cost by {
            if w != e {
                assert(waiting.contains(w));
            }
        }
        assert forall|v: u32| #[trigger]
            lowered.contains_key(v) && lowered[v] < UNREACHED && !done.contains(v) implies queued(
            longer,
            v,
            lowered[v],
        ) by {
            if v == y {
                assert(longer.contains(e));
            } else {
                assert(tentative.contains_key(v));
                let w = choose|w: Candidate| #[trigger]
                    waiting.contains(w) && w.node == v && w.cost == tentative[v];
                assert(longer.contains(w));
            }
        }
        assert forall|x: u32| #[trigger] done.contains(x) implies lowered.contains_key(x)
            && lowered[x] < UNREACHED && x != target && (Some(u) != Some(x) ==> relaxed(
            g,
            lowered,
            x,
        )) by {
            if x != u {
                assert(relaxed(g, tentative, x));
                assert forall|z: u32| #[trigger] has_arc(g, x, z) implies lowered[z] <= lowered[x]
                    + g[x][z] by {}
            }
        }
        assert forall|x: u32, w: Candidate|
            #![trigger done.contains(x), longer.contains(w)]
            done.contains(x) && longer.contains(w) implies not_before(ties, 
            w,
            plain_entry(lowered[x], x),
        ) by {
            if w == e {
                assert(not_before(
                    ties,
                    plain_entry(tentative[u], u),
                    plain_entry(tentative[x], x),
                ));
            } else {
                assert(waiting.contains(w));
            }
        }
        assert forall|x: u32| #[trigger] done.contains(x) implies not_before(ties, 
            plain_entry(lowered[u], u),
            plain_entry(lowered[x], x),
        ) by {}
        assert forall|v: u32| #[trigger] adopted.contains_key(v) implies (adopted[v] matches Some(
            p,
        ) ==> done.contains(p) && has_arc(g, p, v) && lowered[p] + g[p][v] == lowered[v]
            && first_done(ties, g, lowered, done, v, p)) by {
            if v == y {
                assert forall|x: u32| #[trigger]
                    done.contains(x) && has_arc(g, x, y) && lowered[x] + g[x][y]
                        == lowered[y] implies not_before(ties, 
                    plain_entry(lowered[x], x),
                    plain_entry(lowered[u], u),
                ) by {
                    if x != u {
                        assert(relaxed(g, tentative, x));
                    }
                }
            } else {
                assert(parents.contains_key(v));
                if let Some(p) = parents[v] {
                    assert(done.contains(p) && first_done(ties, g, tentative, done, v, p));
                    assert forall|x: u32| #[trigger]
                        done.contains(x) && has_arc(g, x, v) && lowered[x] + g[x][v]
                            == lowered[v] implies not_before(ties, 
                        plain_entry(lowered[x], x),
                        plain_entry(lowered[p], p),
                    ) by {}
                }
            }
        }
    }
}

/// Once every arc out of the node that left the queue last has been
/// tried, the order holds with no node under way.
proof fn lemma_order_expanded(
    plain: bool,
    ties: bool,
    g: Adjacency,
    target: u32,
    tentative: Map<u32, u64>,
    parents: Map<u32, Option<u32>>,
    waiting: Multiset<Candidate>,
    done: Set<u32>,
    u: u32,
)
    requires
        order_kept(plain, ties, g, target, tentative, parents, waiting, done, Some(u)),
        relaxed(g, tentative, u),
    ensures
        order_kept(plain, ties, g, target, tentative, parents, waiting, done, None),
{
    reveal(order_kept);
}

/// Follows a walk from its `n`-th node on, as long as the nodes it passes
/// are done, and returns the place where it stops: at a node that is not
/// done, or at the end of the walk. The tentative distance there is at
/// most the cost of the walk up to that place.
proof fn lemma_first_undone(
    ties: bool,
    g: Adjacency,
    target: u32,
    tentative: Map<u32, u64>,
    parents: Map<u32, Option<u32>>,
    waiting: Multiset<Candidate>,
    done: Set<u32>,
    walk: Seq<u32>,
    n: int,
) -> (at: int)
    requires
        nonnegative(g),
        tentative.dom() == g.dom(),
        order_kept(true, ties, g, target, tentative, parents, waiting, done, None),
        is_walk(g, walk),
        1 <= n <= walk.len(),
        tentative.contains_key(walk[n - 1]),
        tentative[walk[n - 1]] <= walk_cost(g, walk.take(n)),
    ensures
        n - 1 <= at < walk.len(),
        tentative.contains_key(walk[at]),
        tentative[walk[at]] <= walk_cost(g, walk.take(at + 1)),
        at == walk.len() - 1 || !done.contains(walk[at]),
    decreases walk.len() - n,
{
    reveal(order_kept);
    let v = walk[n - 1];
    if n == walk.len() || !done.contains(v) {
        n - 1
    } else {
        assert(relaxed(g, tentative, v));
        lemma_walk_prefix(g, walk, n);
        assert(has_arc(g, v, walk[n]));
        lemma_first_undone(ties, g, target, tentative, parents, waiting, done, walk, n + 1)
    }
}

/// No walk to a node that is done costs less than the tentative distance
/// of that node.
proof fn lemma_done_is_settled(
    ties: bool,
    g: Adjacency,
    source: u32,
    target: u32,
    tentative: Map<u32, u64>,
    parents: Map<u32, Option<u32>>,
    waiting: Multiset<Candidate>,
    done: Set<u32>,
    x: u32,
    walk: Seq<u32>,
)
    requires
        nonnegative(g),
        tentative.dom() == g.dom(),
        g.contains_key(source),
        tentative[source] == 0,
        order_kept(true, ties, g, target, tentative, parents, waiting, done, None),
        done.contains(x),
        connects(g, walk, source, x),
    ensures
        tentative[x] <= walk_cost(g, walk),
{
    assert(tentative[x] < UNREACHED) by {
        reveal(order_kept);
    }
    if walk_cost(g, walk) < UNREACHED {
        assert(walk.take(1) =~= seq![source]);
        let at = lemma_first_undone(ties, g, target, tentative, parents, waiting, done, walk, 1);
        lemma_prefix_costs_less(g, walk, at + 1);
        if at == walk.len() - 1 {
            assert(walk.take(walk.len() as int) =~= walk);
        } else {
            reveal(order_kept);
            let v = walk[at];
            let e = choose|e: Candidate| #[trigger]
                waiting.contains(e) && e.node == v && e.cost == tentative[v];
            assert(done.contains(x) && waiting.contains(e));
            assert(not_before(ties, e, plain_entry(tentative[x], x)));
        }
    }
}

/// A node to which a walk leads that costs less than the candidate that
/// nothing comes before is done.
proof fn lemma_cheap_is_done(
    ties: bool,
    g: Adjacency,
    source: u32,
    target: u32,
    tentative: Map<u32, u64>,
    parents: Map<u32, Option<u32>>,
    waiting: Multiset<Candidate>,
    done: Set<u32>,
    first: Candidate,
    x: u32,
    walk: Seq<u32>,
)
    requires
        nonnegative(g),
        tentative.dom() == g.dom(),
        g.contains_key(source),
        tentative[source] == 0,
        order_kept(true, ties, g, target, tentative, parents, waiting, done, None),
        waiting.contains(first),
        forall|other: Candidate| #[trigger] waiting.contains(other) ==> !comes_before(other, first),
        first.cost < UNREACHED,
        connects(g, walk, source, x),
        walk_cost(g, walk) < first.cost,
    ensures
        done.contains(x),
{
    assert(walk.take(1) =~= seq![source]);
    let at = lemma_first_undone(ties, g, target, tentative, parents, waiting, done, walk, 1);
    lemma_prefix_costs_less(g, walk, at + 1);
    let v = walk[at];
    if !done.contains(v) {
        reveal(order_kept);
        let e = choose|e: Candidate| #[trigger]
            waiting.contains(e) && e.node == v && e.cost == tentative[v];
        assert(first.priority == first.cost);
        assert(e.priority == e.cost);
        assert(comes_before(e, first));
    }
}

/// A node that is done lies at its tentative distance from the source,
/// which is no more than the cost of the candidate that nothing comes
/// before.
proof fn lemma_done_distance(
    ties: bool,
    g: Adjacency,
    source: u32,
    target: u32,
    tentative: Map<u32, u64>,
    parents: Map<u32, Option<u32>>,
    stamps: Map<u32, nat>,
    waiting: Multiset<Candidate>,
    done: Set<u32>,
    first: Candidate,
    x: u32,
)
    requires
        search_kept(g, source, target, true, tentative, parents, stamps, waiting, None),
        order_kept(true, ties, g, target, tentative, parents, waiting, done, None),
        waiting.contains(first),
        done.contains(x),
    ensures
        is_distance(g, source, x, tentative[x] as int),
        tentative[x] <= first.cost,
{
    lemma_kept_basics(g, source, target, true, tentative, parents, stamps, waiting, None);
    assert(tentative.contains_key(x) && tentative[x] < UNREACHED && not_before(ties, 
        first,
        plain_entry(tentative[x], x),
    ) && first.priority == first.cost) by {
        reveal(order_kept);
        assert(done.contains(x) && waiting.contains(first));
    }
    assert(is_walk_cost(g, source, x, tentative[x] as int)) by {
        reveal(search_kept);
        reveal(all_witnessed);
    }
    assert forall|walk: Seq<u32>| #[trigger] connects(g, walk, source, x) implies tentative[x]
        <= walk_cost(g, walk) by {
        lemma_done_is_settled(ties, g, source, target, tentative, parents, waiting, done, x, walk);
    }
}

/// The parent of a node at its distance from the source, which is no more
/// than the cost of the candidate that nothing comes before, is its first
/// predecessor.
proof fn lemma_parent_is_first(
    ties: bool,
    g: Adjacency,
    source: u32,
    target: u32,
    tentative: Map<u32, u64>,
    parents: Map<u32, Option<u32>>,
    stamps: Map<u32, nat>,
    waiting: Multiset<Candidate>,
    done: Set<u32>,
    first: Candidate,
    v: u32,
    u: u32,
)
    requires
        ties == positive(g),
        search_kept(g, source, target, true, tentative, parents, stamps, waiting, None),
        order_kept(true, ties, g, target, tentative, parents, waiting, done, None),
        waiting.contains(first),
        forall|other: Candidate| #[trigger] waiting.contains(other) ==> !comes_before(other, first),
        parents.contains_key(v),
        parents[v] == Some(u),
        tentative.contains_key(v),
        is_distance(g, source, v, tentative[v] as int),
        tentative[v] <= first.cost,
    ensures
        is_first_predecessor(g, source, v, u),
{
    lemma_kept_basics(g, source, target, true, tentative, parents, stamps, waiting, None);
    assert(done.contains(u) && has_arc(g, u, v) && tentative[u] + g[u][v] == tentative[v]
        && first_done(ties, g, tentative, done, v, u)) by {
        reveal(order_kept);
    }
    lemma_done_distance(
        ties,
        g,
        source,
        target,
        tentative,
        parents,
        stamps,
        waiting,
        done,
        first,
        u,
    );
    let d = tentative[u] as int;
    assert forall|other: u32, e: int|
        has_arc(g, other, v) && #[trigger] is_distance(g, source, other, e) && is_distance(
            g,
            source,
            v,
            e + g[other][v],
        ) implies d < e || (d == e && (positive(g) ==> u <= other)) by {
        lemma_distance_is_unique(g, source, v, e + g[other][v], tentative[v] as int);
        assert(g[other][v] >= 0 && g[u][v] >= 0);
        if ties {
            assert(g[other][v] > 0);
        }
        let walk = choose|walk: Seq<u32>| #[trigger]
            connects(g, walk, source, other) && walk_cost(g, walk) == e;
        if e < first.cost {
            lemma_parent_is_nearest(
                ties,
                g,
                source,
                target,
                tentative,
                parents,
                stamps,
                waiting,
                done,
                first,
                v,
                u,
                other,
                walk,
            );
        }
    }
    assert(is_distance(g, source, u, d) && is_distance(g, source, v, d + g[u][v]) && none_earlier(
        g,
        source,
        v,
        u,
        d,
    ));
}

/// Of a parent and another predecessor that lies nearer to the source than
/// the candidate that nothing comes before costs, and that gives the node
/// its tentative distance too, the parent left the queue no later.
proof fn lemma_parent_is_nearest(
    ties: bool,
    g: Adjacency,
    source: u32,
    target: u32,
    tentative: Map<u32, u64>,
    parents: Map<u32, Option<u32>>,
    stamps: Map<u32, nat>,
    waiting: Multiset<Candidate>,
    done: Set<u32>,
    first: Candidate,
    v: u32,
    u: u32,
    other: u32,
    walk: Seq<u32>,
)
    requires
        search_kept(g, source, target, true, tentative, parents, stamps, waiting, None),
        order_kept(true, ties, g, target, tentative, parents, waiting, done, None),
        waiting.contains(first),
        forall|other: Candidate| #[trigger] waiting.contains(other) ==> !comes_before(other, first),
        parents.contains_key(v),
        parents[v] == Some(u),
        has_arc(g, other, v),
        connects(g, walk, source, other),
        is_distance(g, source, other, walk_cost(g, walk)),
        walk_cost(g, walk) < first.cost,
        walk_cost(g, walk) + g[other][v] == tentative[v],
    ensures
        not_before(ties, plain_entry(tentative[other], other), plain_entry(tentative[u], u)),
        tentative[other] == walk_cost(g, walk),
{
    lemma_kept_basics(g, source, target, true, tentative, parents, stamps, waiting, None);
    let e = walk_cost(g, walk);
    assert(first_done(ties, g, tentative, done, v, u)) by {
        reveal(order_kept);
    }
    lemma_cheap_is_done(
        ties,
        g,
        source,
        target,
        tentative,
        parents,
        waiting,
        done,
        first,
        other,
        walk,
    );
    lemma_done_distance(
        ties,
        g,
        source,
        target,
        tentative,
        parents,
        stamps,
        waiting,
        done,
        first,
        other,
    );
    lemma_distance_is_unique(g, source, other, e, tentative[other] as int);
    assert(not_before(
        ties,
        plain_entry(tentative[other], other),
        plain_entry(tentative[u], u),
    ));
}

/// When the target leaves the queue of a search by cost alone, in a graph
/// whose weights are all above zero, every node on the route that the
/// parents describe is preceded by its first predecessor.
proof fn lemma_order_found(
    ties: bool,
    g: Adjacency,
    source: u32,
    target: u32,
    tentative: Map<u32, u64>,
    parents: Map<u32, Option<u32>>,
    stamps: Map<u32, nat>,
    waiting: Multiset<Candidate>,
    done: Set<u32>,
    first: Candidate,
)
    requires
        ties == positive(g),
        search_kept(g, source, target, true, tentative, parents, stamps, waiting, None),
        order_kept(true, ties, g, target, tentative, parents, waiting, done, None),
        waiting.contains(first),
        first.node == target,
        forall|other: Candidate| #[trigger] waiting.contains(other) ==> !comes_before(other, first),
    ensures
        takes_first_predecessors(g, parents, source, target),
{
    lemma_kept_basics(g, source, target, true, tentative, parents, stamps, waiting, None);
    lemma_search_found(g, source, target, true, tentative, parents, stamps, waiting, first);
    assert forall|route: Seq<u32>, i: int|
        #![trigger follows_parents(parents, route, source, target), route[i]]
        follows_parents(parents, route, source, target) && 1 <= i < route.len()
            implies is_first_predecessor(g, source, route[i], route[i - 1]) by {
        let v = route[i];
        assert(parents.contains_key(v) && parents[v] == Some(route[i - 1]));
        if i < route.len() - 1 {
            let next = route[i + 1];
            assert(parents.contains_key(next) && parents[next] == Some(v));
            assert(done.contains(v)) by {
                reveal(order_kept);
            }
            lemma_done_distance(
                ties,
                g,
                source,
                target,
                tentative,
                parents,
                stamps,
                waiting,
                done,
                first,
                v,
            );
        }
        lemma_parent_is_first(
            ties,
            g,
            source,
            target,
            tentative,
            parents,
            stamps,
            waiting,
            done,
            first,
            v,
            route[i - 1],
        );
    }
}

/// A heuristic that estimates nothing is admissible in a graph without
/// negative weights.
proof fn lemma_nothing_is_admissible<F: Fn(u32, u32) -> u32>(
    heuristic: F,
    g: Adjacency,
    target: u32,
)
    requires
        nonnegative(g),
        estimates_nothing(heuristic, target),
    ensures
        admissible(heuristic, g, target),
{
    assert forall|node: u32, estimate: u32, walk: Seq<u32>|
        #![trigger
            call_ensures(heuristic, (node, target), estimate),
            connects(g, walk, node, target),
        ]
        node != target && call_ensures(heuristic, (node, target), estimate) && connects(
            g,
            walk,
            node,
            target,
        ) implies estimate <= walk_cost(g, walk) by {
        lemma_cost_not_negative(g, walk);
    }
}

impl Graph {
    /// Tries every arc that leaves `node`, which was reached at cost
    /// `reached`: where the arc gives a neighbour a lower tentative
    /// distance, the neighbour takes it, takes `node` as parent and enters
    /// the queue.
    fn expand<F: Fn(u32, u32) -> u32>(
        &self,
        node: u32,
        reached: u64,
        target: u32,
        heuristic: &F,
        dist: &mut HashMap<u32, u64>,
        parents: &mut HashMap<u32, Option<u32>>,
        queue: &mut MinQueue,
        Ghost(source): Ghost<u32>,
        Ghost(order): Ghost<Seq<u32>>,
        Ghost(stamps): Ghost<Map<u32, nat>>,
        Ghost(clock): Ghost<nat>,
        Ghost(done): Ghost<Set<u32>>,
    ) -> (after: Ghost<(Map<u32, nat>, nat)>)
        requires
            order_kept(
                estimates_nothing(*heuristic, target),
                positive(self@),
                self@,
                target,
                old(dist)@,
                old(parents)@,
                old(queue)@,
                done,
                Some(node),
            ),
            search_kept(
                self@,
                source,
                target,
                admissible(*heuristic, self@, target),
                old(dist)@,
                old(parents)@,
                stamps,
                old(queue)@,
                Some(node),
            ),
            old(queue).well_formed(),
            node != target,
            old(dist)@.contains_key(node),
            old(dist)@[node] == reached,
            reached < UNREACHED,
            forall|a: u32| #[trigger]
                self@.contains_key(a) ==> call_requires(*heuristic, (a, target)),
            order.no_duplicates(),
            order.to_set() == self@.dom(),
            forall|v: u32| #[trigger] stamp(stamps, v) < clock,
        ensures
            search_kept(
                self@,
                source,
                target,
                admissible(*heuristic, self@, target),
                final(dist)@,
                final(parents)@,
                after@.0,
                final(queue)@,
                None,
            ),
            order_kept(
                estimates_nothing(*heuristic, target),
                positive(self@),
                self@,
                target,
                final(dist)@,
                final(parents)@,
                final(queue)@,
                done,
                None,
            ),
            final(queue).well_formed(),
            forall|v: u32| #[trigger] stamp(after@.0, v) < after@.1,
            potential(final(dist)@, order) < potential(old(dist)@, order) || (potential(
                final(dist)@,
                order,
            ) == potential(old(dist)@, order) && final(queue)@ == old(queue)@),
    {
        let ghost g = self@;
        let ghost trusted = admissible(*heuristic, g, target);
        let ghost plain = estimates_nothing(*heuristic, target);
        let ghost ties = positive(g);
        let ghost mut stamps = stamps;
        let ghost mut clock = clock;
        let ghost before = potential(dist@, order);
        let ghost rest = queue@;
        let arcs = self.arcs_from(node);
        proof {
            lemma_kept_basics(
                g,
                source,
                target,
                trusted,
                dist@,
                parents@,
                stamps,
                queue@,
                Some(node),
            );
        }
        let mut j: usize = 0;
        while j < arcs.len()
            invariant
                g == self@,
                trusted == admissible(*heuristic, g, target),
                forall|a: u32| #[trigger]
                self@.contains_key(a) ==> call_requires(*heuristic, (a, target)),
                order.no_duplicates(),
                order.to_set() == g.dom(),
                forall|v: u32| #[trigger] stamp(stamps, v) < clock,
                search_kept(
                    g,
                    source,
                    target,
                    trusted,
                    dist@,
                    parents@,
                    stamps,
                    queue@,
                    Some(node),
                ),
                queue.well_formed(),
                plain == estimates_nothing(*heuristic, target),
                ties == positive(g),
                order_kept(plain, ties, g, target, dist@, parents@, queue@, done, Some(node)),
                parents@.dom() == g.dom(),
                node != target,
                nonnegative(g),
                dist@.dom() == g.dom(),
                g.contains_key(node),
                dist@[node] == reached,
                reached < UNREACHED,
                j <= arcs.len(),
                forall|k: int|
                    0 <= k < arcs.len() ==> has_arc(g, node, (#[trigger] arcs[k]).0)
                        && g[node][arcs[k].0] == arcs[k].1,
                forall|k: int| 0 <= k < j ==> dist@[(#[trigger] arcs[k]).0] <= reached + arcs[k].1,
                potential(dist@, order) < before || (potential(dist@, order) == before && queue@
                    == rest),
            decreases arcs.len() - j,
        {
            let (x, weight) = arcs[j];
            assert(has_arc(g, node, arcs[j as int].0));
            let step = weight as u64;
            let known = *dist.get(&x).unwrap();
            if step < known && reached < known - step {
                let cost = reached + step;
                let estimate = heuristic(x, target);
                let priority = if estimate as u64 > u64::MAX - cost {
                    u64::MAX
                } else {
                    cost + estimate as u64
                };
                let e = Candidate { priority, node: x, cost };
                proof {
                    if trusted && x != target {
                        assert forall|walk: Seq<u32>| #[trigger]
                            connects(g, walk, x, target) implies e.priority <= e.cost + walk_cost(
                            g,
                            walk,
                        ) by {
                            assert(call_ensures(*heuristic, (x, target), estimate));
                        }
                    }
                    if plain {
                        assert(call_ensures(*heuristic, (x, target), estimate));
                        assert(estimate == 0);
                    }
                    lemma_order_lowered(
                        plain,
                        ties,
                        g,
                        target,
                        dist@,
                        parents@,
                        queue@,
                        done,
                        node,
                        e,
                    );
                    lemma_lowered(
                        g,
                        source,
                        target,
                        trusted,
                        dist@,
                        parents@,
                        stamps,
                        clock,
                        queue@,
                        node,
                        e,
                    );
                    assert(order.to_set().contains(x));
                    lemma_potential_drops(dist@, order, x, cost);
                    let ghost earlier = stamps;
                    stamps = stamps.insert(x, clock);
                    clock = clock + 1;
                    assert forall|v: u32| #[trigger] stamp(stamps, v) < clock by {
                        assert(stamp(earlier, v) < clock);
                    }
                }
                dist.insert(x, cost);
                parents.insert(x, Some(node));
                queue.push(e);
                proof {
                    assert(dist@.dom() =~= g.dom());
                    assert(parents@.dom() =~= g.dom());
                }
            }
            j += 1;
        }
        proof {
            assert(relaxed(g, dist@, node)) by {
                assert forall|x: u32| #[trigger] has_arc(g, node, x) implies dist@[x] <= dist@[node]
                    + g[node][x] by {
                    let k = choose|k: int| 0 <= k < arcs.len() && arcs@[k] == (x, g[node][x]);
                    assert(dist@[arcs[k].0] <= reached + arcs[k].1);
                }
            }
            lemma_order_expanded(plain, ties, g, target, dist@, parents@, queue@, done, node);
            lemma_expanded(g, source, target, trusted, dist@, parents@, stamps, queue@, node);
        }
        Ghost((stamps, clock))
    }

    /// Searches for a cheapest walk from `source` to `target`, expanding
    /// first the node whose cost plus estimate is lowest. Returns the cost
    /// at which the target was reached, if it was, and the parent of every
    /// node.
    pub(crate) fn best_first_search<F: Fn(u32, u32) -> u32>(
        &self,
        source: u32,
        target: u32,
        heuristic: F,
    ) -> (found: (Option<u64>, HashMap<u32, Option<u32>>))
        requires
            nonnegative(self@),
            source != target,
            forall|a: u32| #[trigger]
                self@.contains_key(a) ==> call_requires(heuristic, (a, target)),
        ensures
            found.1@.dom() == self@.dom(),
            is_answer(
                self@,
                source,
                target,
                admissible(heuristic, self@, target),
                found.0,
                found.1@,
            ),
            found.0 is Some && estimates_nothing(heuristic, target) ==> takes_first_predecessors(
                self@,
                found.1@,
                source,
                target,
            ),
    {
        let ghost g = self@;
        let ghost trusted = admissible(heuristic, g, target);
        let ghost plain = estimates_nothing(heuristic, target);
        let ghost ties = positive(g);
        let order = self.node_list();
        let (mut dist, mut parents) = blank_tables(&order);
        proof {
            assert(dist@.dom() =~= g.dom());
            assert(g.dom() =~= self.nodes@.dom());
        }
        if !dist.contains_key(&source) || !dist.contains_key(&target) {
            proof {
                lemma_unknown_end_unreachable(g, source, target);
            }
            return (None, parents);
        }
        dist.insert(source, 0);
        let mut queue = MinQueue::new();
        let start = Candidate { priority: 0, node: source, cost: 0 };
        queue.push(start);
        let ghost mut stamps: Map<u32, nat> = Map::empty();
        let ghost mut clock: nat = 1;
        let ghost mut done: Set<u32> = Set::empty();
        proof {
            assert(dist@.dom() =~= g.dom());
            assert(queue@ =~= Multiset::<Candidate>::empty().insert(start));
            lemma_search_starts(g, source, target, trusted, dist@, parents@, queue@);
            lemma_order_starts(plain, ties, g, source, target, dist@, parents@, queue@);
            if plain {
                lemma_nothing_is_admissible(heuristic, g, target);
            }
        }
        loop
            invariant
                g == self@,
                g.dom().finite(),
                trusted == admissible(heuristic, g, target),
                forall|a: u32| #[trigger]
                self@.contains_key(a) ==> call_requires(heuristic, (a, target)),
                order@.no_duplicates(),
                order@.to_set() == g.dom(),
                forall|v: u32| #[trigger] stamp(stamps, v) < clock,
                search_kept(g, source, target, trusted, dist@, parents@, stamps, queue@, None),
                plain == estimates_nothing(heuristic, target),
                ties == positive(g),
                plain ==> trusted,
                order_kept(plain, ties, g, target, dist@, parents@, queue@, done, None),
                queue.well_formed(),
            decreases potential(dist@, order@), queue@.len(),
        {
            let ghost waiting = queue@;
            proof {
                lemma_kept_basics(
                    g,
                    source,
                    target,
                    trusted,
                    dist@,
                    parents@,
                    stamps,
                    waiting,
                    None,
                );
            }
            let first = match queue.pop() {
                None => {
                    proof {
                        lemma_search_exhausted(
                            g,
                            source,
                            target,
                            trusted,
                            dist@,
                            parents@,
                            stamps,
                            waiting,
                        );
                    }
                    return (None, parents);
                },
                Some(first) => first,
            };
            if first.node == target {
                let cost = *dist.get(&target).unwrap();
                proof {
                    lemma_search_found(
                        g,
                        source,
                        target,
                        trusted,
                        dist@,
                        parents@,
                        stamps,
                        waiting,
                        first,
                    );
                    if plain {
                        lemma_order_found(
                            ties,
                            g,
                            source,
                            target,
                            dist@,
                            parents@,
                            stamps,
                            waiting,
                            done,
                            first,
                        );
                    }
                }
                return (Some(cost), parents);
            }
            let reached = *dist.get(&first.node).unwrap();
            if first.cost > reached {
                proof {
                    lemma_order_stale(
                        plain,
                        ties,
                        g,
                        target,
                        dist@,
                        parents@,
                        waiting,
                        done,
                        first,
                    );
                    lemma_taken_out(
                        g,
                        source,
                        target,
                        trusted,
                        dist@,
                        parents@,
                        stamps,
                        waiting,
                        first,
                        None,
                    );
                }
                continue ;
            }
            proof {
                lemma_order_taken(plain, ties, g, target, dist@, parents@, waiting, done, first);
                done = done.insert(first.node);
                lemma_taken_out(
                    g,
                    source,
                    target,
                    trusted,
                    dist@,
                    parents@,
                    stamps,
                    waiting,
                    first,
                    Some(first.node),
                );
                assert(queue@.len() == waiting.len() - 1);
            }
            let after = self.expand(
                first.node,
                reached,
                target,
                &heuristic,
                &mut dist,
                &mut parents,
                &mut queue,
                Ghost(source),
                Ghost(order@),
                Ghost(stamps),
                Ghost(clock),
                Ghost(done),
            );
            proof {
                stamps = after@.0;
                clock = after@.1;
            }
        }
    }
}

/// Gives every node of `order` the tentative distance `UNREACHED` and no
/// parent.
pub(crate) fn blank_tables(order: &Vec<u32>) -> (fresh: (
    HashMap<u32, u64>,
    HashMap<u32, Option<u32>>,
))
    ensures
        fresh.0@.dom() == order@.to_set(),
        fresh.1@.dom() == order@.to_set(),
        forall|v: u32| #[trigger] fresh.0@.contains_key(v) ==> fresh.0@[v] == UNREACHED,
        forall|v: u32| #[trigger] fresh.1@.contains_key(v) ==> fresh.1@[v] == None::<u32>,
{
    let mut dist: HashMap<u32, u64> = HashMap::new();
    let mut parents: HashMap<u32, Option<u32>> = HashMap::new();
    let mut i: usize = 0;
    while i < order.len()
        invariant
            i <= order.len(),
            dist@.dom() == order@.take(i as int).to_set(),
            parents@.dom() == order@.take(i as int).to_set(),
            forall|v: u32| #[trigger] dist@.contains_key(v) ==> dist@[v] == UNREACHED,
            forall|v: u32| #[trigger] parents@.contains_key(v) ==> parents@[v] == None::<u32>,
        decreases order.len() - i,
    {
        let node = order[i];
        dist.insert(node, UNREACHED);
        parents.insert(node, None);
        proof {
            assert(order@.take(i + 1) =~= order@.take(i as int).push(node));
            order@.take(i as int).lemma_push_to_set_commute(node);
            assert(dist@.dom() =~= order@.take(i + 1).to_set());
            assert(parents@.dom() =~= order@.take(i + 1).to_set());
        }
        i += 1;
    }
    proof {
        assert(order@.take(i as int) =~= order@);
    }
    (dist, parents)
}

} // verus!
