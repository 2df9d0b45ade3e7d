//! The Bellman-Ford algorithm: cheapest walks in a graph whose weights
//! may be negative, and the test that tells whether the distances it
//! found can still be lowered.

use std::collections::HashMap;
use vstd::prelude::*;

use crate::graph::Graph;
use crate::walks::connects;
use crate::walks::is_walk;
use crate::walks::reachable;
use crate::walks::has_arc;
use crate::walks::lemma_cost_bounds;
use crate::walks::lemma_extend_walk;
use crate::walks::lemma_node_count;
use crate::walks::lemma_single_node_walk;
use crate::walks::lemma_walk_nodes_known;
use crate::walks::lemma_walk_prefix;
use crate::walks::walk_cost;
use crate::walks::Adjacency;

verus! {

/// The distance of a node to which no walk was found.
pub const INFINITE: i64 = i64::MAX;

/// Some walk of at most `limit` arcs leads from `from` to `to`.
pub open spec fn within_reach(g: Adjacency, from: u32, to: u32, limit: int) -> bool {
    exists|walk: Seq<u32>| #[trigger] connects(g, walk, from, to) && walk.len() <= limit + 1
}

/// Some walk of at most `limit` arcs leads from `from` to `to` and costs
/// `cost`.
pub open spec fn is_short_walk_cost(
    g: Adjacency,
    from: u32,
    to: u32,
    limit: int,
    cost: int,
) -> bool {
    exists|walk: Seq<u32>| #[trigger]
        connects(g, walk, from, to) && walk.len() <= limit + 1 && walk_cost(g, walk) == cost
}

/// `d` is the cost of a cheapest among the walks of at most `limit` arcs
/// from `from` to `to`.
pub open spec fn is_bounded_distance(g: Adjacency, from: u32, to: u32, limit: int, d: int) -> bool {
    &&& is_short_walk_cost(g, from, to, limit, d)
    &&& forall|walk: Seq<u32>| #[trigger]
        connects(g, walk, from, to) && walk.len() <= limit + 1 ==> d <= walk_cost(g, walk)
}

/// `distances` gives every node of the graph the cost of a cheapest among
/// the walks of at most `limit` arcs that lead to it from `source`, and
/// `INFINITE` where there is no such walk.
pub open spec fn are_bounded_distances(
    g: Adjacency,
    source: u32,
    limit: int,
    distances: Map<u32, i64>,
) -> bool {
    &&& distances.dom() == g.dom()
    &&& forall|v: u32| #[trigger]
        g.contains_key(v) ==> if within_reach(g, source, v, limit) {
            distances[v] != INFINITE && is_bounded_distance(
                g,
                source,
                v,
                limit,
                distances[v] as int,
            )
        } else {
            distances[v] == INFINITE
        }
}

/// The distance that `distances` gives to `node`: `INFINITE` where it has
/// no entry for it.
pub open spec fn distance_of(distances: Map<u32, i64>, node: u32) -> i64 {
    if distances.contains_key(node) {
        distances[node]
    } else {
        INFINITE
    }
}

/// The arc from `from` to `to` gives `to` a lower distance than it has.
pub open spec fn can_lower(g: Adjacency, distances: Map<u32, i64>, from: u32, to: u32) -> bool {
    &&& has_arc(g, from, to)
    &&& distance_of(distances, from) != INFINITE
    &&& distance_of(distances, from) + g[from][to] < distance_of(distances, to)
}

/// Some arc of the graph gives the node it leads to a lower distance than
/// it has.
pub open spec fn can_lower_any(g: Adjacency, distances: Map<u32, i64>) -> bool {
    exists|from: u32, to: u32| #[trigger] can_lower(g, distances, from, to)
}

/// The number of rounds after which `bellman_ford` stops: one less than
/// the graph has nodes.
pub open spec fn rounds(g: Adjacency) -> int {
    if g.dom().len() == 0 {
        0
    } else {
        g.dom().len() - 1
    }
}

/// Some walk of negative cost leads from a node that can be reached from
/// `source` back to that node.
pub open spec fn negative_cycle_in_reach(g: Adjacency, source: u32) -> bool {
    exists|cycle: Seq<u32>| #[trigger]
        is_walk(g, cycle) && cycle.len() >= 2 && cycle[0] == cycle.last() && walk_cost(g, cycle)
            < 0 && reachable(g, source, cycle[0])
}

/// The state of one round of lowering: the distances of the round before
/// are in `before`, those that the round has found so far in `after`. None
/// of these is higher than before, each is the cost of a walk that the
/// round allows, and the arcs out of the nodes in `done` cannot lower any.
#[verifier::opaque]
spec fn round_kept(
    g: Adjacency,
    source: u32,
    round: int,
    before: Map<u32, i64>,
    after: Map<u32, i64>,
    done: Seq<u32>,
) -> bool {
    &&& 0 <= round
    &&& are_bounded_distances(g, source, round, before)
    &&& after.dom() == g.dom()
    &&& forall|v: u32| #[trigger] g.contains_key(v) ==> after[v] <= before[v]
    &&& forall|v: u32| #[trigger]
        g.contains_key(v) && after[v] != INFINITE ==> is_short_walk_cost(
            g,
            source,
            v,
            round + 1,
            after[v] as int,
        )
    &&& forall|u: u32, x: u32|
        done.contains(u) && #[trigger] has_arc(g, u, x) && before[u] != INFINITE ==> after[x]
            <= before[u] + g[u][x]
}

/// A walk of at most `limit` arcs costs at most `limit` times the largest
/// and at least `limit` times the smallest weight.
proof fn lemma_short_walk_bounds(g: Adjacency, walk: Seq<u32>, limit: int)
    requires
        is_walk(g, walk),
        walk.len() <= limit + 1,
    ensures
        limit * i32::MIN <= walk_cost(g, walk) <= limit * i32::MAX,
{
    lemma_cost_bounds(g, walk);
    let arcs = walk.len() - 1;
    assert(limit * i32::MIN <= arcs * i32::MIN && arcs * i32::MAX <= limit * i32::MAX)
        by (nonlinear_arith)
        requires
            0 <= arcs <= limit,
            i32::MIN < 0 < i32::MAX,
    ;
}

/// The distances before the first round: only the source has been
/// reached, at no cost.
proof fn lemma_first_distances(g: Adjacency, source: u32, distances: Map<u32, i64>)
    requires
        distances.dom() == g.dom(),
        forall|v: u32| #[trigger]
            distances.contains_key(v) ==> distances[v] == if v == source {
                0
            } else {
                INFINITE
            },
    ensures
        are_bounded_distances(g, source, 0, distances),
{
    lemma_single_node_walk(g, source);
    assert forall|v: u32| #[trigger] g.contains_key(v) implies if within_reach(g, source, v, 0) {
        distances[v] != INFINITE && is_bounded_distance(g, source, v, 0, distances[v] as int)
    } else {
        distances[v] == INFINITE
    } by {
        assert(distances.contains_key(v));
        if v == source {
            assert(connects(g, seq![source], source, v) && seq![source].len() <= 1 && walk_cost(
                g,
                seq![source],
            ) == 0);
            assert forall|walk: Seq<u32>| #[trigger]
                connects(g, walk, source, v) && walk.len() <= 1 implies 0 <= walk_cost(
                g,
                walk,
            ) by {}
        } else {
            assert forall|walk: Seq<u32>|
                !(#[trigger] connects(g, walk, source, v) && walk.len() <= 1) by {}
        }
    }
}

/// A round starts from the distances of the round before, with no node
/// done.
proof fn lemma_round_starts(g: Adjacency, source: u32, round: int, before: Map<u32, i64>)
    requires
        0 <= round,
        are_bounded_distances(g, source, round, before),
    ensures
        round_kept(g, source, round, before, before, Seq::<u32>::empty()),
{
    reveal(round_kept);
    assert forall|v: u32| #[trigger]
        g.contains_key(v) && before[v] != INFINITE implies is_short_walk_cost(
        g,
        source,
        v,
        round + 1,
        before[v] as int,
    ) by {
        if !within_reach(g, source, v, round) {
            assert(before[v] == INFINITE);
        }
        let walk = choose|walk: Seq<u32>| #[trigger]
            connects(g, walk, source, v) && walk.len() <= round + 1 && walk_cost(g, walk)
                == before[v];
        assert(connects(g, walk, source, v) && walk.len() <= round + 2);
    }
}

/// What a round that is under way says of a node that was reached in the
/// round before: its distance then is within the bounds of a walk of that
/// many arcs.
proof fn lemma_round_bounds(
    g: Adjacency,
    source: u32,
    round: int,
    before: Map<u32, i64>,
    after: Map<u32, i64>,
    done: Seq<u32>,
    u: u32,
)
    requires
        round_kept(g, source, round, before, after, done),
        g.contains_key(u),
    ensures
        0 <= round,
        before.dom() == g.dom(),
        after.dom() == g.dom(),
        before[u] != INFINITE ==> round * i32::MIN <= before[u] <= round * i32::MAX,
{
    reveal(round_kept);
    if before[u] != INFINITE {
        if !within_reach(g, source, u, round) {
            assert(before[u] == INFINITE);
        }
        let walk = choose|walk: Seq<u32>| #[trigger]
            connects(g, walk, source, u) && walk.len() <= round + 1 && walk_cost(g, walk)
                == before[u];
        lemma_short_walk_bounds(g, walk, round);
    }
}

/// Lowering the distance of `x` to what the arc from `u` gives keeps the
/// state of the round.
proof fn lemma_round_lowered(
    g: Adjacency,
    source: u32,
    round: int,
    before: Map<u32, i64>,
    after: Map<u32, i64>,
    done: Seq<u32>,
    u: u32,
    x: u32,
    cost: i64,
)
    requires
        round_kept(g, source, round, before, after, done),
        has_arc(g, u, x),
        before[u] != INFINITE,
        cost == before[u] + g[u][x],
        cost < after[x],
    ensures
        round_kept(g, source, round, before, after.insert(x, cost), done),
{
    reveal(round_kept);
    let lowered = after.insert(x, cost);
    assert(lowered.dom() =~= g.dom());
    assert forall|v: u32| #[trigger]
        g.contains_key(v) && lowered[v] != INFINITE implies is_short_walk_cost(
        g,
        source,
        v,
        round + 1,
        lowered[v] as int,
    ) by {
        if v == x {
            assert(g.contains_key(u));
            if !within_reach(g, source, u, round) {
                assert(before[u] == INFINITE);
            }
            let walk = choose|walk: Seq<u32>| #[trigger]
                connects(g, walk, source, u) && walk.len() <= round + 1 && walk_cost(g, walk)
                    == before[u];
            lemma_extend_walk(g, walk, x);
            assert(connects(g, walk.push(x), source, x) && walk.push(x).len() <= round + 2);
        }
    }
}

/// Once every arc out of `u` has been tried, `u` is done.
proof fn lemma_round_node_done(
    g: Adjacency,
    source: u32,
    round: int,
    before: Map<u32, i64>,
    after: Map<u32, i64>,
    done: Seq<u32>,
    u: u32,
)
    requires
        round_kept(g, source, round, before, after, done),
        before[u] != INFINITE ==> forall|x: u32| #[trigger]
            has_arc(g, u, x) ==> after[x] <= before[u] + g[u][x],
    ensures
        round_kept(g, source, round, before, after, done.push(u)),
{
    reveal(round_kept);
    let longer = done.push(u);
    assert forall|v: u32, x: u32|
        longer.contains(v) && #[trigger] has_arc(g, v, x) && before[v]
            != INFINITE implies after[x] <= before[v] + g[v][x] by {
        let i = choose|i: int| 0 <= i < longer.len() && longer[i] == v;
        if i < done.len() {
            assert(done[i] == v);
            assert(done.contains(v));
        }
    }
}

/// When every node is done, the round has found the cheapest walks of one
/// more arc.
proof fn lemma_round_ends(
    g: Adjacency,
    source: u32,
    round: int,
    before: Map<u32, i64>,
    after: Map<u32, i64>,
    done: Seq<u32>,
)
    requires
        round_kept(g, source, round, before, after, done),
        done.to_set() == g.dom(),
        round + 1 <= 0xffff_ffff,
    ensures
        are_bounded_distances(g, source, round + 1, after),
{
    reveal(round_kept);
    assert forall|v: u32| #[trigger] g.contains_key(v) implies if within_reach(
        g,
        source,
        v,
        round + 1,
    ) {
        after[v] != INFINITE && is_bounded_distance(g, source, v, round + 1, after[v] as int)
    } else {
        after[v] == INFINITE
    } by {
        if within_reach(g, source, v, round + 1) {
            assert forall|walk: Seq<u32>| #[trigger]
                connects(g, walk, source, v) && walk.len() <= round + 2 implies after[v]
                <= walk_cost(g, walk) by {
                if walk.len() <= round + 1 {
                    assert(within_reach(g, source, v, round));
                } else {
                    let head = walk.drop_last();
                    let u = head.last();
                    lemma_walk_prefix(g, walk, walk.len() - 1);
                    assert(walk.take(walk.len() - 1) =~= head);
                    assert(walk.take(walk.len() as int) =~= walk);
                    lemma_walk_nodes_known(g, walk, walk.len() - 2);
                    assert(connects(g, head, source, u) && head.len() <= round + 1);
                    assert(within_reach(g, source, u, round));
                    assert(g.contains_key(u));
                    assert(has_arc(g, u, v));
                    assert(done.to_set().contains(u));
                    assert(done.contains(u));
                }
            }
            let any = choose|walk: Seq<u32>| #[trigger]
                connects(g, walk, source, v) && walk.len() <= round + 2;
            lemma_short_walk_bounds(g, any, round + 1);
            assert((round + 1) * i32::MAX < INFINITE) by (nonlinear_arith)
                requires
                    0 <= round + 1 <= 0xffff_ffff,
                    i32::MAX == 0x7fff_ffff,
                    INFINITE == 0x7fff_ffff_ffff_ffff,
            ;
        } else {
            if after[v] != INFINITE {
                let walk = choose|walk: Seq<u32>| #[trigger]
                    connects(g, walk, source, v) && walk.len() <= round + 2 && walk_cost(g, walk)
                        == after[v];
                assert(connects(g, walk, source, v) && walk.len() <= round + 2);
            }
        }
    }
}

impl Graph {
    /// Tries every arc out of `node`, whose distance in the round before
    /// was `reached`: where the arc gives a neighbour a lower distance than
    /// the round has found so far, the neighbour takes it.
    fn lower_neighbours(
        &self,
        node: u32,
        reached: i64,
        after: &mut HashMap<u32, i64>,
        Ghost(source): Ghost<u32>,
        Ghost(round): Ghost<int>,
        Ghost(before): Ghost<Map<u32, i64>>,
        Ghost(done): Ghost<Seq<u32>>,
    )
        requires
            round_kept(self@, source, round, before, old(after)@, done),
            round + 1 <= 0xffff_ffff,
            self@.contains_key(node),
            before[node] == reached,
            reached != INFINITE,
        ensures
            round_kept(self@, source, round, before, final(after)@, done.push(node)),
    {
        let ghost g = self@;
        let arcs = self.arcs_from(node);
        proof {
            lemma_round_bounds(g, source, round, before, after@, done, node);
            assert(round * i32::MIN >= -0xffff_fffe * 0x8000_0000 && round * i32::MAX
                <= 0xffff_fffe * 0x7fff_ffff) by (nonlinear_arith)
                requires
                    0 <= round <= 0xffff_fffe,
                    i32::MIN == -0x8000_0000,
                    i32::MAX == 0x7fff_ffff,
            ;
        }
        let mut j: usize = 0;
        while j < arcs.len()
            invariant
                j <= arcs.len(),
                g == self@,
                g.contains_key(node),
                before[node] == reached,
                reached != INFINITE,
                -0xffff_fffe * 0x8000_0000 <= reached <= 0xffff_fffe * 0x7fff_ffff,
                after@.dom() == g.dom(),
                round_kept(g, source, round, before, after@, done),
                forall|k: int|
                    0 <= k < arcs.len() ==> has_arc(g, node, (#[trigger] arcs[k]).0)
                        && g[node][arcs[k].0] == arcs[k].1,
                forall|k: int| 0 <= k < j ==> after@[(#[trigger] arcs[k]).0] <= reached + arcs[k].1,
            decreases arcs.len() - j,
        {
            let (x, weight) = arcs[j];
            assert(has_arc(g, node, arcs[j as int].0));
            let cost = reached + weight as i64;
            let known = *after.get(&x).unwrap();
            if cost < known {
                proof {
                    lemma_round_lowered(g, source, round, before, after@, done, node, x, cost);
                }
                after.insert(x, cost);
                proof {
                    assert(after@.dom() =~= g.dom());
                }
            }
            j += 1;
        }
        proof {
            assert forall|x: u32| #[trigger] has_arc(g, node, x) implies after@[x] <= before[node]
                + g[node][x] by {
                let k = choose|k: int| 0 <= k < arcs.len() && arcs@[k] == (x, g[node][x]);
                assert(after@[arcs[k].0] <= reached + arcs[k].1);
            }
            lemma_round_node_done(g, source, round, before, after@, done, node);
        }
    }

    /// Does one round of lowering: every arc of the graph is tried once,
    /// against the distances of the round before.
    fn lower_round(
        &self,
        order: &Vec<u32>,
        before: &HashMap<u32, i64>,
        Ghost(source): Ghost<u32>,
        Ghost(round): Ghost<int>,
    ) -> (after: HashMap<u32, i64>)
        requires
            0 <= round,
            round + 1 <= 0xffff_ffff,
            order@.to_set() == self@.dom(),
            are_bounded_distances(self@, source, round, before@),
        ensures
            are_bounded_distances(self@, source, round + 1, after@),
    {
        let ghost g = self@;
        let mut after = before.clone();
        proof {
            lemma_round_starts(g, source, round, before@);
            assert(order@.take(0) =~= Seq::<u32>::empty());
        }
        let mut i: usize = 0;
        while i < order.len()
            invariant
                i <= order.len(),
                g == self@,
                round + 1 <= 0xffff_ffff,
                order@.to_set() == g.dom(),
                before@.dom() == g.dom(),
                round_kept(g, source, round, before@, after@, order@.take(i as int)),
            decreases order.len() - i,
        {
            let node = order[i];
            proof {
                assert(order@.to_set().contains(node));
                assert(order@.take(i + 1) =~= order@.take(i as int).push(node));
            }
            let reached = *before.get(&node).unwrap();
            if reached != INFINITE {
                self.lower_neighbours(
                    node,
                    reached,
                    &mut after,
                    Ghost(source),
                    Ghost(round),
                    Ghost(before@),
                    Ghost(order@.take(i as int)),
                );
            } else {
                proof {
                    lemma_round_node_done(
                        g,
                        source,
                        round,
                        before@,
                        after@,
                        order@.take(i as int),
                        node,
                    );
                }
            }
            i += 1;
        }
        proof {
            assert(order@.take(i as int) =~= order@);
            lemma_round_ends(g, source, round, before@, after@, order@);
        }
        after
    }

    /// Finds for every node the cost of a cheapest walk to it from
    /// `source`, among the walks that have fewer arcs than the graph has
    /// nodes; weights may be negative. A node to which no such walk leads
    /// gets `INFINITE`.
    pub fn bellman_ford(&self, source: u32) -> (distances: HashMap<u32, i64>)
        ensures
            are_bounded_distances(self@, source, rounds(self@), distances@),
    {
        let ghost g = self@;
        let order = self.node_list();
        proof {
            assert(g.dom() =~= self.nodes@.dom());
            order@.unique_seq_to_set();
            lemma_node_count(g.dom());
        }
        let mut distances: HashMap<u32, i64> = HashMap::new();
        let mut i: usize = 0;
        while i < order.len()
            invariant
                i <= order.len(),
                distances@.dom() == order@.take(i as int).to_set(),
                forall|v: u32| #[trigger]
                    distances@.contains_key(v) ==> distances@[v] == if v == source {
                        0
                    } else {
                        INFINITE
                    },
            decreases order.len() - i,
        {
            let node = order[i];
            proof {
                assert(order@.take(i + 1) =~= order@.take(i as int).push(node));
                order@.take(i as int).lemma_push_to_set_commute(node);
            }
            if node == source {
                distances.insert(node, 0);
            } else {
                distances.insert(node, INFINITE);
            }
            i += 1;
        }
        proof {
            assert(order@.take(i as int) =~= order@);
            lemma_first_distances(g, source, distances@);
        }
        let mut round: usize = 0;
        while round + 1 < order.len()
            invariant
                g == self@,
                order@.to_set() == g.dom(),
                order@.len() == g.dom().len(),
                order@.len() <= 0x1_0000_0000,
                round == 0 || round < order.len(),
                are_bounded_distances(g, source, round as int, distances@),
            decreases order.len() - round,
        {
            distances = self.lower_round(&order, &distances, Ghost(source), Ghost(round as int));
            round += 1;
        }
        distances
    }

    /// Tells whether some arc of the graph still gives the node it leads
    /// to a lower distance than `distances` has for it. A node without an
    /// entry counts as not reached.
    ///
    /// Of the distances that `bellman_ford` returns for a source this is
    /// true exactly when a cycle of negative cost can be reached from that
    /// source.
    pub fn has_negative_cycle(&self, distances: &HashMap<u32, i64>) -> (found: bool)
        ensures
            found == can_lower_any(self@, distances@),
    {
        let ghost g = self@;
        let order = self.node_list();
        let mut i: usize = 0;
        while i < order.len()
            invariant
                i <= order.len(),
                g == self@,
                order@.to_set() == g.dom(),
                forall|k: int, to: u32|
                    #![trigger can_lower(g, distances@, order[k], to)]
                    0 <= k < i ==> !can_lower(g, distances@, order[k], to),
            decreases order.len() - i,
        {
            let node = order[i];
            if self.can_lower_from(node, distances) {
                return true;
            }
            i += 1;
        }
        proof {
            assert forall|from: u32, to: u32| !#[trigger] can_lower(g, distances@, from, to) by {
                if can_lower(g, distances@, from, to) {
                    assert(order@.to_set().contains(from));
                    let k = choose|k: int| 0 <= k < order.len() && order[k] == from;
                    assert(!can_lower(g, distances@, order[k], to));
                }
            }
        }
        false
    }

    /// Tells whether some arc out of `node` gives the node it leads to a
    /// lower distance than `distances` has for it.
    fn can_lower_from(&self, node: u32, distances: &HashMap<u32, i64>) -> (found: bool)
        ensures
            found == exists|to: u32| #[trigger] can_lower(self@, distances@, node, to),
    {
        let ghost g = self@;
        let reached = match distances.get(&node) {
            Some(reached) => *reached,
            None => INFINITE,
        };
        if reached == INFINITE {
            return false;
        }
        let arcs = self.arcs_from(node);
        let mut j: usize = 0;
        while j < arcs.len()
            invariant
                j <= arcs.len(),
                g == self@,
                reached == distance_of(distances@, node),
                reached != INFINITE,
                forall|k: int|
                    0 <= k < arcs.len() ==> has_arc(g, node, (#[trigger] arcs[k]).0)
                        && g[node][arcs[k].0] == arcs[k].1,
                forall|k: int|
                    0 <= k < j ==> !can_lower(g, distances@, node, (#[trigger] arcs[k]).0),
            decreases arcs.len() - j,
        {
            let (to, weight) = arcs[j];
            assert(has_arc(g, node, arcs[j as int].0));
            let known = match distances.get(&to) {
                Some(known) => *known,
                None => INFINITE,
            };
            if reached as i128 + (weight as i128) < known as i128 {
                assert(can_lower(g, distances@, node, to));
                return true;
            }
            j += 1;
        }
        proof {
            assert forall|to: u32| !#[trigger] can_lower(g, distances@, node, to) by {
                if can_lower(g, distances@, node, to) {
                    let k = choose|k: int| 0 <= k < arcs.len() && arcs@[k] == (to, g[node][to]);
                    assert(!can_lower(g, distances@, node, arcs[k].0));
                }
            }
        }
        false
    }
}

} // verus!
