//! Walks through a graph, their cost, and what it means for one node to be
//! reachable from another or to lie at a given distance from it.
//!
//! Everything here is stated over the mathematical model of a graph: a map
//! from each node to the map of its neighbours and arc weights.

use vstd::prelude::*;

verus! {

/// The model of a graph: for every node, the weight of the arc to each of
/// its neighbours.
pub type Adjacency = Map<u32, Map<u32, i32>>;

/// There is an arc from `from` to `to`. An entry that names a neighbour
/// which is not itself a node of the graph is not an arc.
pub open spec fn has_arc(g: Adjacency, from: u32, to: u32) -> bool {
    g.contains_key(from) && g.contains_key(to) && g[from].contains_key(to)
}

/// The weight of the arc from `from` to `to`.
pub open spec fn arc_weight(g: Adjacency, from: u32, to: u32) -> int {
    g[from][to] as int
}

/// No arc of the graph has a negative weight.
pub open spec fn nonnegative(g: Adjacency) -> bool {
    forall|a: u32, b: u32| #[trigger] has_arc(g, a, b) ==> g[a][b] >= 0
}

/// `walk` is a non-empty sequence of nodes in which every node is joined to
/// the next by an arc. A single node is a walk, whether or not the graph
/// holds it.
pub open spec fn is_walk(g: Adjacency, walk: Seq<u32>) -> bool {
    walk.len() > 0 && forall|i: int|
        0 <= i < walk.len() - 1 ==> has_arc(g, #[trigger] walk[i], walk[i + 1])
}

/// The sum of the weights of the arcs along `walk`.
pub open spec fn walk_cost(g: Adjacency, walk: Seq<u32>) -> int
    decreases walk.len(),
{
    if walk.len() <= 1 {
        0
    } else {
        walk_cost(g, walk.drop_last()) + arc_weight(g, walk[walk.len() - 2], walk.last())
    }
}

/// `walk` leads from `from` to `to`.
pub open spec fn connects(g: Adjacency, walk: Seq<u32>, from: u32, to: u32) -> bool {
    is_walk(g, walk) && walk[0] == from && walk.last() == to
}

/// Some walk leads from `from` to `to`.
pub open spec fn reachable(g: Adjacency, from: u32, to: u32) -> bool {
    exists|walk: Seq<u32>| connects(g, walk, from, to)
}

/// Some walk from `from` to `to` costs exactly `cost`.
pub open spec fn is_walk_cost(g: Adjacency, from: u32, to: u32, cost: int) -> bool {
    exists|walk: Seq<u32>| #[trigger] connects(g, walk, from, to) && walk_cost(g, walk) == cost
}

/// `d` is the cost of a cheapest walk from `from` to `to`.
pub open spec fn is_distance(g: Adjacency, from: u32, to: u32, d: int) -> bool {
    &&& is_walk_cost(g, from, to, d)
    &&& forall|walk: Seq<u32>| #[trigger] connects(g, walk, from, to) ==> d <= walk_cost(g, walk)
}

/// A node alone is a walk from itself to itself, at no cost.
pub proof fn lemma_single_node_walk(g: Adjacency, node: u32)
    ensures
        connects(g, seq![node], node, node),
        walk_cost(g, seq![node]) == 0,
{
}

/// A walk can be extended by an arc that leaves its last node, and the
/// weight of that arc is added to its cost.
pub proof fn lemma_extend_walk(g: Adjacency, walk: Seq<u32>, next: u32)
    requires
        is_walk(g, walk),
        has_arc(g, walk.last(), next),
    ensures
        connects(g, walk.push(next), walk[0], next),
        walk_cost(g, walk.push(next)) == walk_cost(g, walk) + arc_weight(g, walk.last(), next),
{
    let longer = walk.push(next);
    assert(longer.drop_last() =~= walk);
    assert forall|i: int| 0 <= i < longer.len() - 1 implies has_arc(
        g,
        #[trigger] longer[i],
        longer[i + 1],
    ) by {
        if i < walk.len() - 1 {
            assert(has_arc(g, walk[i], walk[i + 1]));
        }
    }
}

/// The first `n` nodes of a walk form a walk, and each further node adds
/// the weight of the arc that reaches it.
pub proof fn lemma_walk_prefix(g: Adjacency, walk: Seq<u32>, n: int)
    requires
        is_walk(g, walk),
        1 <= n <= walk.len(),
    ensures
        connects(g, walk.take(n), walk[0], walk[n - 1]),
        n < walk.len() ==> has_arc(g, walk[n - 1], walk[n]) && walk_cost(g, walk.take(n + 1))
            == walk_cost(g, walk.take(n)) + arc_weight(g, walk[n - 1], walk[n]),
{
    let prefix = walk.take(n);
    assert forall|i: int| 0 <= i < prefix.len() - 1 implies has_arc(
        g,
        #[trigger] prefix[i],
        prefix[i + 1],
    ) by {
        assert(has_arc(g, walk[i], walk[i + 1]));
    }
    if n < walk.len() {
        assert(has_arc(g, walk[n - 1], walk[n]));
        assert(walk.take(n + 1).drop_last() =~= prefix);
    }
}

/// Every node of a walk that has an arc is a node of the graph.
pub proof fn lemma_walk_nodes_known(g: Adjacency, walk: Seq<u32>, i: int)
    requires
        is_walk(g, walk),
        walk.len() >= 2,
        0 <= i < walk.len(),
    ensures
        g.contains_key(walk[i]),
{
    if i < walk.len() - 1 {
        assert(has_arc(g, walk[i], walk[i + 1]));
    } else {
        assert(has_arc(g, walk[i - 1], walk[i - 1 + 1]));
    }
}

/// Without negative weights a walk costs at least as much as each of its
/// prefixes, and so never less than nothing.
pub proof fn lemma_prefix_costs_less(g: Adjacency, walk: Seq<u32>, n: int)
    requires
        nonnegative(g),
        is_walk(g, walk),
        1 <= n <= walk.len(),
    ensures
        0 <= walk_cost(g, walk.take(n)) <= walk_cost(g, walk),
    decreases walk.len() - n,
{
    if n == walk.len() {
        assert(walk.take(n) =~= walk);
        lemma_cost_not_negative(g, walk);
    } else {
        lemma_walk_prefix(g, walk, n);
        lemma_prefix_costs_less(g, walk, n + 1);
        lemma_cost_not_negative(g, walk.take(n));
    }
}

/// Without negative weights no walk has a negative cost.
pub proof fn lemma_cost_not_negative(g: Adjacency, walk: Seq<u32>)
    requires
        nonnegative(g),
        is_walk(g, walk),
    ensures
        0 <= walk_cost(g, walk),
    decreases walk.len(),
{
    if walk.len() > 1 {
        lemma_walk_prefix(g, walk, walk.len() - 1);
        assert(walk.take(walk.len() - 1) =~= walk.drop_last());
        lemma_cost_not_negative(g, walk.drop_last());
        assert(has_arc(g, walk[walk.len() - 2], walk[walk.len() - 2 + 1]));
    }
}

/// A walk can be cut at any of its nodes into two walks, and its cost is
/// the sum of theirs.
pub proof fn lemma_split_walk(g: Adjacency, walk: Seq<u32>, at: int)
    requires
        is_walk(g, walk),
        0 <= at < walk.len(),
    ensures
        connects(g, walk.take(at + 1), walk[0], walk[at]),
        connects(g, walk.skip(at), walk[at], walk.last()),
        walk_cost(g, walk) == walk_cost(g, walk.take(at + 1)) + walk_cost(g, walk.skip(at)),
    decreases walk.len(),
{
    lemma_walk_prefix(g, walk, at + 1);
    let tail = walk.skip(at);
    assert forall|i: int| 0 <= i < tail.len() - 1 implies has_arc(
        g,
        #[trigger] tail[i],
        tail[i + 1],
    ) by {
        assert(has_arc(g, walk[at + i], walk[at + i + 1]));
    }
    if at == walk.len() - 1 {
        assert(walk.take(at + 1) =~= walk);
    } else {
        let shorter = walk.drop_last();
        assert forall|i: int| 0 <= i < shorter.len() - 1 implies has_arc(
            g,
            #[trigger] shorter[i],
            shorter[i + 1],
        ) by {
            assert(has_arc(g, walk[i], walk[i + 1]));
        }
        lemma_split_walk(g, shorter, at);
        assert(shorter.take(at + 1) =~= walk.take(at + 1));
        assert(shorter.skip(at) =~= tail.drop_last());
    }
}

/// Two walks of which the second starts where the first ends join into one
/// walk, whose cost is the sum of theirs.
pub proof fn lemma_join_walks(g: Adjacency, first: Seq<u32>, second: Seq<u32>)
    requires
        is_walk(g, first),
        is_walk(g, second),
        first.last() == second[0],
    ensures
        connects(g, first + second.skip(1), first[0], second.last()),
        walk_cost(g, first + second.skip(1)) == walk_cost(g, first) + walk_cost(g, second),
    decreases second.len(),
{
    let joined = first + second.skip(1);
    if second.len() == 1 {
        assert(joined =~= first);
    } else {
        let shorter = second.drop_last();
        assert forall|i: int| 0 <= i < shorter.len() - 1 implies has_arc(
            g,
            #[trigger] shorter[i],
            shorter[i + 1],
        ) by {
            assert(has_arc(g, second[i], second[i + 1]));
        }
        lemma_join_walks(g, first, shorter);
        let before = first + shorter.skip(1);
        assert(has_arc(g, second[second.len() - 2], second[second.len() - 2 + 1]));
        assert(before.last() == second[second.len() - 2]);
        lemma_extend_walk(g, before, second.last());
        assert(before.push(second.last()) =~= joined);
    }
}

/// A walk between two different nodes passes only through nodes of the
/// graph, so none exists when either end is not a node.
pub proof fn lemma_unknown_end_unreachable(g: Adjacency, from: u32, to: u32)
    requires
        from != to,
        !g.contains_key(from) || !g.contains_key(to),
    ensures
        !reachable(g, from, to),
{
    assert forall|walk: Seq<u32>| !connects(g, walk, from, to) by {
        if connects(g, walk, from, to) {
            lemma_walk_nodes_known(g, walk, 0);
            lemma_walk_nodes_known(g, walk, walk.len() - 1);
        }
    }
}

/// The part of a walk between two visits of the same node is a walk from
/// that node to itself; leaving it out gives a walk between the same ends
/// whose cost is lower by the cost of that part.
pub proof fn lemma_cut_cycle(g: Adjacency, walk: Seq<u32>, i: int, j: int)
    requires
        is_walk(g, walk),
        0 <= i < j < walk.len(),
        walk[i] == walk[j],
    ensures
        connects(g, walk.subrange(i, j + 1), walk[i], walk[i]),
        connects(g, walk.take(i + 1) + walk.skip(j + 1), walk[0], walk.last()),
        walk_cost(g, walk.take(i + 1) + walk.skip(j + 1)) + walk_cost(g, walk.subrange(i, j + 1))
            == walk_cost(g, walk),
{
    lemma_split_walk(g, walk, j);
    let head = walk.take(j + 1);
    lemma_split_walk(g, head, i);
    assert(head.take(i + 1) =~= walk.take(i + 1));
    assert(head.skip(i) =~= walk.subrange(i, j + 1));
    lemma_join_walks(g, walk.take(i + 1), walk.skip(j));
    assert(walk.skip(j).skip(1) =~= walk.skip(j + 1));
}

/// Leaving out the part of a walk between two visits of the same node
/// gives a shorter walk between the same ends, which without negative
/// weights costs no more.
pub proof fn lemma_cut_detour(g: Adjacency, walk: Seq<u32>, i: int, j: int)
    requires
        nonnegative(g),
        is_walk(g, walk),
        0 <= i < j < walk.len(),
        walk[i] == walk[j],
    ensures
        connects(g, walk.take(i + 1) + walk.skip(j + 1), walk[0], walk.last()),
        walk_cost(g, walk.take(i + 1) + walk.skip(j + 1)) <= walk_cost(g, walk),
{
    lemma_cut_cycle(g, walk, i, j);
    lemma_cost_not_negative(g, walk.subrange(i, j + 1));
}

/// Between the ends of any walk there is a walk that visits no node twice
/// and, without negative weights, costs no more.
pub proof fn lemma_simple_walk(g: Adjacency, walk: Seq<u32>) -> (simple: Seq<u32>)
    requires
        nonnegative(g),
        is_walk(g, walk),
    ensures
        connects(g, simple, walk[0], walk.last()),
        simple.no_duplicates(),
        walk_cost(g, simple) <= walk_cost(g, walk),
    decreases walk.len(),
{
    if walk.no_duplicates() {
        walk
    } else {
        let (a, b) = choose|a: int, b: int|
            0 <= a < walk.len() && 0 <= b < walk.len() && a != b && walk[a] == walk[b];
        let (i, j) = if a < b {
            (a, b)
        } else {
            (b, a)
        };
        lemma_cut_detour(g, walk, i, j);
        lemma_simple_walk(g, walk.take(i + 1) + walk.skip(j + 1))
    }
}

/// No more than 2^32 nodes fit in a graph.
pub proof fn lemma_node_count(nodes: Set<u32>)
    requires
        nodes.finite(),
    ensures
        nodes.len() <= 0x1_0000_0000,
{
    broadcast use vstd::set_lib::full_set_properties;

    let all = Set::<u32>::full();
    assert(all =~= Set::<u32>::range(0u32, u32::MAX).insert(u32::MAX));
    vstd::set_lib::range_set_properties::<u32>(0u32, u32::MAX);
    assert(nodes.subset_of(all));
    vstd::set_lib::lemma_len_subset(nodes, all);
}

/// The cost of a walk is bounded by the number of its arcs times the
/// largest and the smallest weight that an arc can carry.
pub proof fn lemma_cost_bounds(g: Adjacency, walk: Seq<u32>)
    requires
        is_walk(g, walk),
    ensures
        (walk.len() - 1) * i32::MIN <= walk_cost(g, walk) <= (walk.len() - 1) * i32::MAX,
    decreases walk.len(),
{
    if walk.len() > 1 {
        lemma_walk_prefix(g, walk, walk.len() - 1);
        assert(walk.take(walk.len() - 1) =~= walk.drop_last());
        lemma_cost_bounds(g, walk.drop_last());
        assert((walk.len() - 1) * i32::MAX == (walk.len() - 2) * i32::MAX + i32::MAX)
            by (nonlinear_arith);
        assert((walk.len() - 1) * i32::MIN == (walk.len() - 2) * i32::MIN + i32::MIN)
            by (nonlinear_arith);
    }
}

/// A walk that visits no node twice has no more nodes than the graph,
/// unless it is a single node.
pub proof fn lemma_simple_walk_length(g: Adjacency, walk: Seq<u32>)
    requires
        g.dom().finite(),
        is_walk(g, walk),
        walk.no_duplicates(),
    ensures
        walk.len() <= 1 || walk.len() <= g.dom().len(),
{
    if walk.len() >= 2 {
        assert forall|v: u32| walk.to_set().contains(v) implies g.dom().contains(v) by {
            let i = choose|i: int| 0 <= i < walk.len() && walk[i] == v;
            lemma_walk_nodes_known(g, walk, i);
        }
        walk.unique_seq_to_set();
        vstd::set_lib::lemma_len_subset(walk.to_set(), g.dom());
    }
}

/// The largest cost that a cheapest walk can have in a graph without
/// negative weights.
pub open spec fn longest_distance() -> int {
    0xffff_ffffint * 0x7fff_ffffint
}

/// Where a node is reachable in a graph without negative weights, some
/// walk to it costs no more than `longest_distance()`.
pub proof fn lemma_reachable_cheaply(g: Adjacency, from: u32, to: u32) -> (walk: Seq<u32>)
    requires
        nonnegative(g),
        g.dom().finite(),
        reachable(g, from, to),
    ensures
        connects(g, walk, from, to),
        walk.no_duplicates(),
        0 <= walk_cost(g, walk) <= longest_distance(),
{
    let any = choose|any: Seq<u32>| connects(g, any, from, to);
    let walk = lemma_simple_walk(g, any);
    lemma_simple_walk_length(g, walk);
    lemma_node_count(g.dom());
    lemma_cost_bounds(g, walk);
    lemma_cost_not_negative(g, walk);
    assert((walk.len() - 1) * i32::MAX <= 0xffff_ffff * 0x7fff_ffff) by (nonlinear_arith)
        requires
            0 <= walk.len() - 1 <= 0xffff_ffff,
            i32::MAX == 0x7fff_ffff,
    ;
    walk
}

} // verus!
