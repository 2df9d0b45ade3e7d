//! Traversals: which nodes a depth-first search visits, whether a
//! breadth-first search comes to a given node, and whether the whole graph
//! hangs together.

use std::collections::HashSet;
use std::collections::VecDeque;
use vstd::prelude::*;

use crate::error::GraphError;
use crate::graph::Graph;
use crate::walks::connects;
use crate::walks::has_arc;
use crate::walks::is_walk;
use crate::walks::lemma_extend_walk;
use crate::walks::lemma_single_node_walk;
use crate::walks::lemma_walk_nodes_known;
use crate::walks::reachable;
use crate::walks::Adjacency;

verus! {

/// The nodes to which a walk leads from `start`; `start` is one of them.
pub open spec fn reachable_set(g: Adjacency, start: u32) -> Set<u32> {
    Set::new(|node: u32| reachable(g, start, node))
}

/// Every node of the graph can be reached from `root`.
pub open spec fn spans(g: Adjacency, root: u32) -> bool {
    forall|node: u32| #[trigger] g.contains_key(node) ==> reachable(g, root, node)
}

/// What is reachable from `start` is `start` itself or a node of the graph.
pub proof fn lemma_reachable_is_known(g: Adjacency, start: u32, node: u32)
    requires
        reachable(g, start, node),
    ensures
        node == start || g.contains_key(node),
{
    let walk = choose|walk: Seq<u32>| connects(g, walk, start, node);
    if walk.len() >= 2 {
        lemma_walk_nodes_known(g, walk, walk.len() - 1);
    }
}

/// What an arc leads to from a reachable node is reachable.
pub proof fn lemma_reachable_step(g: Adjacency, start: u32, node: u32, next: u32)
    requires
        reachable(g, start, node),
        has_arc(g, node, next),
    ensures
        reachable(g, start, next),
{
    let walk = choose|walk: Seq<u32>| connects(g, walk, start, node);
    lemma_extend_walk(g, walk, next);
    assert(connects(g, walk.push(next), start, next));
}

/// No arc leads out of `nodes`.
pub open spec fn closed_under_arcs(g: Adjacency, nodes: Set<u32>) -> bool {
    forall|v: u32, x: u32| nodes.contains(v) && #[trigger] has_arc(g, v, x) ==> nodes.contains(x)
}

/// A set that holds `start` and that no arc leads out of holds every node
/// of a walk from `start`.
pub proof fn lemma_walk_stays_inside(
    g: Adjacency,
    start: u32,
    nodes: Set<u32>,
    walk: Seq<u32>,
    n: int,
)
    requires
        nodes.contains(start),
        closed_under_arcs(g, nodes),
        is_walk(g, walk),
        walk[0] == start,
        0 <= n < walk.len(),
    ensures
        nodes.contains(walk[n]),
    decreases n,
{
    if n > 0 {
        lemma_walk_stays_inside(g, start, nodes, walk, n - 1);
        assert(has_arc(g, walk[n - 1], walk[n - 1 + 1]));
    }
}

/// A set of reachable nodes that holds `start` and that no arc leads out
/// of is the set of all nodes reachable from `start`.
pub proof fn lemma_closed_is_reachable_set(g: Adjacency, start: u32, nodes: Set<u32>)
    requires
        nodes.contains(start),
        closed_under_arcs(g, nodes),
        forall|v: u32| nodes.contains(v) ==> reachable(g, start, v),
    ensures
        nodes == reachable_set(g, start),
{
    assert forall|v: u32| reachable(g, start, v) implies nodes.contains(v) by {
        let walk = choose|walk: Seq<u32>| connects(g, walk, start, v);
        lemma_walk_stays_inside(g, start, nodes, walk, walk.len() - 1);
    }
    assert(nodes =~= reachable_set(g, start));
}

/// What can be reached from `start` is among the nodes of the graph and
/// `start`, so there are no more of it than that.
proof fn lemma_reachable_count(g: Adjacency, start: u32, nodes: Set<u32>)
    requires
        g.dom().finite(),
        forall|v: u32| nodes.contains(v) ==> reachable(g, start, v),
    ensures
        nodes.finite(),
        nodes.len() <= g.dom().insert(start).len(),
{
    assert forall|v: u32| nodes.contains(v) implies g.dom().insert(start).contains(v) by {
        lemma_reachable_is_known(g, start, v);
    }
    vstd::set_lib::lemma_len_subset(nodes, g.dom().insert(start));
}

/// The state of a depth-first search: what was visited or waits on the
/// stack is reachable, `start` is visited or waits, and every arc out of a
/// visited node leads to a node that is visited or waits. The node `busy`,
/// if any, is visited but its arcs have not all been followed.
#[verifier::opaque]
spec fn depth_first_kept(
    g: Adjacency,
    start: u32,
    visited: Set<u32>,
    stack: Seq<u32>,
    busy: Option<u32>,
) -> bool {
    &&& visited.finite()
    &&& visited.contains(start) || stack.contains(start)
    &&& forall|v: u32| visited.contains(v) ==> reachable(g, start, v)
    &&& forall|v: u32| stack.contains(v) ==> reachable(g, start, v)
    &&& forall|v: u32, x: u32|
        visited.contains(v) && #[trigger] has_arc(g, v, x) ==> visited.contains(x)
            || stack.contains(x) || busy == Some(v)
}

/// A depth-first search starts with nothing visited and `start` on the
/// stack.
proof fn lemma_depth_first_starts(g: Adjacency, start: u32)
    ensures
        depth_first_kept(g, start, Set::<u32>::empty(), seq![start], None),
{
    reveal(depth_first_kept);
    lemma_single_node_walk(g, start);
    assert(seq![start][0] == start);
    assert forall|v: u32| seq![start].contains(v) implies reachable(g, start, v) by {
        assert(connects(g, seq![start], start, start));
    }
}

/// A depth-first search visits no more nodes than the graph has, and
/// `start`.
proof fn lemma_depth_first_bound(
    g: Adjacency,
    start: u32,
    visited: Set<u32>,
    stack: Seq<u32>,
    busy: Option<u32>,
)
    requires
        g.dom().finite(),
        depth_first_kept(g, start, visited, stack, busy),
    ensures
        visited.finite(),
        visited.len() <= g.dom().insert(start).len(),
{
    reveal(depth_first_kept);
    lemma_reachable_count(g, start, visited);
}

/// Taking the top off the stack: a node that was visited before is done
/// with; one that was not becomes the node whose arcs are followed next.
proof fn lemma_depth_first_popped(
    g: Adjacency,
    start: u32,
    visited: Set<u32>,
    stack: Seq<u32>,
)
    requires
        depth_first_kept(g, start, visited, stack, None),
        stack.len() > 0,
    ensures
        visited.contains(stack.last()) ==> depth_first_kept(
            g,
            start,
            visited,
            stack.drop_last(),
            None,
        ),
        !visited.contains(stack.last()) ==> depth_first_kept(
            g,
            start,
            visited.insert(stack.last()),
            stack.drop_last(),
            Some(stack.last()),
        ) && visited.insert(stack.last()).len() == visited.len() + 1,
{
    reveal(depth_first_kept);
    let top = stack.last();
    let rest = stack.drop_last();
    assert(stack.contains(top)) by {
        assert(stack[stack.len() - 1] == top);
    }
    assert forall|v: u32| stack.contains(v) implies rest.contains(v) || v == top by {
        let i = choose|i: int| 0 <= i < stack.len() && stack[i] == v;
        if i < rest.len() {
            assert(rest[i] == v);
        }
    }
    assert forall|v: u32| rest.contains(v) implies stack.contains(v) by {
        let i = choose|i: int| 0 <= i < rest.len() && rest[i] == v;
        assert(stack[i] == v);
    }
}

/// Putting on the stack a node to which an arc leads from the busy node.
proof fn lemma_depth_first_pushed(
    g: Adjacency,
    start: u32,
    visited: Set<u32>,
    stack: Seq<u32>,
    busy: u32,
    next: u32,
)
    requires
        depth_first_kept(g, start, visited, stack, Some(busy)),
        visited.contains(busy),
        has_arc(g, busy, next),
    ensures
        depth_first_kept(g, start, visited, stack.push(next), Some(busy)),
        forall|v: u32| stack.contains(v) ==> stack.push(next).contains(v),
        stack.push(next).contains(next),
{
    reveal(depth_first_kept);
    let longer = stack.push(next);
    assert(longer[stack.len() as int] == next);
    assert forall|v: u32| stack.contains(v) implies longer.contains(v) by {
        let i = choose|i: int| 0 <= i < stack.len() && stack[i] == v;
        assert(longer[i] == v);
    }
    assert forall|v: u32| longer.contains(v) implies reachable(g, start, v) by {
        let i = choose|i: int| 0 <= i < longer.len() && longer[i] == v;
        if i < stack.len() {
            assert(stack[i] == v);
            assert(stack.contains(v));
        } else {
            assert(reachable(g, start, busy));
            lemma_reachable_step(g, start, busy, next);
        }
    }
}

/// Once every arc out of the busy node leads to a node that is visited or
/// waits, the node is done with.
proof fn lemma_depth_first_followed(
    g: Adjacency,
    start: u32,
    visited: Set<u32>,
    stack: Seq<u32>,
    busy: u32,
)
    requires
        depth_first_kept(g, start, visited, stack, Some(busy)),
        forall|x: u32| #[trigger] has_arc(g, busy, x) ==> visited.contains(x) || stack.contains(x),
    ensures
        depth_first_kept(g, start, visited, stack, None),
{
    reveal(depth_first_kept);
}

/// With an empty stack, what was visited is what can be reached.
proof fn lemma_depth_first_done(g: Adjacency, start: u32, visited: Set<u32>, stack: Seq<u32>)
    requires
        depth_first_kept(g, start, visited, stack, None),
        stack.len() == 0,
    ensures
        visited == reachable_set(g, start),
{
    reveal(depth_first_kept);
    assert(forall|v: u32| !stack.contains(v));
    lemma_closed_is_reachable_set(g, start, visited);
}

/// The state of a breadth-first search for `target`: what was discovered
/// is reachable, `start` was discovered, what waits in the queue was
/// discovered, every arc out of a discovered node that no longer waits
/// leads to a discovered node, and `target`, once discovered, waits. The
/// node `busy`, if any, has left the queue but its arcs have not all been
/// followed.
#[verifier::opaque]
spec fn breadth_first_kept(
    g: Adjacency,
    start: u32,
    target: u32,
    discovered: Set<u32>,
    queue: Seq<u32>,
    busy: Option<u32>,
) -> bool {
    &&& discovered.finite()
    &&& discovered.contains(start)
    &&& forall|v: u32| discovered.contains(v) ==> reachable(g, start, v)
    &&& forall|v: u32| queue.contains(v) ==> discovered.contains(v)
    &&& discovered.contains(target) ==> queue.contains(target)
    &&& forall|v: u32, x: u32|
        discovered.contains(v) && #[trigger] has_arc(g, v, x) ==> discovered.contains(x)
            || queue.contains(v) || busy == Some(v)
}

/// A breadth-first search starts with `start` discovered and in the
/// queue.
proof fn lemma_breadth_first_starts(g: Adjacency, start: u32, target: u32)
    ensures
        breadth_first_kept(
            g,
            start,
            target,
            Set::<u32>::empty().insert(start),
            seq![start],
            None,
        ),
{
    reveal(breadth_first_kept);
    lemma_single_node_walk(g, start);
    assert(seq![start][0] == start);
    assert(connects(g, seq![start], start, start));
}

/// A breadth-first search discovers no more nodes than the graph has, and
/// `start`.
proof fn lemma_breadth_first_bound(
    g: Adjacency,
    start: u32,
    target: u32,
    discovered: Set<u32>,
    queue: Seq<u32>,
    busy: Option<u32>,
)
    requires
        g.dom().finite(),
        breadth_first_kept(g, start, target, discovered, queue, busy),
    ensures
        discovered.finite(),
        discovered.len() <= g.dom().insert(start).len(),
{
    reveal(breadth_first_kept);
    lemma_reachable_count(g, start, discovered);
}

/// Taking the first node out of the queue: it is reachable, and unless it
/// is the target it becomes the node whose arcs are followed next.
proof fn lemma_breadth_first_popped(
    g: Adjacency,
    start: u32,
    target: u32,
    discovered: Set<u32>,
    queue: Seq<u32>,
)
    requires
        breadth_first_kept(g, start, target, discovered, queue, None),
        queue.len() > 0,
    ensures
        reachable(g, start, queue[0]),
        discovered.contains(queue[0]),
        queue[0] != target ==> breadth_first_kept(
            g,
            start,
            target,
            discovered,
            queue.subrange(1, queue.len() as int),
            Some(queue[0]),
        ),
{
    reveal(breadth_first_kept);
    let rest = queue.subrange(1, queue.len() as int);
    assert(queue.contains(queue[0]));
    assert forall|v: u32| queue.contains(v) implies rest.contains(v) || v == queue[0] by {
        let i = choose|i: int| 0 <= i < queue.len() && queue[i] == v;
        if i > 0 {
            assert(rest[i - 1] == v);
        }
    }
    assert forall|v: u32| rest.contains(v) implies queue.contains(v) by {
        let i = choose|i: int| 0 <= i < rest.len() && rest[i] == v;
        assert(queue[i + 1] == v);
    }
}

/// Discovering a node to which an arc leads from the busy node, and
/// putting it in the queue.
proof fn lemma_breadth_first_pushed(
    g: Adjacency,
    start: u32,
    target: u32,
    discovered: Set<u32>,
    queue: Seq<u32>,
    busy: u32,
    next: u32,
)
    requires
        breadth_first_kept(g, start, target, discovered, queue, Some(busy)),
        discovered.contains(busy),
        has_arc(g, busy, next),
        !discovered.contains(next),
    ensures
        breadth_first_kept(g, start, target, discovered.insert(next), queue.push(next), Some(busy)),
        discovered.insert(next).len() == discovered.len() + 1,
{
    reveal(breadth_first_kept);
    let longer = queue.push(next);
    assert(longer[queue.len() as int] == next);
    assert forall|v: u32| queue.contains(v) implies longer.contains(v) by {
        let i = choose|i: int| 0 <= i < queue.len() && queue[i] == v;
        assert(longer[i] == v);
    }
    assert forall|v: u32| longer.contains(v) implies discovered.insert(next).contains(v) by {
        let i = choose|i: int| 0 <= i < longer.len() && longer[i] == v;
        if i < queue.len() {
            assert(queue[i] == v);
        }
    }
    lemma_reachable_step(g, start, busy, next);
}

/// Once every arc out of the busy node leads to a discovered node, the
/// node is done with.
proof fn lemma_breadth_first_followed(
    g: Adjacency,
    start: u32,
    target: u32,
    discovered: Set<u32>,
    queue: Seq<u32>,
    busy: u32,
)
    requires
        breadth_first_kept(g, start, target, discovered, queue, Some(busy)),
        forall|x: u32| #[trigger] has_arc(g, busy, x) ==> discovered.contains(x),
    ensures
        breadth_first_kept(g, start, target, discovered, queue, None),
{
    reveal(breadth_first_kept);
}

/// With an empty queue, the target cannot be reached.
proof fn lemma_breadth_first_done(
    g: Adjacency,
    start: u32,
    target: u32,
    discovered: Set<u32>,
    queue: Seq<u32>,
)
    requires
        breadth_first_kept(g, start, target, discovered, queue, None),
        queue.len() == 0,
    ensures
        !reachable(g, start, target),
{
    reveal(breadth_first_kept);
    assert(forall|v: u32| !queue.contains(v));
    lemma_closed_is_reachable_set(g, start, discovered);
    assert(!discovered.contains(target));
    assert(!reachable_set(g, start).contains(target));
}

impl Graph {
    /// Puts on the stack every node that an arc out of `current` leads to
    /// and that has not been visited.
    fn push_unvisited(
        &self,
        current: u32,
        visited: &HashSet<u32>,
        stack: &mut Vec<u32>,
        Ghost(start): Ghost<u32>,
    )
        requires
            depth_first_kept(self@, start, visited@, old(stack)@, Some(current)),
            visited@.contains(current),
        ensures
            depth_first_kept(self@, start, visited@, final(stack)@, None),
    {
        let ghost g = self@;
        let arcs = self.arcs_from(current);
        let mut j: usize = 0;
        while j < arcs.len()
            invariant
                j <= arcs.len(),
                g == self@,
                visited@.contains(current),
                depth_first_kept(g, start, visited@, stack@, Some(current)),
                forall|k: int|
                    0 <= k < arcs.len() ==> has_arc(g, current, (#[trigger] arcs[k]).0)
                        && g[current][arcs[k].0] == arcs[k].1,
                forall|k: int|
                    0 <= k < j ==> visited@.contains((#[trigger] arcs[k]).0) || stack@.contains(
                        arcs[k].0,
                    ),
            decreases arcs.len() - j,
        {
            let next = arcs[j].0;
            if !visited.contains(&next) {
                proof {
                    assert(has_arc(g, current, arcs[j as int].0));
                    lemma_depth_first_pushed(g, start, visited@, stack@, current, next);
                }
                stack.push(next);
            }
            j += 1;
        }
        proof {
            assert forall|x: u32| #[trigger] has_arc(g, current, x) implies visited@.contains(x)
                || stack@.contains(x) by {
                let k = choose|k: int| 0 <= k < arcs.len() && arcs@[k] == (x, g[current][x]);
                assert(visited@.contains(arcs[k].0) || stack@.contains(arcs[k].0));
            }
            lemma_depth_first_followed(g, start, visited@, stack@, current);
        }
    }

    /// Returns the nodes that can be reached from `node` along arcs, `node`
    /// itself among them.
    pub fn depth_first_search(&self, node: u32) -> (visited: HashSet<u32>)
        ensures
            visited@ == reachable_set(self@, node),
    {
        let ghost g = self@;
        let mut stack: Vec<u32> = Vec::new();
        let mut visited: HashSet<u32> = HashSet::new();
        stack.push(node);
        proof {
            assert(g.dom() =~= self.nodes@.dom());
            assert(stack@ =~= seq![node]);
            lemma_depth_first_starts(g, node);
        }
        while stack.len() > 0
            invariant
                g == self@,
                g.dom().finite(),
                depth_first_kept(g, node, visited@, stack@, None),
            decreases g.dom().insert(node).len() - visited@.len(), stack@.len(),
        {
            proof {
                lemma_depth_first_bound(g, node, visited@, stack@, None);
                lemma_depth_first_popped(g, node, visited@, stack@);
            }
            let current = stack.pop().unwrap();
            if !visited.contains(&current) {
                visited.insert(current);
                proof {
                    lemma_depth_first_bound(g, node, visited@, stack@, Some(current));
                }
                self.push_unvisited(current, &visited, &mut stack, Ghost(node));
            }
        }
        proof {
            lemma_depth_first_done(g, node, visited@, stack@);
        }
        visited
    }

    /// Discovers every node that an arc out of `current` leads to and that
    /// was not discovered before, and puts it in the queue.
    fn enqueue_undiscovered(
        &self,
        current: u32,
        discovered: &mut HashSet<u32>,
        queue: &mut VecDeque<u32>,
        Ghost(start): Ghost<u32>,
        Ghost(target): Ghost<u32>,
    )
        requires
            self@.dom().finite(),
            breadth_first_kept(
                self@,
                start,
                target,
                old(discovered)@,
                old(queue)@,
                Some(current),
            ),
            old(discovered)@.contains(current),
        ensures
            breadth_first_kept(self@, start, target, final(discovered)@, final(queue)@, None),
            final(discovered)@.len() > old(discovered)@.len() || (final(discovered)@ == old(
                discovered,
            )@ && final(queue)@ == old(queue)@),
    {
        let ghost g = self@;
        let arcs = self.arcs_from(current);
        let mut j: usize = 0;
        while j < arcs.len()
            invariant
                j <= arcs.len(),
                g == self@,
                g.dom().finite(),
                discovered@.contains(current),
                breadth_first_kept(g, start, target, discovered@, queue@, Some(current)),
                forall|k: int|
                    0 <= k < arcs.len() ==> has_arc(g, current, (#[trigger] arcs[k]).0)
                        && g[current][arcs[k].0] == arcs[k].1,
                forall|k: int| 0 <= k < j ==> discovered@.contains((#[trigger] arcs[k]).0),
                discovered@.len() > old(discovered)@.len() || (discovered@ == old(discovered)@
                    && queue@ == old(queue)@),
            decreases arcs.len() - j,
        {
            let next = arcs[j].0;
            if !discovered.contains(&next) {
                proof {
                    assert(has_arc(g, current, arcs[j as int].0));
                    lemma_breadth_first_pushed(
                        g,
                        start,
                        target,
                        discovered@,
                        queue@,
                        current,
                        next,
                    );
                }
                discovered.insert(next);
                queue.push_back(next);
            }
            j += 1;
        }
        proof {
            assert forall|x: u32| #[trigger] has_arc(g, current, x) implies discovered@.contains(
                x,
            ) by {
                let k = choose|k: int| 0 <= k < arcs.len() && arcs@[k] == (x, g[current][x]);
                assert(discovered@.contains(arcs[k].0));
            }
            lemma_breadth_first_followed(g, start, target, discovered@, queue@, current);
        }
    }

    /// Searches breadth first from `node` for `target`. Returns `target`
    /// when a walk leads from `node` to it, and -1 when none does.
    pub fn breadth_first_search(&self, node: u32, target: u32) -> (found: i64)
        ensures
            reachable(self@, node, target) ==> found == target,
            !reachable(self@, node, target) ==> found == -1,
    {
        let ghost g = self@;
        let mut queue: VecDeque<u32> = VecDeque::new();
        let mut discovered: HashSet<u32> = HashSet::new();
        discovered.insert(node);
        queue.push_back(node);
        proof {
            assert(g.dom() =~= self.nodes@.dom());
            assert(queue@ =~= seq![node]);
            lemma_breadth_first_starts(g, node, target);
        }
        while queue.len() > 0
            invariant
                g == self@,
                g.dom().finite(),
                breadth_first_kept(g, node, target, discovered@, queue@, None),
            decreases g.dom().insert(node).len() - discovered@.len(), queue@.len(),
        {
            proof {
                lemma_breadth_first_bound(g, node, target, discovered@, queue@, None);
                lemma_breadth_first_popped(g, node, target, discovered@, queue@);
            }
            let current = queue.pop_front().unwrap();
            if current == target {
                return current as i64;
            }
            self.enqueue_undiscovered(
                current,
                &mut discovered,
                &mut queue,
                Ghost(node),
                Ghost(target),
            );
            proof {
                lemma_breadth_first_bound(g, node, target, discovered@, queue@, None);
            }
        }
        proof {
            lemma_breadth_first_done(g, node, target, discovered@, queue@);
        }
        -1
    }

    /// Tells whether every node of the graph can be reached from node 0.
    /// Fails with `GraphError::NodeNotFound(0)` where node 0 is not in the
    /// store.
    pub fn is_connected(&self) -> (connected: Result<bool, GraphError>)
        ensures
            match connected {
                Ok(whole) => self@.contains_key(0) && whole == spans(self@, 0),
                Err(error) => !self@.contains_key(0) && error == GraphError::NodeNotFound(0),
            },
    {
        if !self.has_node(0) {
            return Err(GraphError::NodeNotFound(0));
        }
        let visited = self.depth_first_search(0);
        proof {
            let g = self@;
            assert(g.dom() =~= self.nodes@.dom());
            assert forall|v: u32| visited@.contains(v) implies g.dom().contains(v) by {
                lemma_reachable_is_known(g, 0, v);
            }
            vstd::set_lib::lemma_len_subset(visited@, g.dom());
            if visited@.len() >= g.dom().len() {
                vstd::set_lib::lemma_subset_equality(visited@, g.dom());
            } else {
                if spans(g, 0) {
                    assert(g.dom().subset_of(visited@));
                    assert(visited@ =~= g.dom());
                }
            }
        }
        Ok(visited.len() >= self.nodes.len())
    }
}

} // verus!
