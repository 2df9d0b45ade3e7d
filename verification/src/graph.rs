//! The graph store: nodes, weighted arcs, and the operations that change
//! and query them.

use std::collections::hash_map::Entry;
use std::collections::HashMap;
use std::collections::HashSet;
use vstd::prelude::*;
use vstd::std_specs::iter::IteratorSpec;

use crate::error::GraphError;
use crate::walks::has_arc;
use crate::walks::nonnegative;
use crate::walks::Adjacency;

verus! {

/// A weighted graph kept as adjacency maps: every node owns a map from
/// neighbour to the weight of the arc that leads there.
#[derive(Debug)]
pub struct Graph {
    /// Adjacency map of every node in the store.
    pub nodes: HashMap<u32, HashMap<u32, i32>>,
}

impl View for Graph {
    type V = Map<u32, Map<u32, i32>>;

    /// The graph as a map from each node to the map of its neighbours and
    /// the weights of the arcs to them.
    open spec fn view(&self) -> Map<u32, Map<u32, i32>> {
        Map::new(|n: u32| self.nodes@.contains_key(n), |n: u32| self.nodes@[n]@)
    }
}

/// The graph `g` after an arc from `from` to `to` with `weight` was asked
/// for: nothing changes where `from` is not a node or the arc would be a
/// loop; else the arc is there with that weight, in place of an earlier one.
pub open spec fn with_arc(g: Adjacency, from: u32, to: u32, weight: i32) -> Adjacency {
    if from != to && g.contains_key(from) {
        g.insert(from, g[from].insert(to, weight))
    } else {
        g
    }
}

/// The graph `g` without an entry for `to` among the neighbours of `from`.
pub open spec fn without_arc(g: Adjacency, from: u32, to: u32) -> Adjacency {
    if g.contains_key(from) {
        g.insert(from, g[from].remove(to))
    } else {
        g
    }
}

/// The graph `g` without `node`: neither as a node nor as a neighbour of
/// another.
pub open spec fn without_node(g: Adjacency, node: u32) -> Adjacency {
    Map::new(|n: u32| g.contains_key(n) && n != node, |n: u32| g[n].remove(node))
}

/// No node of `g` is its own neighbour.
pub open spec fn loop_free(g: Adjacency) -> bool {
    forall|n: u32| #[trigger] g.contains_key(n) ==> !g[n].contains_key(n)
}

/// `pair` is among the first `limit` items of `pairs`.
spec fn comes_within(pairs: Seq<(u32, i32)>, limit: int, pair: (u32, i32)) -> bool {
    exists|i: int| 0 <= i < limit && #[trigger] pairs[i] == pair
}

/// The nodes of `g` that have exactly one neighbour.
pub open spec fn leaves(g: Adjacency) -> Set<u32> {
    Set::new(|n: u32| g.contains_key(n) && g[n].len() == 1)
}

/// None of the operations that change a graph gives a loop to a graph
/// that has none.
pub proof fn lemma_loops_never_appear(g: Adjacency, a: u32, b: u32, weight: i32)
    requires
        loop_free(g),
    ensures
        loop_free(g.insert(a, Map::<u32, i32>::empty())),
        loop_free(with_arc(g, a, b, weight)),
        loop_free(without_arc(g, a, b)),
        loop_free(without_node(g, a)),
{
    assert forall|n: u32| #[trigger] with_arc(g, a, b, weight).contains_key(n) implies !with_arc(
        g,
        a,
        b,
        weight,
    )[n].contains_key(n) by {
        assert(g.contains_key(n));
    }
    assert forall|n: u32| #[trigger] without_arc(g, a, b).contains_key(n) implies !without_arc(
        g,
        a,
        b,
    )[n].contains_key(n) by {
        assert(g.contains_key(n));
    }
    assert forall|n: u32| #[trigger] without_node(g, a).contains_key(n) implies !without_node(
        g,
        a,
    )[n].contains_key(n) by {
        assert(g.contains_key(n));
    }
    assert forall|n: u32| #[trigger]
        g.insert(a, Map::<u32, i32>::empty()).contains_key(n) implies !g.insert(
        a,
        Map::<u32, i32>::empty(),
    )[n].contains_key(n) by {
        if n != a {
            assert(g.contains_key(n));
        }
    }
}

impl Graph {
    /// The graph holds no arc from a node to itself. A new graph is well
    /// formed, and the operations that change a graph keep it so.
    pub open spec fn well_formed(&self) -> bool {
        loop_free(self@)
    }

    /// Creates a graph without nodes.
    pub fn new() -> (graph: Self)
        ensures
            graph@ == Map::<u32, Map<u32, i32>>::empty(),
            graph.well_formed(),
    {
        let graph = Graph { nodes: HashMap::new() };
        assert(graph@ =~= Map::<u32, Map<u32, i32>>::empty());
        graph
    }

    /// Adds `node` with no arcs; a node that is already present loses its
    /// arcs.
    pub fn add_node(&mut self, node: u32)
        ensures
            final(self)@ == old(self)@.insert(node, Map::<u32, i32>::empty()),
            old(self).well_formed() ==> final(self).well_formed(),
    {
        self.nodes.insert(node, HashMap::new());
        proof {
            assert(self@ =~= old(self)@.insert(node, Map::<u32, i32>::empty()));
            if old(self).well_formed() {
                lemma_loops_never_appear(old(self)@, node, node, 0);
            }
        }
    }

    /// Adds an arc from `source` to `target`, or gives the arc that is
    /// there the new weight. Does nothing where `source` is not a node or
    /// where `source` and `target` are the same.
    pub fn add_edge_directed(&mut self, source: u32, target: u32, weight: i32)
        ensures
            final(self)@ == with_arc(old(self)@, source, target, weight),
            old(self).well_formed() ==> final(self).well_formed(),
    {
        if source != target {
            match self.nodes.entry(source) {
                Entry::Occupied(mut entry) => {
                    entry.get_mut().insert(target, weight);
                },
                Entry::Vacant(_) => {},
            }
        }
        proof {
            assert(self@ =~= with_arc(old(self)@, source, target, weight));
            if old(self).well_formed() {
                lemma_loops_never_appear(old(self)@, source, target, weight);
            }
        }
    }

    /// Adds an arc from `source` to `target` and one from `target` to
    /// `source`, each as `add_edge_directed` does.
    pub fn add_edge(&mut self, source: u32, target: u32, weight: i32)
        ensures
            final(self)@ == with_arc(
                with_arc(old(self)@, source, target, weight),
                target,
                source,
                weight,
            ),
            old(self).well_formed() ==> final(self).well_formed(),
    {
        self.add_edge_directed(source, target, weight);
        self.add_edge_directed(target, source, weight);
    }

    /// Removes `node_b` from the neighbours of `node_a`.
    pub fn drop_edge_directed(&mut self, node_a: u32, node_b: u32)
        ensures
            final(self)@ == without_arc(old(self)@, node_a, node_b),
            old(self).well_formed() ==> final(self).well_formed(),
    {
        match self.nodes.entry(node_a) {
            Entry::Occupied(mut entry) => {
                entry.get_mut().remove(&node_b);
            },
            Entry::Vacant(_) => {},
        }
        proof {
            assert(self@ =~= without_arc(old(self)@, node_a, node_b));
            if old(self).well_formed() {
                lemma_loops_never_appear(old(self)@, node_a, node_b, 0);
            }
        }
    }

    /// Removes `node_b` from the neighbours of `node_a`, and `node_a` from
    /// those of `node_b`.
    pub fn drop_edge(&mut self, node_a: u32, node_b: u32)
        ensures
            final(self)@ == without_arc(without_arc(old(self)@, node_a, node_b), node_b, node_a),
            old(self).well_formed() ==> final(self).well_formed(),
    {
        self.drop_edge_directed(node_a, node_b);
        self.drop_edge_directed(node_b, node_a);
    }

    /// Removes `node`, and with it every arc that leads to it.
    pub fn drop_node(&mut self, node: u32)
        ensures
            final(self)@ == without_node(old(self)@, node),
            old(self).well_formed() ==> final(self).well_formed(),
    {
        self.nodes.remove(&node);
        let ghost removed = self@;
        let others = self.node_list();
        let mut i: usize = 0;
        while i < others.len()
            invariant
                i <= others.len(),
                others@.no_duplicates(),
                others@.to_set() == removed.dom(),
                self@.dom() == removed.dom(),
                forall|j: int|
                    0 <= j < i ==> self@[#[trigger] others[j]] == removed[others[j]].remove(node),
                forall|j: int|
                    i <= j < others.len() ==> self@[#[trigger] others[j]] == removed[others[j]],
            decreases others.len() - i,
        {
            let ghost before = self@;
            let other = others[i];
            assert(others@.to_set().contains(other));
            self.drop_edge_directed(other, node);
            proof {
                assert(self@.dom() =~= removed.dom());
                assert forall|j: int| 0 <= j < others.len() && j != i implies self@[others[j]]
                    == before[others[j]] by {
                    assert(others[j] != others[i as int]);
                }
            }
            i += 1;
        }
        proof {
            assert(removed =~= old(self)@.remove(node));
            assert forall|n: u32| #[trigger] self@.contains_key(n) implies self@[n] == old(
                self,
            )@[n].remove(node) by {
                assert(others@.to_set().contains(n));
                let j = choose|j: int| 0 <= j < others.len() && others[j] == n;
                assert(self@[others[j]] == removed[others[j]].remove(node));
            }
            assert(self@ =~= without_node(old(self)@, node));
            if old(self).well_formed() {
                lemma_loops_never_appear(old(self)@, node, node, 0);
            }
        }
    }

    /// Removes every node and arc, and returns the emptied store.
    pub fn clear(&mut self) -> (emptied: &HashMap<u32, HashMap<u32, i32>>)
        ensures
            final(self)@ == Map::<u32, Map<u32, i32>>::empty(),
            final(self).well_formed(),
            emptied@ == Map::<u32, HashMap<u32, i32>>::empty(),
    {
        self.nodes.clear();
        assert(self@ =~= Map::<u32, Map<u32, i32>>::empty());
        &self.nodes
    }

    /// Tells whether `node` is in the store.
    pub fn has_node(&self, node: u32) -> (present: bool)
        ensures
            present == self@.contains_key(node),
    {
        self.nodes.contains_key(&node)
    }

    /// Tells whether an arc leads from `node_a` to `node_b`; none does
    /// where either of them is not a node.
    pub fn has_edge_directed(&self, node_a: u32, node_b: u32) -> (present: bool)
        ensures
            present == has_arc(self@, node_a, node_b),
    {
        if !self.nodes.contains_key(&node_b) {
            return false;
        }
        match self.nodes.get(&node_a) {
            Some(adjacents) => adjacents.contains_key(&node_b),
            None => false,
        }
    }

    /// Tells whether arcs lead both from `node_a` to `node_b` and back.
    pub fn has_edge(&self, node_a: u32, node_b: u32) -> (present: bool)
        ensures
            present == (has_arc(self@, node_a, node_b) && has_arc(self@, node_b, node_a)),
    {
        self.has_edge_directed(node_a, node_b) && self.has_edge_directed(node_b, node_a)
    }

    /// Returns the neighbours of `node` with the weights of the arcs to
    /// them, or `GraphError::NodeNotFound` where `node` is not in the store.
    pub fn get_node_adjacents(&self, node: u32) -> (adjacents: Result<
        &HashMap<u32, i32>,
        GraphError,
    >)
        ensures
            match adjacents {
                Ok(neighbours) => self@.contains_key(node) && neighbours@ == self@[node],
                Err(error) => !self@.contains_key(node) && error == GraphError::NodeNotFound(node),
            },
    {
        match self.nodes.get(&node) {
            Some(neighbours) => Ok(neighbours),
            None => Err(GraphError::NodeNotFound(node)),
        }
    }

    /// Returns the nodes of the store.
    pub fn get_nodes(&self) -> (nodes: HashSet<u32>)
        ensures
            nodes@ == self@.dom(),
    {
        let list = self.node_list();
        let mut nodes: HashSet<u32> = HashSet::new();
        let mut i: usize = 0;
        while i < list.len()
            invariant
                i <= list.len(),
                nodes@ == list@.take(i as int).to_set(),
            decreases list.len() - i,
        {
            proof {
                assert(list@.take(i + 1) =~= list@.take(i as int).push(list[i as int]));
                list@.take(i as int).lemma_push_to_set_commute(list[i as int]);
            }
            nodes.insert(list[i]);
            i += 1;
        }
        proof {
            assert(list@.take(i as int) =~= list@);
        }
        nodes
    }

    /// Returns the nodes that have exactly one neighbour.
    pub fn get_leaf_nodes(&self) -> (found: HashSet<u32>)
        ensures
            found@ == leaves(self@),
    {
        let list = self.node_list();
        let mut found: HashSet<u32> = HashSet::new();
        let mut i: usize = 0;
        while i < list.len()
            invariant
                i <= list.len(),
                list@.to_set() == self@.dom(),
                forall|n: u32|
                    found@.contains(n) <==> list@.take(i as int).contains(n) && self@[n].len() == 1,
            decreases list.len() - i,
        {
            let node = list[i];
            assert(list@.to_set().contains(node));
            let ghost before = found@;
            let single = match self.nodes.get(&node) {
                Some(neighbours) => neighbours.len() == 1,
                None => false,
            };
            if single {
                found.insert(node);
            }
            proof {
                let longer = list@.take(i + 1);
                assert(longer =~= list@.take(i as int).push(node));
                assert forall|n: u32|
                    found@.contains(n) <==> longer.contains(n) && self@[n].len() == 1 by {
                    if list@.take(i as int).contains(n) {
                        let j = choose|j: int| 0 <= j < i && list@.take(i as int)[j] == n;
                        assert(longer[j] == n);
                    }
                    if n == node {
                        assert(longer[i as int] == n);
                    }
                    if longer.contains(n) && n != node {
                        let j = choose|j: int| 0 <= j < longer.len() && longer[j] == n;
                        assert(list@.take(i as int)[j] == n);
                    }
                }
            }
            i += 1;
        }
        proof {
            assert(list@.take(i as int) =~= list@);
            assert forall|n: u32| found@.contains(n) <==> leaves(self@).contains(n) by {
                if self@.contains_key(n) {
                    assert(list@.to_set().contains(n));
                }
                if list@.contains(n) {
                    assert(list@.to_set().contains(n));
                }
            }
            assert(found@ =~= leaves(self@));
        }
        found
    }

    /// Lists the nodes of the store, each once, in no particular order.
    pub fn node_list(&self) -> (list: Vec<u32>)
        ensures
            list@.no_duplicates(),
            list@.to_set() == self@.dom(),
    {
        let ghost all: Seq<u32> = self.nodes.keys().remaining().unref();
        let mut list: Vec<u32> = Vec::new();
        for node in it: self.nodes.keys()
            invariant
                it.seq().unref() == all,
                list.len() == it.index(),
                list@ == all.take(list.len() as int),
        {
            assert(all[it.index()] == *it.seq()[it.index()]);
            assert(all.take(list.len() + 1) =~= all.take(list.len() as int).push(*node));
            list.push(*node);
        }
        proof {
            assert(list@ =~= all);
            assert(self@.dom() =~= self.nodes@.dom());
        }
        list
    }

    /// Lists the arcs that leave `node`, as pairs of neighbour and weight,
    /// each arc once. Entries that name a neighbour which is not a node are
    /// left out; a node that is not in the store has no arcs.
    pub fn arcs_from(&self, node: u32) -> (arcs: Vec<(u32, i32)>)
        ensures
            forall|j: int|
                0 <= j < arcs.len() ==> has_arc(self@, node, (#[trigger] arcs[j]).0)
                    && self@[node][arcs[j].0] == arcs[j].1,
            forall|to: u32| #[trigger]
                has_arc(self@, node, to) ==> arcs@.contains((to, self@[node][to])),
            forall|i: int, j: int|
                0 <= i < j < arcs.len() ==> (#[trigger] arcs[i]).0 != (#[trigger] arcs[j]).0,
    {
        let mut arcs: Vec<(u32, i32)> = Vec::new();
        match self.nodes.get(&node) {
            None => {},
            Some(adjacents) => {
                let ghost all: Seq<(u32, i32)> = adjacents.iter().remaining().unref();
                for entry in it: adjacents.iter()
                    invariant
                        self.nodes@.contains_key(node),
                        self.nodes@[node] == *adjacents,
                        it.seq().unref() == all,
                        it.seq().no_duplicates(),
                        forall|j: int|
                            0 <= j < arcs.len() ==> has_arc(self@, node, (#[trigger] arcs[j]).0)
                                && self@[node][arcs[j].0] == arcs[j].1,
                        forall|i: int|
                            0 <= i < it.index() && self.nodes@.contains_key((#[trigger] all[i]).0)
                                ==> arcs@.contains(all[i]),
                        forall|j: int|
                            0 <= j < arcs.len() ==> comes_within(
                                all,
                                it.index(),
                                #[trigger] arcs[j],
                            ),
                        forall|i: int, j: int|
                            0 <= i < j < arcs.len() ==> (#[trigger] arcs[i]).0 != (
                            #[trigger] arcs[j]).0,
                {
                    let (to, weight) = entry;
                    let ghost at = it.index();
                    assert(all[at] == (*to, *weight));
                    let ghost before = arcs@;
                    proof {
                        let walked = it.seq();
                        assert forall|i: int| 0 <= i < at implies (#[trigger] all[i]).0 != *to by {
                            assert(adjacents@.contains_key(*walked[i].0) && adjacents@[*walked[i].0]
                                == *walked[i].1);
                            assert(adjacents@.contains_key(*walked[at].0)
                                && adjacents@[*walked[at].0] == *walked[at].1);
                            if all[i].0 == *to {
                                assert(walked[i] == walked[at]);
                            }
                        }
                    }
                    if self.nodes.contains_key(to) {
                        arcs.push((*to, *weight));
                        assert(arcs@.last() == (*to, *weight));
                    }
                    assert forall|i: int|
                        0 <= i < at + 1 && self.nodes@.contains_key(
                            (#[trigger] all[i]).0,
                        ) implies arcs@.contains(all[i]) by {
                        if i < at {
                            let j = choose|j: int| 0 <= j < before.len() && before[j] == all[i];
                            assert(arcs@[j] == all[i]);
                        } else {
                            assert(arcs@[arcs.len() - 1] == all[i]);
                        }
                    }
                    assert forall|j: int| 0 <= j < arcs.len() implies comes_within(
                        all,
                        at + 1,
                        #[trigger] arcs[j],
                    ) by {
                        if j < before.len() {
                            assert(comes_within(all, at, before[j]));
                            let i = choose|i: int| 0 <= i < at && #[trigger] all[i] == before[j];
                            assert(0 <= i < at + 1 && all[i] == arcs[j]);
                        } else {
                            assert(all[at] == arcs[j]);
                        }
                    }
                    assert forall|i: int, j: int| 0 <= i < j < arcs.len() implies (
                    #[trigger] arcs[i]).0 != (#[trigger] arcs[j]).0 by {
                        if j >= before.len() {
                            assert(comes_within(all, at, before[i]));
                            let k = choose|k: int| 0 <= k < at && #[trigger] all[k] == before[i];
                            assert(all[k].0 != *to);
                        } else {
                            assert(before[i].0 != before[j].0);
                        }
                    }
                }
                assert forall|to: u32| #[trigger] has_arc(self@, node, to) implies arcs@.contains(
                    (to, self@[node][to]),
                ) by {
                    let weight = adjacents@[to];
                    assert(adjacents.iter().remaining().contains((&to, &weight)));
                    let walked = adjacents.iter().remaining();
                    let i = choose|i: int| 0 <= i < walked.len() && walked[i] == (&to, &weight);
                    assert(all[i] == (to, weight));
                }
            },
        }
        arcs
    }

    /// Tells whether the graph is free of negative weights, as the searches
    /// for a cheapest walk by Dijkstra's algorithm and by A* need it.
    pub fn has_no_negative_weight(&self) -> (clean: bool)
        ensures
            clean == nonnegative(self@),
    {
        let ghost g = self@;
        let order = self.node_list();
        let mut i: usize = 0;
        while i < order.len()
            invariant
                i <= order.len(),
                g == self@,
                order@.to_set() == g.dom(),
                forall|k: int, to: u32|
                    #![trigger has_arc(g, order[k], to)]
                    0 <= k < i && has_arc(g, order[k], to) ==> g[order[k]][to] >= 0,
            decreases order.len() - i,
        {
            let node = order[i];
            let arcs = self.arcs_from(node);
            let mut j: usize = 0;
            while j < arcs.len()
                invariant
                    j <= arcs.len(),
                    g == self@,
                    forall|k: int|
                        0 <= k < arcs.len() ==> has_arc(g, node, (#[trigger] arcs[k]).0)
                            && g[node][arcs[k].0] == arcs[k].1,
                    forall|k: int| 0 <= k < j ==> (#[trigger] arcs[k]).1 >= 0,
                decreases arcs.len() - j,
            {
                if arcs[j].1 < 0 {
                    assert(has_arc(g, node, arcs[j as int].0) && g[node][arcs[j as int].0] < 0);
                    return false;
                }
                j += 1;
            }
            proof {
                assert forall|to: u32| #[trigger] has_arc(g, node, to) implies g[node][to] >= 0 by {
                    let k = choose|k: int| 0 <= k < arcs.len() && arcs@[k] == (to, g[node][to]);
                    assert(arcs[k].1 >= 0);
                }
            }
            i += 1;
        }
        proof {
            assert forall|a: u32, b: u32| #[trigger] has_arc(g, a, b) implies g[a][b] >= 0 by {
                assert(order@.to_set().contains(a));
                let k = choose|k: int| 0 <= k < order.len() && order[k] == a;
                assert(has_arc(g, order[k], b));
            }
        }
        true
    }
}

} // verus!
