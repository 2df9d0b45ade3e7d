//! Graphs as JSON text: an object with one member for every node, named
//! by the node's number, whose value is the array of the node's arcs, each
//! an array of neighbour and weight.

use std::collections::BTreeMap;
use std::collections::HashMap;
use vstd::prelude::*;
use vstd::std_specs::iter::IteratorSpec;

use crate::error::GraphError;
use crate::graph::Graph;
use crate::sorted::ascending;
use crate::sorted::ascending_list;
use crate::sorted::lemma_ascending_list_is_unique;
use crate::sorted::lists_entries;
use crate::walks::Adjacency;

verus! {

/// The error with which `serde_json` reports that it could not write or
/// read a text.
#[verifier::external_type_specification]
#[verifier::external_body]
pub struct ExJsonError(serde_json::Error);

/// What a listing holds: for every node it names, the pairs of neighbour
/// and weight in the order in which they are listed.
pub open spec fn listing_view(listing: Map<u32, Vec<(u32, i32)>>) -> Map<u32, Seq<(u32, i32)>> {
    Map::new(|node: u32| listing.contains_key(node), |node: u32| listing[node]@)
}

/// The JSON text that `serde_json::to_string` writes for a listing.
pub uninterp spec fn json_text(listing: Map<u32, Seq<(u32, i32)>>) -> Seq<char>;

/// The listing that `serde_json::from_str` reads from a text, if it reads
/// one.
pub uninterp spec fn json_listing(text: Seq<char>) -> Option<Map<u32, Seq<(u32, i32)>>>;

/// Calls `serde_json::to_string` on a listing. The call succeeds on every
/// listing: the text is written to memory, the names of the members are
/// numbers, and the values are arrays of pairs of numbers, none of which
/// `serde_json` refuses. The map is ordered by node and each array keeps
/// its order, so the text that comes back depends on nothing but what the
/// listing holds: it is `json_text` of that.
#[verifier::external_body]
fn write_listing(listing: &BTreeMap<u32, Vec<(u32, i32)>>) -> (text: Result<
    String,
    serde_json::Error,
>)
    ensures
        text is Ok,
        text matches Ok(written) ==> written@ == json_text(listing_view(listing@)),
{
    serde_json::to_string(listing)
}

/// Calls `serde_json::from_str` for a listing. What it reads depends on
/// nothing but the text: it is `json_listing` of the text, which is `None`
/// exactly when the call fails.
#[verifier::external_body]
fn read_listing(text: &str) -> (listing: Result<BTreeMap<u32, Vec<(u32, i32)>>, serde_json::Error>)
    ensures
        match listing {
            Ok(read) => json_listing(text@) == Some(listing_view(read@)),
            Err(_) => json_listing(text@) is None,
        },
{
    serde_json::from_str(text)
}

/// `listing` names the nodes of `g` and lists for each its neighbours with
/// their weights, each once.
pub open spec fn lists_graph(listing: Map<u32, Seq<(u32, i32)>>, g: Adjacency) -> bool {
    &&& listing.dom() == g.dom()
    &&& forall|node: u32| #[trigger]
        g.contains_key(node) ==> lists_entries(listing[node], g[node])
}

/// The neighbours in `adjacents` with their weights, each once, in
/// ascending order of the neighbours.
pub open spec fn ascending_pairs(adjacents: Map<u32, i32>) -> Seq<(u32, i32)> {
    choose|pairs: Seq<(u32, i32)>| lists_entries(pairs, adjacents) && ascending(pairs)
}

/// The listing of `g` in which every node lists its neighbours in
/// ascending order.
pub open spec fn ordered_listing(g: Adjacency) -> Map<u32, Seq<(u32, i32)>> {
    Map::new(|node: u32| g.contains_key(node), |node: u32| ascending_pairs(g[node]))
}

/// The adjacency map that a sequence of pairs describes: every neighbour
/// it names, with the weight of the last pair that names it.
pub open spec fn adjacents_of(pairs: Seq<(u32, i32)>) -> Map<u32, i32>
    decreases pairs.len(),
{
    if pairs.len() == 0 {
        Map::empty()
    } else {
        adjacents_of(pairs.drop_last()).insert(pairs.last().0, pairs.last().1)
    }
}

/// The graph that a listing describes.
pub open spec fn graph_of(listing: Map<u32, Seq<(u32, i32)>>) -> Adjacency {
    Map::new(|node: u32| listing.contains_key(node), |node: u32| adjacents_of(listing[node]))
}

/// What `adjacents_of` holds for a neighbour comes from a pair that names
/// it, and every pair names a neighbour that it holds.
pub proof fn lemma_adjacents_of(pairs: Seq<(u32, i32)>, to: u32)
    ensures
        adjacents_of(pairs).contains_key(to) <==> exists|j: int|
            0 <= j < pairs.len() && (#[trigger] pairs[j]).0 == to,
        adjacents_of(pairs).contains_key(to) ==> exists|j: int|
            0 <= j < pairs.len() && #[trigger] pairs[j] == (to, adjacents_of(pairs)[to]),
    decreases pairs.len(),
{
    if pairs.len() > 0 {
        let rest = pairs.drop_last();
        lemma_adjacents_of(rest, to);
        if pairs.last().0 == to {
            assert(pairs[pairs.len() - 1] == (to, adjacents_of(pairs)[to]));
        } else if adjacents_of(rest).contains_key(to) {
            let j = choose|j: int|
                0 <= j < rest.len() && #[trigger] rest[j] == (to, adjacents_of(rest)[to]);
            assert(pairs[j] == rest[j]);
        }
        if exists|j: int| 0 <= j < pairs.len() && (#[trigger] pairs[j]).0 == to {
            let j = choose|j: int| 0 <= j < pairs.len() && (#[trigger] pairs[j]).0 == to;
            if j < rest.len() {
                assert(rest[j] == pairs[j]);
            }
        }
    }
}

/// A listing of a graph describes that graph, whatever the order in which
/// it lists the arcs.
pub proof fn lemma_listing_describes_graph(listing: Map<u32, Seq<(u32, i32)>>, g: Adjacency)
    requires
        lists_graph(listing, g),
    ensures
        graph_of(listing) == g,
{
    assert forall|node: u32| #[trigger] g.contains_key(node) implies adjacents_of(listing[node])
        == g[node] by {
        let pairs = listing[node];
        let adjacents = g[node];
        assert(lists_entries(pairs, adjacents));
        assert forall|to: u32| adjacents_of(pairs).contains_key(to) <==> adjacents.contains_key(
            to,
        ) by {
            lemma_adjacents_of(pairs, to);
            if adjacents.contains_key(to) {
                let j = choose|j: int| 0 <= j < pairs.len() && pairs[j] == (to, adjacents[to]);
                assert(pairs[j].0 == to);
            }
        }
        assert forall|to: u32| adjacents.contains_key(to) implies adjacents_of(pairs)[to]
            == adjacents[to] by {
            lemma_adjacents_of(pairs, to);
            let j = choose|j: int|
                0 <= j < pairs.len() && #[trigger] pairs[j] == (to, adjacents_of(pairs)[to]);
            assert(adjacents[pairs[j].0] == pairs[j].1);
        }
        assert(adjacents_of(pairs) =~= adjacents);
    }
    assert(graph_of(listing) =~= g);
}

/// Lists the neighbours in `adjacents` with their weights, each once, in
/// ascending order of the neighbours.
pub fn entry_list(adjacents: &HashMap<u32, i32>) -> (list: Vec<(u32, i32)>)
    ensures
        lists_entries(list@, adjacents@),
        ascending(list@),
        list@ == ascending_pairs(adjacents@),
{
    let ghost all: Seq<(u32, i32)> = adjacents.iter().remaining().unref();
    let mut ordered: BTreeMap<u32, i32> = BTreeMap::new();
    for entry in it: adjacents.iter()
        invariant
            it.seq().unref() == all,
            forall|to: u32| #[trigger]
                ordered@.contains_key(to) ==> adjacents@.contains_key(to) && ordered@[to]
                    == adjacents@[to],
            forall|k: int| 0 <= k < it.index() ==> ordered@.contains_key((#[trigger] all[k]).0),
    {
        let (to, weight) = entry;
        let ghost at = it.index();
        let ghost walked = adjacents.iter().remaining();
        assert(all[at] == (*to, *weight));
        assert(adjacents@.contains_key(*walked[at].0) && adjacents@[*walked[at].0]
            == *walked[at].1);
        ordered.insert(*to, *weight);
    }
    proof {
        let walked = adjacents.iter().remaining();
        assert forall|to: u32| #[trigger] adjacents@.contains_key(to) implies ordered@.contains_key(
            to,
        ) by {
            let weight = adjacents@[to];
            assert(walked.contains((&to, &weight)));
            let k = choose|k: int| 0 <= k < walked.len() && walked[k] == (&to, &weight);
            assert(all[k].0 == to);
        }
        assert(ordered@ =~= adjacents@);
    }
    let list = ascending_list(&ordered);
    proof {
        let chosen = ascending_pairs(adjacents@);
        assert(lists_entries(list@, adjacents@) && ascending(list@));
        lemma_ascending_list_is_unique(list@, chosen, adjacents@);
    }
    list
}

impl Graph {
    /// Lists the graph: every node with its neighbours and their weights,
    /// in ascending order of the neighbours.
    pub fn listing(&self) -> (listing: BTreeMap<u32, Vec<(u32, i32)>>)
        ensures
            lists_graph(listing_view(listing@), self@),
            listing_view(listing@) == ordered_listing(self@),
    {
        let ghost g = self@;
        let order = self.node_list();
        let mut listing: BTreeMap<u32, Vec<(u32, i32)>> = BTreeMap::new();
        let mut i: usize = 0;
        while i < order.len()
            invariant
                i <= order.len(),
                g == self@,
                order@.to_set() == g.dom(),
                listing@.dom() == order@.take(i as int).to_set(),
                forall|node: u32| #[trigger]
                    listing@.contains_key(node) ==> lists_entries(listing@[node]@, g[node])
                        && listing@[node]@ == ascending_pairs(g[node]),
            decreases order.len() - i,
        {
            let node = order[i];
            proof {
                assert(order@.to_set().contains(node));
                assert(order@.take(i + 1) =~= order@.take(i as int).push(node));
                order@.take(i as int).lemma_push_to_set_commute(node);
            }
            match self.nodes.get(&node) {
                Some(adjacents) => {
                    listing.insert(node, entry_list(adjacents));
                },
                None => {},
            }
            i += 1;
        }
        proof {
            assert(order@.take(i as int) =~= order@);
            assert(listing_view(listing@).dom() =~= g.dom());
            assert(listing_view(listing@) =~= ordered_listing(g));
        }
        listing
    }

    /// Builds the graph that a listing describes. Where a node's list
    /// names a neighbour twice, the later weight counts.
    pub fn from_listing(listing: &BTreeMap<u32, Vec<(u32, i32)>>) -> (graph: Graph)
        ensures
            graph@ == graph_of(listing_view(listing@)),
    {
        let ghost all: Seq<(u32, Vec<(u32, i32)>)> = listing.iter().remaining().unref();
        let mut nodes: HashMap<u32, HashMap<u32, i32>> = HashMap::new();
        for entry in it: listing.iter()
            invariant
                it.seq().unref() == all,
                forall|node: u32|
                    nodes@.contains_key(node) <==> exists|k: int|
                        0 <= k < it.index() && (#[trigger] all[k]).0 == node,
                forall|k: int|
                    0 <= k < it.index() ==> nodes@[(#[trigger] all[k]).0]@ == adjacents_of(
                        listing@[all[k].0]@,
                    ),
        {
            let (node, pairs) = entry;
            let ghost at = it.index();
            assert(all[at] == (*node, *pairs));
            let ghost walked = listing.iter().remaining();
            assert(listing@.contains_key(*walked[at].0) && listing@[*walked[at].0]
                == *walked[at].1);
            let adjacents = adjacents_from(pairs);
            let ghost before = nodes@;
            nodes.insert(*node, adjacents);
            proof {
                assert forall|k: int| 0 <= k < at + 1 implies nodes@[(#[trigger] all[k]).0]@
                    == adjacents_of(listing@[all[k].0]@) by {
                    if k < at && all[k].0 != *node {
                        assert(nodes@[all[k].0] == before[all[k].0]);
                    } else if k < at {
                        assert(listing@.contains_key(*walked[k].0) && listing@[*walked[k].0]
                            == *walked[k].1);
                    }
                }
                assert forall|other: u32|
                    nodes@.contains_key(other) <==> exists|k: int|
                        0 <= k < at + 1 && (#[trigger] all[k]).0 == other by {
                    if before.contains_key(other) {
                        let k = choose|k: int| 0 <= k < at && (#[trigger] all[k]).0 == other;
                        assert(0 <= k < at + 1 && all[k].0 == other);
                    }
                    if other == *node {
                        assert(all[at].0 == other);
                    }
                }
            }
        }
        let graph = Graph { nodes };
        proof {
            let walked = listing.iter().remaining();
            let described = graph_of(listing_view(listing@));
            assert forall|node: u32| graph@.contains_key(node) <==> described.contains_key(
                node,
            ) by {
                if graph@.contains_key(node) {
                    let k = choose|k: int| 0 <= k < all.len() && (#[trigger] all[k]).0 == node;
                    assert(listing@.contains_key(*walked[k].0));
                }
                if listing@.contains_key(node) {
                    let pairs = listing@[node];
                    assert(walked.contains((&node, &pairs)));
                    let k = choose|k: int| 0 <= k < walked.len() && walked[k] == (&node, &pairs);
                    assert(all[k].0 == node);
                }
            }
            assert forall|node: u32| graph@.contains_key(node) implies graph@[node]
                == described[node] by {
                let k = choose|k: int| 0 <= k < all.len() && (#[trigger] all[k]).0 == node;
                assert(nodes@[all[k].0]@ == adjacents_of(listing@[all[k].0]@));
            }
            assert(graph@ =~= described);
        }
        graph
    }

    /// Writes the graph as JSON text: the text that `serde_json` writes
    /// for the listing of the graph in which the nodes, and for every node
    /// its neighbours, stand in ascending order.
    pub fn serialize(&self) -> (text: String)
        ensures
            text@ == json_text(ordered_listing(self@)),
    {
        let listing = self.listing();
        write_listing(&listing).unwrap()
    }

    /// Reads a graph from JSON text: the graph that the listing describes
    /// which `serde_json` reads from the text. Fails with
    /// `GraphError::Malformed` exactly when it reads none.
    pub fn deserialize(text: &str) -> (graph: Result<Graph, GraphError>)
        ensures
            match graph {
                Ok(read) => json_listing(text@) matches Some(listing) && read@ == graph_of(listing),
                Err(error) => error == GraphError::Malformed && json_listing(text@) is None,
            },
    {
        match read_listing(text) {
            Ok(listing) => Ok(Graph::from_listing(&listing)),
            Err(_) => Err(GraphError::Malformed),
        }
    }
}

/// Builds the adjacency map that `pairs` describes.
fn adjacents_from(pairs: &Vec<(u32, i32)>) -> (adjacents: HashMap<u32, i32>)
    ensures
        adjacents@ == adjacents_of(pairs@),
{
    let mut adjacents: HashMap<u32, i32> = HashMap::new();
    let mut j: usize = 0;
    while j < pairs.len()
        invariant
            j <= pairs.len(),
            adjacents@ == adjacents_of(pairs@.take(j as int)),
        decreases pairs.len() - j,
    {
        proof {
            assert(pairs@.take(j + 1).drop_last() =~= pairs@.take(j as int));
        }
        let (to, weight) = pairs[j];
        adjacents.insert(to, weight);
        j += 1;
    }
    proof {
        assert(pairs@.take(j as int) =~= pairs@);
    }
    adjacents
}

} // verus!
