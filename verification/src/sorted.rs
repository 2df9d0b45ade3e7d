//! Lists of pairs in ascending order of their first components, as a
//! `BTreeMap` hands out its entries.

use std::collections::BTreeMap;
use vstd::prelude::*;
use vstd::std_specs::btree::increasing_seq;
use vstd::std_specs::cmp::OrdSpec;
use vstd::std_specs::iter::IteratorSpec;

verus! {

/// The first components of `pairs` grow from each pair to the next.
pub open spec fn ascending(pairs: Seq<(u32, i32)>) -> bool {
    forall|i: int, j: int|
        0 <= i < j < pairs.len() ==> (#[trigger] pairs[i]).0 < (#[trigger] pairs[j]).0
}

/// `pairs` holds the entries of `entries`, each once.
pub open spec fn lists_entries(pairs: Seq<(u32, i32)>, entries: Map<u32, i32>) -> bool {
    &&& pairs.len() == entries.len()
    &&& forall|j: int|
        0 <= j < pairs.len() ==> entries.contains_key((#[trigger] pairs[j]).0)
            && entries[pairs[j].0] == pairs[j].1
    &&& forall|key: u32| #[trigger]
        entries.contains_key(key) ==> pairs.contains((key, entries[key]))
}

/// Keys that a `BTreeMap` hands out in increasing order grow from each to
/// the next.
proof fn lemma_increasing_keys(keys: Seq<u32>)
    requires
        increasing_seq(keys),
    ensures
        forall|i: int, j: int| 0 <= i < j < keys.len() ==> keys[i] < keys[j],
{
    broadcast use vstd::laws_cmp::group_laws_cmp;

    vstd::std_specs::btree::axiom_increasing_seq_meaning(keys);
    assert forall|i: int, j: int| 0 <= i < j < keys.len() implies keys[i] < keys[j] by {
        assert(keys[i].cmp_spec(&keys[j]) == core::cmp::Ordering::Less);
    }
}

/// Two ascending lists of the same entries are the same up to place `i`.
proof fn lemma_same_pair(
    first: Seq<(u32, i32)>,
    second: Seq<(u32, i32)>,
    entries: Map<u32, i32>,
    i: int,
)
    requires
        lists_entries(first, entries),
        lists_entries(second, entries),
        ascending(first),
        ascending(second),
        0 <= i < first.len(),
    ensures
        first[i] == second[i],
    decreases i,
{
    assert forall|j: int| 0 <= j < i implies first[j] == second[j] by {
        lemma_same_pair(first, second, entries, j);
    }
    if first[i].0 < second[i].0 {
        let key = first[i].0;
        let j = choose|j: int| 0 <= j < second.len() && second[j] == (key, entries[key]);
        if j > i {
            assert(second[i].0 < second[j].0);
        }
        assert(first[j].0 < first[i].0);
    } else if second[i].0 < first[i].0 {
        let key = second[i].0;
        let j = choose|j: int| 0 <= j < first.len() && first[j] == (key, entries[key]);
        if j > i {
            assert(first[i].0 < first[j].0);
        }
        assert(second[j].0 < second[i].0);
    }
}

/// There is only one ascending list of the entries of a map.
pub proof fn lemma_ascending_list_is_unique(
    first: Seq<(u32, i32)>,
    second: Seq<(u32, i32)>,
    entries: Map<u32, i32>,
)
    requires
        lists_entries(first, entries),
        lists_entries(second, entries),
        ascending(first),
        ascending(second),
    ensures
        first == second,
{
    assert forall|i: int| 0 <= i < first.len() implies first[i] == second[i] by {
        lemma_same_pair(first, second, entries, i);
    }
    assert(first =~= second);
}

/// Lists the entries of `ordered`, each once, in ascending order of the
/// keys.
pub fn ascending_list(ordered: &BTreeMap<u32, i32>) -> (list: Vec<(u32, i32)>)
    ensures
        lists_entries(list@, ordered@),
        ascending(list@),
{
    let ghost all: Seq<(u32, i32)> = ordered.iter().remaining().unref();
    let ghost keys: Seq<u32> = ordered.iter().remaining().map_values(
        |entry: (&u32, &i32)| *entry.0,
    );
    let mut list: Vec<(u32, i32)> = Vec::new();
    for entry in it: ordered.iter()
        invariant
            it.seq().unref() == all,
            list@.len() == it.index(),
            list@ == all.take(it.index()),
    {
        let (key, value) = entry;
        assert(all[it.index()] == (*key, *value));
        assert(all.take(it.index() + 1) =~= all.take(it.index()).push((*key, *value)));
        list.push((*key, *value));
    }
    proof {
        assert(list@ =~= all);
        let walked = ordered.iter().remaining();
        assert(walked.len() == ordered@.dom().len());
        lemma_increasing_keys(keys);
        assert forall|i: int, j: int| 0 <= i < j < list@.len() implies (#[trigger] list@[i]).0 < (
        #[trigger] list@[j]).0 by {
            assert(keys[i] == list@[i].0);
            assert(keys[j] == list@[j].0);
        }
        assert forall|j: int| 0 <= j < list@.len() implies ordered@.contains_key(
            (#[trigger] list@[j]).0,
        ) && ordered@[list@[j].0] == list@[j].1 by {
            assert(ordered@.contains_key(*walked[j].0) && ordered@[*walked[j].0] == *walked[j].1);
        }
        assert forall|key: u32| #[trigger] ordered@.contains_key(key) implies list@.contains(
            (key, ordered@[key]),
        ) by {
            let value = ordered@[key];
            assert(walked.contains((&key, &value)));
            let j = choose|j: int| 0 <= j < walked.len() && walked[j] == (&key, &value);
            assert(list@[j] == (key, value));
        }
    }
    list
}

} // verus!
