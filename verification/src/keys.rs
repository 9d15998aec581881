//! Ascending listings of ordered collections.

use crate::model::{ascending, lemma_sorted_keys, sorted_keys};
use std::collections::{BTreeMap, BTreeSet};
use vstd::prelude::*;
use vstd::std_specs::btree::*;
use vstd::std_specs::cmp::OrdSpec;
use vstd::std_specs::iter::IteratorSpec;

verus! {

proof fn lemma_increasing_is_ascending(all: Seq<&u64>)
    requires
        increasing_seq(all),
    ensures
        ascending(all.unref()),
{
    assert(vstd::laws_cmp::obeys_cmp::<&u64>()) by {
        reveal(vstd::laws_cmp::obeys_cmp_partial_ord);
        reveal(vstd::laws_cmp::obeys_cmp_ord);
        reveal(vstd::laws_eq::obeys_eq_spec_properties);
    }
    let keys = all.unref();
    assert forall|i: int, j: int| 0 <= i < j < keys.len() implies keys[i] < keys[j] by {
        assert(OrdSpec::cmp_spec(&all[i], &all[j]) is Less);
    }
}

/// The keys of a map, ascending.
pub fn map_keys<V>(map: &BTreeMap<u64, V>) -> (keys: Vec<u64>)
    ensures
        ascending(keys@),
        keys@.to_set() == map@.dom(),
        keys@ == sorted_keys(map@.dom()),
{
    let mut keys: Vec<u64> = Vec::new();
    let ghost all = spec_keys_iter(map).remaining();
    for key in it: map.keys()
        invariant
            it.seq() == all,
            keys@.len() == it.index(),
            forall|i: int| 0 <= i < keys@.len() ==> keys@[i] == *all[i],
    {
        keys.push(*key);
    }
    proof {
        assert(keys@ =~= all.unref());
        lemma_increasing_is_ascending(all);
        lemma_sorted_keys(keys@, map@.dom());
    }
    keys
}

/// The elements of a set, ascending.
pub fn set_elements(set: &BTreeSet<u64>) -> (elements: Vec<u64>)
    ensures
        ascending(elements@),
        elements@.to_set() == set@,
        elements@ == sorted_keys(set@),
{
    let mut elements: Vec<u64> = Vec::new();
    let ghost all = spec_btree_keys_iter(set).remaining();
    for element in it: set.iter()
        invariant
            it.seq() == all,
            elements@.len() == it.index(),
            forall|i: int| 0 <= i < elements@.len() ==> elements@[i] == *all[i],
    {
        elements.push(*element);
    }
    proof {
        assert(elements@ =~= all.unref());
        lemma_increasing_is_ascending(all);
        lemma_sorted_keys(elements@, set@);
    }
    elements
}

/// Whether `kind` is one of `kinds`.
pub fn lists(kinds: &Vec<u64>, kind: u64) -> (listed: bool)
    ensures
        listed == kinds@.contains(kind),
{
    let mut i: usize = 0;
    while i < kinds.len()
        invariant
            i <= kinds@.len(),
            forall|j: int| 0 <= j < i ==> kinds@[j] != kind,
        decreases kinds@.len() - i,
    {
        if kinds[i] == kind {
            assert(kinds@[i as int] == kind);
            return true;
        }
        i = i + 1;
    }
    false
}

} // verus!
