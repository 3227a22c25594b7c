//! Walking a `BTreeMap` in the order of its keys.

use vstd::prelude::*;
use std::collections::BTreeMap;
use vstd::std_specs::btree::increasing_seq;
use vstd::std_specs::btree::spec_btree_map_iter;
use vstd::std_specs::cmp::OrdSpec;
use vstd::std_specs::iter::IteratorSpec;

verus! {

broadcast use vstd::std_specs::btree::group_btree_axioms;

/// Numbers that a `BTreeMap` yields as increasing grow from each to the next.
proof fn lemma_increasing(keys: Seq<u16>)
    requires
        increasing_seq(keys),
    ensures
        forall|i: int, j: int| 0 <= i < j < keys.len() ==> keys[i] < keys[j],
{
    broadcast use vstd::laws_cmp::group_laws_cmp;

    vstd::std_specs::btree::axiom_increasing_seq_meaning::<u16>(keys);
    assert forall|i: int, j: int| 0 <= i < j < keys.len() implies keys[i] < keys[j] by {
        assert(keys[i].cmp_spec(&keys[j]) is Less);
    }
}

/// The keys of the map, each once, in ascending order.
pub fn keys_in_order<V>(map: &BTreeMap<u16, V>) -> (keys: Vec<u16>)
    ensures
        forall|i: int, j: int| 0 <= i < j < keys.len() ==> keys[i] < keys[j],
        forall|i: int| 0 <= i < keys.len() ==> map@.contains_key(#[trigger] keys[i]),
        forall|key: u16| #[trigger]
            map@.contains_key(key) ==> exists|i: int| 0 <= i < keys.len() && keys[i] == key,
{
    let mut keys: Vec<u16> = Vec::new();
    let ghost all = spec_btree_map_iter(map).remaining();
    for entry in walk: map.iter()
        invariant
            walk.seq() == all,
            all == spec_btree_map_iter(map).remaining(),
            keys@ == all.take(walk.index() as int).map_values(|entry: (&u16, &V)| *entry.0),
    {
        keys.push(*entry.0);
        assert(all.take(walk.index() + 1).map_values(|entry: (&u16, &V)| *entry.0) =~= all.take(
            walk.index() as int,
        ).map_values(|entry: (&u16, &V)| *entry.0).push(*entry.0));
    }
    proof {
        assert(all.take(all.len() as int) =~= all);
        lemma_increasing(all.map_values(|entry: (&u16, &V)| *entry.0));
        assert forall|i: int| 0 <= i < keys.len() implies map@.contains_key(
            #[trigger] keys[i],
        ) by {
            assert(map@.contains_key(*all[i].0));
        }
        assert forall|key: u16| #[trigger] map@.contains_key(key) implies exists|i: int|
            0 <= i < keys.len() && keys[i] == key by {
            assert(all.contains((&key, &map@[key])));
            let i = choose|i: int| 0 <= i < all.len() && all[i] == (&key, &map@[key]);
            assert(keys[i] == key);
        }
    }
    keys
}

} // verus!
