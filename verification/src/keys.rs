//! Score-keyed maps: their keys obey `i64`'s order, and their items come out
//! by increasing key.

use std::collections::btree_map;
use std::collections::BTreeMap;
use vstd::laws_cmp::obeys_cmp;
use vstd::prelude::*;
use vstd::std_specs::btree::{increasing_seq, spec_btree_map_iter};
use vstd::std_specs::cmp::OrdSpec;
use vstd::std_specs::iter::IteratorSpec;

verus! {

broadcast use {vstd::std_specs::btree::group_btree_axioms, vstd::laws_cmp::group_laws_cmp};

/// The `BTreeMap` specifications of vstd apply to maps keyed by `i64`.
pub open spec fn i64_keys_ordered() -> bool {
    obeys_cmp::<i64>()
}

pub proof fn lemma_i64_keys_ordered()
    ensures
        i64_keys_ordered(),
{
}

/// The items of `m`, by strictly increasing key.
pub fn ordered_items(m: &BTreeMap<i64, String>) -> (it: btree_map::Iter<'_, i64, String>)
    ensures
        it == spec_btree_map_iter(m),
        IteratorSpec::decrease(&it) is Some,
        IteratorSpec::initial_value_relation(&it, &it),
        forall|i: int, j: int|
            0 <= i < j < it.remaining().len() ==> *it.remaining()[i].0 < *it.remaining()[j].0,
{
    assert(obeys_cmp::<i64>());
    let it = m.iter();
    let ghost pairs = it.remaining();
    assert(increasing_seq(pairs.map_values(|kv: (&i64, &String)| *kv.0)));
    assert forall|i: int, j: int| 0 <= i < j < pairs.len() implies *pairs[i].0 < *pairs[j].0 by {
        let keys = pairs.map_values(|kv: (&i64, &String)| *kv.0);
        assert(keys[i].cmp_spec(&keys[j]) is Less);
    }
    it
}

} // verus!
