use crate::tree::RenderClusterInfo;
use std::collections::BTreeMap;
use vstd::prelude::*;
use vstd::std_specs::btree::{axiom_increasing_seq_meaning, increasing_seq, key_obeys_cmp_spec};
use vstd::std_specs::cmp::OrdSpec;
use vstd::std_specs::iter::IteratorSpec;

verus! {

/// The clusters of a map with their keys, each once, in ascending key order.
pub fn cluster_entries(clusters: &BTreeMap<u64, RenderClusterInfo>) -> (r: Vec<(u64, RenderClusterInfo)>)
    ensures
        r@.len() == clusters@.dom().len(),
        forall|i: int|
            0 <= i < r@.len() ==> clusters@.contains_key((#[trigger] r@[i]).0) && clusters@[r@[i].0]
                == r@[i].1,
        forall|i: int, j: int| 0 <= i < j < r@.len() ==> (#[trigger] r@[i]).0 < (#[trigger] r@[j]).0,
{
    broadcast use vstd::std_specs::btree::group_btree_axioms;
    broadcast use vstd::laws_cmp::group_laws_cmp;

    let mut out: Vec<(u64, RenderClusterInfo)> = Vec::new();
    let walk = clusters.iter();
    proof {
        assert(key_obeys_cmp_spec::<u64>());
        let keys = walk.remaining().map_values(|kv: (&u64, &RenderClusterInfo)| *kv.0);
        assert(increasing_seq(keys));
        axiom_increasing_seq_meaning::<u64>(keys);
        assert forall|i: int, j: int| 0 <= i < j < walk.remaining().len() implies *(
        #[trigger] walk.remaining()[i]).0 < *(#[trigger] walk.remaining()[j]).0 by {
            assert(keys[i] == *walk.remaining()[i].0);
            assert(keys[j] == *walk.remaining()[j].0);
            assert(keys[i].cmp_spec(&keys[j]) is Less);
        }
    }
    for entry in iter: walk
        invariant
            out@.len() == iter.index(),
            forall|i: int, j: int|
                0 <= i < j < iter.seq().len() ==> *(#[trigger] iter.seq()[i]).0 < *(
                #[trigger] iter.seq()[j]).0,
            forall|j: int|
                0 <= j < out@.len() ==> (#[trigger] out@[j]).0 == *iter.seq()[j].0 && out@[j].1
                    == *iter.seq()[j].1,
    {
        out.push((*entry.0, *entry.1));
    }
    out
}

} // verus!
