//! Ordered maps keyed by symbol ids.
use std::collections::{BTreeMap, BTreeSet};
use vstd::prelude::*;

verus! {

broadcast use {
    vstd::std_specs::btree::group_btree_axioms,
    vstd::laws_cmp::group_laws_cmp,
};

/// `ks` is strictly ascending.
pub open spec fn ascending(ks: Seq<u32>) -> bool {
    forall|i: int, j: int| 0 <= i < j < ks.len() ==> ks[i] < ks[j]
}

/// `ks` lists the keys of `m` in ascending order.
pub open spec fn lists_keys<V>(ks: Seq<u32>, m: Map<u32, V>) -> bool {
    &&& ascending(ks)
    &&& forall|k: u32| #[trigger] ks.contains(k) <==> m.contains_key(k)
}

/// The keys of a map, in ascending order.
pub fn sorted_keys<V>(m: &BTreeMap<u32, V>) -> (ks: Vec<u32>)
    ensures
        lists_keys(ks@, m@),
        ks@.len() == m@.len(),
{
    let mut ks: Vec<u32> = Vec::new();
    let iter = m.iter();
    let ghost pairs = vstd::std_specs::iter::IteratorSpec::remaining(&iter);
    let ghost keys = pairs.map_values(|kv: (&u32, &V)| *kv.0);
    for kv in it: iter
        invariant
            it.seq() == pairs,
            ks@.len() == it.index(),
            forall|i: int| 0 <= i < ks@.len() ==> ks@[i] == *pairs[i].0,
    {
        ks.push(*kv.0);
    }
    proof {
        assert(ks@ =~= keys);
        assert(vstd::std_specs::btree::increasing_seq(keys));
        assert forall|i: int, j: int| 0 <= i < j < ks@.len() implies ks@[i] < ks@[j] by {
            assert(vstd::std_specs::cmp::OrdSpec::cmp_spec(&keys[i], &keys[j]) is Less);
        }
        assert forall|k: u32| #[trigger] ks@.contains(k) <==> m@.contains_key(k) by {
            if ks@.contains(k) {
                let i = ks@.index_of(k);
                assert(m@.contains_key(*pairs[i].0));
            }
            if m@.contains_key(k) {
                assert(pairs.contains((&k, &m@[k])));
                let i = pairs.index_of((&k, &m@[k]));
                assert(ks@[i] == k);
            }
        }
    }
    ks
}

/// The members of a set.
pub fn set_members(s: &BTreeSet<u32>) -> (r: Vec<u32>)
    ensures
        forall|k: u32| #[trigger] r@.contains(k) <==> s@.contains(k),
        r@.len() == s@.len(),
{
    let mut out: Vec<u32> = Vec::new();
    for k in it: s.iter()
        invariant
            out@.len() == it.index(),
            forall|i: int| 0 <= i < out@.len() ==> out@[i] == *it.seq()[i],
    {
        out.push(*k);
    }
    proof {
        let t = vstd::std_specs::iter::IteratorSpec::remaining(
            &vstd::std_specs::btree::spec_btree_keys_iter(s),
        );
        assert(out@ =~= t.unref());
        assert(t.unref().to_set() == s@);
        assert forall|k: u32| #[trigger] out@.contains(k) <==> s@.contains(k) by {
            assert(out@.to_set().contains(k) <==> s@.contains(k));
        }
    }
    out
}

} // verus!
