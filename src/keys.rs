use vstd::prelude::*;
use std::collections::HashMap;
use vstd::std_specs::iter::IteratorSpec;

verus! {

broadcast use vstd::std_specs::hash::group_hash_axioms;

/// The keys of `m`, each once, in the map's iteration order.
pub fn key_list<V>(m: &HashMap<u32, V>) -> (r: Vec<u32>)
    ensures
        r@.no_duplicates(),
        r@.to_set() == m@.dom(),
{
    let mut r: Vec<u32> = Vec::new();
    let keys = m.keys();
    let ghost ks = keys.remaining().unref();
    proof {
        assert(ks.to_set() == m@.dom());
    }
    for k in it: keys
        invariant
            r@ == it.seq().unref().subrange(0, it.index() as int),
            it.seq().unref() == ks,
            ks.to_set() == m@.dom(),
            ks.no_duplicates(),
    {
        r.push(*k);
    }
    assert(r@ =~= ks);
    r
}

} // verus!
