use std::collections::HashMap;
use vstd::prelude::*;
use vstd::std_specs::iter::IteratorSpec;

verus! {

broadcast use vstd::std_specs::hash::group_hash_axioms;

/// The map `m` with `value - 1` taken from each of its values.
pub open spec fn lowered(m: Map<usize, usize>, value: usize) -> Map<usize, usize> {
    Map::new(|k: usize| m.contains_key(k), |k: usize| (m[k] - (value - 1)) as usize)
}

/// Takes `value - 1` from every value of the map and leaves its keys as they are.
pub fn subtract_from_all_keys(map: HashMap<usize, usize>, value: usize) -> (r: HashMap<
    usize,
    usize,
>)
    requires
        value >= 1,
        forall|k: usize| map@.contains_key(k) ==> #[trigger] map@[k] >= value - 1,
    ensures
        r@ == lowered(map@, value),
{
    let mut out: HashMap<usize, usize> = HashMap::new();
    let ghost keys: Seq<usize> = map.keys().remaining().unref();
    for key in it: map.keys()
        invariant
            value >= 1,
            forall|k: usize| map@.contains_key(k) ==> #[trigger] map@[k] >= value - 1,
            it.seq().unref() == keys,
            keys.to_set() == map@.dom(),
            forall|k: usize| #[trigger]
                out@.contains_key(k) ==> map@.contains_key(k) && out@[k] == map@[k] - (value - 1),
            forall|i: int| 0 <= i < it.index() ==> out@.contains_key(#[trigger] keys[i]),
    {
        assert(keys[it.index() as int] == *key);
        assert(keys.to_set().contains(*key));
        match map.get(key) {
            Some(v) => {
                out.insert(*key, *v - (value - 1));
            },
            None => {},
        }
    }
    assert forall|k: usize| map@.contains_key(k) implies out@.contains_key(k) by {
        assert(keys.to_set().contains(k));
        let i = choose|i: int| 0 <= i < keys.len() && keys[i] == k;
        assert(out@.contains_key(keys[i]));
    }
    assert(out@ =~= lowered(map@, value));
    out
}

} // verus!
