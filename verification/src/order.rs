use vstd::prelude::*;
use vstd::std_specs::cmp::OrdSpec;

verus! {

/// The entries that iterating a `BTreeMap<i16, _>` yields come in strictly
/// increasing key order.
pub proof fn lemma_btree_entries_increasing<V>(entries: Seq<(&i16, &V)>)
    requires
        vstd::std_specs::btree::increasing_seq(entries.map_values(|kv: (&i16, &V)| *kv.0)),
    ensures
        forall|i: int, j: int| 0 <= i < j < entries.len() ==> *entries[i].0 < *entries[j].0,
{
    let keys = entries.map_values(|kv: (&i16, &V)| *kv.0);
    assert(vstd::laws_cmp::obeys_cmp::<i16>());
    assert forall|i: int, j: int| 0 <= i < j < entries.len() implies *entries[i].0 < *entries[j].0 by {
        assert(keys[i].cmp_spec(&keys[j]) is Less);
    }
}

} // verus!
