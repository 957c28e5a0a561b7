//! The order in which a map keyed by grid positions hands out its keys.

use vstd::prelude::*;
use vstd::std_specs::cmp::OrdSpec;

verus! {

/// `keys` go up: by their first coordinate, then by their second.
pub open spec fn ascending(keys: Seq<(i32, i32)>) -> bool {
    forall|i: int, j: int| 0 <= i < j < keys.len() ==> #[trigger] keys[i].0 < #[trigger] keys[j].0 || (keys[i].0 == keys[j].0 && keys[i].1 < keys[j].1)
}

proof fn lemma_before<K: Ord>(s: Seq<K>, i: int, j: int)
    requires
        vstd::std_specs::btree::increasing_seq(s),
        vstd::laws_cmp::obeys_cmp::<K>(),
        0 <= i < j < s.len(),
    ensures
        s[i].cmp_spec(&s[j]) is Less,
{
    vstd::std_specs::btree::axiom_increasing_seq_meaning::<K>(s);
}

/// Keys that a map hands out in increasing order go up by row, then by
/// column.
pub proof fn lemma_keys_ascend(keys: Seq<(i32, i32)>)
    requires
        vstd::std_specs::btree::increasing_seq(keys),
    ensures
        ascending(keys),
{
    assert(vstd::laws_cmp::obeys_cmp::<i32>());
    assert(vstd::laws_cmp::obeys_cmp::<(i32, i32)>());
    assert forall|i: int, j: int| 0 <= i < j < keys.len() implies #[trigger] keys[i].0 < #[trigger] keys[j].0 || (keys[i].0 == keys[j].0 && keys[i].1 < keys[j].1) by {
        lemma_before(keys, i, j);
    }
}

/// Keys of a map keyed by grid positions can be compared.
pub proof fn lemma_keys_compare()
    ensures
        vstd::std_specs::btree::key_obeys_cmp_spec::<(i32, i32)>(),
{
    assert(vstd::laws_cmp::obeys_cmp::<(i32, i32)>());
}

} // verus!
