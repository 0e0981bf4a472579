//! Walking over the records of a hashed map.

use super::counts::lemma_listing_sum;
use super::counts::lists;
use super::counts::seq_sum;
use super::counts::sum_counts;
use std::collections::HashMap;
use std::collections::hash_map;
use vstd::prelude::*;
use vstd::std_specs::hash::obeys_key_model;
use vstd::std_specs::iter::IteratorSpec;

verus! {

/// An iterator over the records of `map`. What it will hand out is an
/// enumeration of the records of the map.
pub(crate) fn map_iter<'a, K>(map: &'a HashMap<K, isize>) -> (it: hash_map::Iter<'a, K, isize>)
    requires
        obeys_key_model::<K>(),
    ensures
        it.obeys_prophetic_iter_laws(),
        it.decrease() is Some,
        it.initial_value_relation(&it),
        lists(it.remaining().unref(), map@),
{
    let it = map.iter();
    proof {
        let r = it.remaining();
        let s = r.unref();
        assert forall|i: int, j: int| 0 <= i < j < s.len() implies (#[trigger] s[i]).0 != (
        #[trigger] s[j]).0 by {
            if s[i].0 == s[j].0 {
                assert(map@.contains_key(*r[i].0) && map@[*r[i].0] == *r[i].1);
                assert(map@.contains_key(*r[j].0) && map@[*r[j].0] == *r[j].1);
                assert(r[i] == r[j]);
            }
        }
        assert forall|k: K| #[trigger] map@.contains_key(k) implies exists|i: int|
            0 <= i < s.len() && (#[trigger] s[i]).0 == k by {
            assert(r.contains((&k, &map@[k])));
            let i = choose|i: int| 0 <= i < r.len() && r[i] == (&k, &map@[k]);
            assert(s[i].0 == k);
        }
        assert forall|i: int| 0 <= i < s.len() implies map@.contains_key((#[trigger] s[i]).0)
            && map@[s[i].0] == s[i].1 by {
            assert(map@.contains_key(*r[i].0) && map@[*r[i].0] == *r[i].1);
        }
    }
    it
}

/// The sum of the counts of all records of `map`. It is taken in an `i128`,
/// which holds the sum of as many counts as a map can have records.
pub(crate) fn map_total<K>(map: &HashMap<K, isize>) -> (total: i128)
    requires
        obeys_key_model::<K>(),
    ensures
        total == sum_counts(map@),
{
    let mut total: i128 = 0;
    let it = map_iter(map);
    proof {
        lemma_listing_sum(it.remaining().unref(), map@);
    }
    for record in iter: it
        invariant
            iter.seq().len() == map.len(),
            seq_sum(iter.seq().unref()) == sum_counts(map@),
            total == seq_sum(iter.seq().unref().take(iter.index())),
            -iter.index() * 0x8000_0000_0000_0000 <= total,
            total <= iter.index() * 0x8000_0000_0000_0000,
            iter.index() == iter.seq().len() ==> total == sum_counts(map@),
    {
        proof {
            let all = iter.seq().unref();
            assert(all.take(iter.index() + 1).drop_last() == all.take(iter.index()));
            assert(all.take(all.len() as int) == all);
        }
        total = total + *record.1 as i128;
    }
    total
}

} // verus!
