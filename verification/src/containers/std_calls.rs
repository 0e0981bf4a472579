//! The calls into the standard library that the containers make and that
//! come without a specification. Each contract in this file is taken on
//! trust from the documentation of the function that it names.

use super::counts::lists;
use super::counts::retained;
use std::collections::HashMap;
use std::hash::Hash;
use vstd::prelude::*;
use vstd::std_specs::hash::obeys_key_model;

verus! {

/// `char::from_u32`: the `char` with the scalar value `i`, and `None` where
/// `i` is a surrogate or lies above the largest code point.
pub assume_specification[ char::from_u32 ](i: u32) -> (r: Option<char>)
    ensures
        r == (if i <= 0xD7FF || (0xE000 <= i && i <= 0x10FFFF) {
            Some(i as char)
        } else {
            None::<char>
        }),
;

/// `HashMap::capacity`: the number of records that the map can hold without
/// reallocating. Nothing is claimed of the number.
#[verifier::external_body]
pub(crate) fn map_capacity<K>(map: &HashMap<K, isize>) -> (capacity: usize) {
    map.capacity()
}

/// `HashMap::shrink_to`: gives storage back, down to a lower limit. The
/// records stay as they are.
#[verifier::external_body]
pub(crate) fn map_shrink_to<K: Eq + Hash>(map: &mut HashMap<K, isize>, min_capacity: usize)
    ensures
        final(map)@ == old(map)@,
{
    map.shrink_to(min_capacity)
}

/// `HashMap::shrink_to_fit`: gives back as much storage as it can. The
/// records stay as they are.
#[verifier::external_body]
pub(crate) fn map_shrink_to_fit<K: Eq + Hash>(map: &mut HashMap<K, isize>)
    ensures
        final(map)@ == old(map)@,
{
    map.shrink_to_fit()
}

/// `HashMap::remove_entry`: takes the record of `key` out of the map and
/// returns it, with the key as the map held it.
#[verifier::external_body]
pub(crate) fn map_remove_entry<K: Eq + Hash>(
    map: &mut HashMap<K, isize>,
    key: &K,
) -> (r: Option<(K, isize)>)
    ensures
        obeys_key_model::<K>() ==> final(map)@ == old(map)@.remove(*key),
        obeys_key_model::<K>() ==> r == (if old(map)@.contains_key(*key) {
            Some((*key, old(map)@[*key]))
        } else {
            None
        }),
{
    map.remove_entry(key)
}

/// `HashMap::retain`: asks `f` of each record, once, and keeps the records
/// for which it answers `true`.
#[verifier::external_body]
pub(crate) fn map_retain<K, F: Fn(&K, isize) -> bool>(map: &mut HashMap<K, isize>, f: F)
    requires
        forall|k: K| #[trigger] old(map)@.contains_key(k) ==> call_requires(f, (&k, old(map)@[k])),
    ensures
        retained(old(map)@, final(map)@, f),
{
    map.retain(|k, v| f(k, *v))
}

/// `HashMap::drain`: empties the map and hands out the records that it
/// held, each once, here gathered in a vector.
#[verifier::external_body]
pub(crate) fn map_drain<K>(map: &mut HashMap<K, isize>) -> (records: Vec<(K, isize)>)
    ensures
        forall|k: K| !final(map)@.contains_key(k),
        obeys_key_model::<K>() ==> lists(records@, old(map)@),
{
    map.drain().collect()
}

/// `Vec::from` on an array: a vector of the items of the array, in order.
#[verifier::external_body]
pub(crate) fn array_into_vec<T, const N: usize>(items: [T; N]) -> (v: Vec<T>)
    ensures
        v@ == items@,
{
    Vec::from(items)
}

/// `Iterator::size_hint`: bounds on how many items are left. Nothing is
/// claimed of them.
#[verifier::external_body]
pub(crate) fn size_hint<I: Iterator>(iter: &I) -> (bounds: (usize, Option<usize>)) {
    iter.size_hint()
}

} // verus!
