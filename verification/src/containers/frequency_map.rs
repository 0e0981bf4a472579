//! `FrequencyMap`: the frequencies of the keys of any hashable type.

use super::counts::count_of;
use super::counts::counted;
use super::counts::fits_isize;
use super::counts::lemma_counted_push;
use super::counts::lemma_listing_net_count;
use super::counts::lemma_listing_sum;
use super::counts::lemma_occurrences_bound;
use super::counts::lemma_sum_empty;
use super::counts::lemma_sum_with_count;
use super::counts::lemma_tallied_push;
use super::counts::lemma_with_count_same;
use super::counts::lists;
use super::counts::merged;
use super::counts::net_count;
use super::counts::no_zero_counts;
use super::counts::records_of;
use super::counts::retained;
use super::counts::seq_sum;
use super::counts::sum_counts;
use super::counts::tallied;
use super::counts::valid_records;
use super::counts::with_count;
use super::std_calls::array_into_vec;
use super::std_calls::map_capacity;
use super::std_calls::map_drain;
use super::std_calls::map_remove_entry;
use super::std_calls::map_retain;
use super::std_calls::map_shrink_to;
use super::std_calls::map_shrink_to_fit;
use super::std_calls::size_hint;
use super::walk::map_iter;
use super::walk::map_total;
use std::collections::HashMap;
use std::collections::hash_map;
use std::hash::Hash;
use std::ops::Index;
use vstd::prelude::*;
use vstd::std_specs::hash::obeys_key_model;
use vstd::std_specs::iter::IteratorSpec;

verus! {

/// The sum `total - prev + count`, taken without an intermediate overflow.
fn adjusted_total(total: isize, prev: isize, count: isize) -> (r: isize)
    requires
        fits_isize(total - prev + count),
    ensures
        r == total - prev + count,
{
    let wide: i128 = total as i128 - prev as i128 + count as i128;
    wide as isize
}

/// A container that measures the frequencies of the unique elements it
/// contains.
///
/// Its view is the map from each key with a record to its count.
#[derive(Debug)]
pub struct FrequencyMap<K> {
    /// The map of keys and counts.
    map: HashMap<K, isize>,
    /// The sum of all counts.
    total: isize,
}

impl<K> View for FrequencyMap<K> {
    type V = Map<K, isize>;

    closed spec fn view(&self) -> Map<K, isize> {
        self.map@
    }
}

impl<K> FrequencyMap<K> {
    /// The invariant of the container: its key type can key a hashed map, no
    /// record holds a count of zero, and `total` is the sum of all counts.
    pub closed spec fn wf(&self) -> bool {
        &&& obeys_key_model::<K>()
        &&& valid_records(self.map@)
        &&& self.total == sum_counts(self.map@)
    }

    /// What the invariant says of the view: the records are finitely many,
    /// none holds a count of zero, and their sum can be held in an `isize`.
    pub proof fn lemma_wf(&self)
        requires
            self.wf(),
        ensures
            obeys_key_model::<K>(),
            valid_records(self@),
            fits_isize(sum_counts(self@)),
    {
    }

    /// Creates a new empty instance.
    pub fn new() -> (r: Self)
        requires
            obeys_key_model::<K>(),
        ensures
            r.wf(),
            r@ == Map::<K, isize>::empty(),
            sum_counts(r@) == 0,
    {
        let map = HashMap::new();
        let total: isize = 0;
        proof {
            lemma_sum_empty::<K>();
        }
        Self { map, total }
    }

    /// Creates a new empty instance with room for at least `capacity`
    /// records.
    ///
    /// The contract speaks of the records alone. How much room a hashed map
    /// has is decided by its allocator and is no part of the view.
    pub fn with_capacity(capacity: usize) -> (r: Self)
        requires
            obeys_key_model::<K>(),
        ensures
            r.wf(),
            r@ == Map::<K, isize>::empty(),
            sum_counts(r@) == 0,
    {
        let map = HashMap::with_capacity(capacity);
        let total: isize = 0;
        proof {
            lemma_sum_empty::<K>();
        }
        Self { map, total }
    }

    /// Clears the map, removing all records and resetting the total.
    pub fn clear(&mut self)
        requires
            old(self).wf(),
        ensures
            final(self).wf(),
            final(self)@ == Map::<K, isize>::empty(),
            sum_counts(final(self)@) == 0,
    {
        self.map.clear();
        self.total = 0;
        proof {
            lemma_sum_empty::<K>();
        }
    }
}

impl<K: Eq + Hash> FrequencyMap<K> {
    /// Inserts a record with the given `key` and `count`, in place of any
    /// record that `key` had. A `count` of zero leaves `key` without a
    /// record. Returns the count that `key` had before, if it had a record.
    pub fn insert(&mut self, key: K, count: isize) -> (r: Option<isize>)
        requires
            old(self).wf(),
            fits_isize(sum_counts(old(self)@) - count_of(old(self)@, key) + count),
        ensures
            final(self).wf(),
            final(self)@ == with_count(old(self)@, key, count as int),
            sum_counts(final(self)@) == sum_counts(old(self)@) - count_of(old(self)@, key) + count,
            r == if old(self)@.contains_key(key) {
                Some(old(self)@[key])
            } else {
                None
            },
    {
        proof {
            lemma_sum_with_count(self.map@, key, count as int);
        }
        match self.map.get(&key) {
            Some(v) => {
                let prev = *v;
                let r = Some(prev);
                if 0 == count {
                    self.map.remove(&key);
                } else {
                    self.map.insert(key, count);
                }
                self.total = adjusted_total(self.total, prev, count);
                r
            },
            None => {
                if 0 != count {
                    self.map.insert(key, count);
                    self.total = adjusted_total(self.total, 0, count);
                } else {
                    proof {
                        assert(self.map@.remove(key) =~= self.map@);
                    }
                }
                None
            },
        }
    }

    /// Updates the count of `key` by 1, creating a record with a count of 1
    /// where `key` has none. Where the resulting count is zero the record is
    /// removed.
    pub fn push(&mut self, key: K)
        requires
            old(self).wf(),
            fits_isize(count_of(old(self)@, key) + 1),
            fits_isize(sum_counts(old(self)@) + 1),
        ensures
            final(self).wf(),
            final(self)@ == with_count(old(self)@, key, count_of(old(self)@, key) + 1),
            sum_counts(final(self)@) == sum_counts(old(self)@) + 1,
    {
        self.push_n(key, 1);
    }

    /// Updates the count of `key` by `count`, creating a record with that
    /// count where `key` has none. Where the resulting count is zero the
    /// record is removed.
    pub fn push_n(&mut self, key: K, count: isize)
        requires
            old(self).wf(),
            fits_isize(count_of(old(self)@, key) + count),
            fits_isize(sum_counts(old(self)@) + count),
        ensures
            final(self).wf(),
            final(self)@ == with_count(old(self)@, key, count_of(old(self)@, key) + count),
            sum_counts(final(self)@) == sum_counts(old(self)@) + count,
    {
        proof {
            lemma_sum_with_count(self.map@, key, count_of(self.map@, key) + count);
        }
        let delta = Self::push_into_map_(&mut self.map, key, count);
        self.total = adjusted_total(self.total, 0, delta);
    }

    /// Removes the record of `key`, returning its count if `key` had a
    /// record.
    pub fn remove(&mut self, key: &K) -> (r: Option<isize>)
        requires
            old(self).wf(),
            fits_isize(sum_counts(old(self)@) - count_of(old(self)@, *key)),
        ensures
            final(self).wf(),
            final(self)@ == old(self)@.remove(*key),
            sum_counts(final(self)@) == sum_counts(old(self)@) - count_of(old(self)@, *key),
            r == if old(self)@.contains_key(*key) {
                Some(old(self)@[*key])
            } else {
                None
            },
    {
        proof {
            lemma_sum_with_count(self.map@, *key, 0);
        }
        let r = self.map.remove(key);
        if let Some(v) = &r {
            self.total = adjusted_total(self.total, *v, 0);
        }
        r
    }

    /// Removes the record of `key`, returning the stored key and its count
    /// if `key` had a record.
    pub fn remove_entry(&mut self, key: &K) -> (r: Option<(K, isize)>)
        requires
            old(self).wf(),
            fits_isize(sum_counts(old(self)@) - count_of(old(self)@, *key)),
        ensures
            final(self).wf(),
            final(self)@ == old(self)@.remove(*key),
            sum_counts(final(self)@) == sum_counts(old(self)@) - count_of(old(self)@, *key),
            r == if old(self)@.contains_key(*key) {
                Some((*key, old(self)@[*key]))
            } else {
                None
            },
    {
        proof {
            lemma_sum_with_count(self.map@, *key, 0);
        }
        let r = map_remove_entry(&mut self.map, key);
        if let Some((_, v)) = &r {
            self.total = adjusted_total(self.total, *v, 0);
        }
        r
    }

    /// Reserves room for at least `additional` more records.
    ///
    /// The records and their sum stay as they are. The room that the map has
    /// afterwards is decided by its allocator and is no part of the view.
    pub fn reserve(&mut self, additional: usize)
        requires
            old(self).wf(),
        ensures
            final(self).wf(),
            final(self)@ == old(self)@,
    {
        self.map.reserve(additional);
    }

    /// Shrinks the capacity of the map, down to a lower limit.
    ///
    /// The records and their sum stay as they are. The room that the map has
    /// afterwards is decided by its allocator and is no part of the view.
    pub fn shrink_to(&mut self, min_capacity: usize)
        requires
            old(self).wf(),
        ensures
            final(self).wf(),
            final(self)@ == old(self)@,
    {
        map_shrink_to(&mut self.map, min_capacity)
    }

    /// Shrinks the capacity of the map as much as possible.
    ///
    /// The records and their sum stay as they are. The room that the map has
    /// afterwards is decided by its allocator and is no part of the view.
    pub fn shrink_to_fit(&mut self)
        requires
            old(self).wf(),
        ensures
            final(self).wf(),
            final(self)@ == old(self)@,
    {
        map_shrink_to_fit(&mut self.map)
    }

    /// Indicates whether a record exists for `key`.
    pub fn contains_key(&self, key: &K) -> (r: bool)
        requires
            self.wf(),
        ensures
            r == self@.contains_key(*key),
    {
        self.map.contains_key(key)
    }

    /// Obtains the count of `key`: zero where `key` has no record.
    pub fn get(&self, key: &K) -> (r: isize)
        requires
            self.wf(),
        ensures
            r == count_of(self@, *key),
    {
        *self.get_(key)
    }

    fn get_(&self, key: &K) -> (r: &isize)
        requires
            self.wf(),
        ensures
            *r == count_of(self@, *key),
    {
        match self.map.get(key) {
            Some(count) => count,
            None => &0,
        }
    }

    /// Changes the count of `key` in `map` by `count`, and returns by how
    /// much the sum of the counts has changed.
    fn push_into_map_(map: &mut HashMap<K, isize>, key: K, count: isize) -> (delta: isize)
        requires
            obeys_key_model::<K>(),
            no_zero_counts(old(map)@),
            fits_isize(count_of(old(map)@, key) + count),
        ensures
            final(map)@ == with_count(old(map)@, key, count_of(old(map)@, key) + count),
            delta == count,
    {
        if 0 == count {
            proof {
                lemma_with_count_same(map@, key);
            }
            0
        } else {
            match map.get(&key) {
                Some(v) => {
                    let sum = *v + count;
                    if 0 == sum {
                        map.remove(&key);
                    } else {
                        map.insert(key, sum);
                    }
                },
                None => {
                    map.insert(key, count);
                },
            }
            count
        }
    }
}

impl<K> FrequencyMap<K> {
    /// Returns the number of records that the map can hold without
    /// reallocation.
    ///
    /// The number is the one that the hashed map reports. It is decided by
    /// the allocator of the map, and nothing is promised of it.
    pub fn capacity(&self) -> usize {
        map_capacity(&self.map)
    }

    /// Indicates whether the counts of the map add up to zero.
    pub fn is_empty(&self) -> (r: bool)
        requires
            self.wf(),
        ensures
            r == (sum_counts(self@) == 0),
    {
        self.is_empty_()
    }

    /// Obtains the number of records.
    pub fn len(&self) -> (r: usize)
        requires
            self.wf(),
        ensures
            r == self@.len(),
    {
        self.len_()
    }

    /// Indicates the sum of the counts of all records.
    pub fn total(&self) -> (r: isize)
        requires
            self.wf(),
        ensures
            r == sum_counts(self@),
    {
        self.total_()
    }

    fn is_empty_(&self) -> (r: bool)
        requires
            self.wf(),
        ensures
            r == (sum_counts(self@) == 0),
    {
        0 == self.total
    }

    fn len_(&self) -> (r: usize)
        requires
            self.wf(),
        ensures
            r == self@.len(),
    {
        self.map.len()
    }

    fn total_(&self) -> (r: isize)
        requires
            self.wf(),
        ensures
            r == sum_counts(self@),
    {
        self.total
    }
}

impl<K: Eq + Hash> FrequencyMap<K> {
    /// Moves all the records of `other` into `self`, each with the effect of
    /// `push_n`, and leaves `other` empty.
    pub fn append(&mut self, other: &mut Self)
        requires
            old(self).wf(),
            old(other).wf(),
            forall|k: K| #[trigger]
                old(other)@.contains_key(k) ==> fits_isize(
                    count_of(old(self)@, k) + old(other)@[k],
                ),
            fits_isize(sum_counts(old(self)@) + sum_counts(old(other)@)),
        ensures
            final(self).wf(),
            final(other).wf(),
            final(other)@ == Map::<K, isize>::empty(),
            sum_counts(final(other)@) == 0,
            final(self)@ == merged(old(self)@, old(other)@),
            sum_counts(final(self)@) == sum_counts(old(self)@) + sum_counts(old(other)@),
    {
        let gain = other.total;
        let records = other.drain();
        let ghost a = self.map@;
        let ghost b = old(other)@;
        let ghost s = records@;
        let ghost mut done: int = 0;
        proof {
            assert(s.take(0) == Seq::<(K, isize)>::empty());
            assert(self.map@ =~= records_of(|k: K| count_of(a, k) + net_count(s.take(0), k)));
            lemma_listing_sum(s, b);
        }
        for record in iter: records
            invariant
                obeys_key_model::<K>(),
                valid_records(a),
                valid_records(self.map@),
                lists(s, b),
                other.wf(),
                other@ == Map::<K, isize>::empty(),
                self.total == sum_counts(a),
                gain == sum_counts(b) == seq_sum(s),
                fits_isize(sum_counts(a) + sum_counts(b)),
                iter.seq() == s,
                done == iter.index(),
                forall|k: K| #[trigger]
                    b.contains_key(k) ==> fits_isize(count_of(a, k) + b[k]),
                self.map@ == records_of(|k: K| count_of(a, k) + net_count(s.take(done), k)),
                sum_counts(self.map@) == sum_counts(a) + seq_sum(s.take(done)),
        {
            let (key, count) = record;
            proof {
                assert(s[done] == (key, count));
                assert(s.take(done + 1).drop_last() == s.take(done));
                assert(s.take(done + 1).last() == s[done]);
                assert forall|k: K|
                    fits_isize(count_of(a, k) + net_count(s.take(done), k)) && fits_isize(
                        count_of(a, k) + net_count(s.take(done + 1), k),
                    ) by {
                    lemma_listing_net_count(s, b, done, k);
                    lemma_listing_net_count(s, b, done + 1, k);
                }
                lemma_listing_net_count(s, b, done, key);
                lemma_sum_with_count(self.map@, key, count_of(self.map@, key) + count);
            }
            Self::push_into_map_(&mut self.map, key, count);
            proof {
                assert(self.map@ =~= records_of(
                    |k: K| count_of(a, k) + net_count(s.take(done + 1), k),
                ));
                done = done + 1;
            }
        }
        proof {
            assert(s.take(done) == s);
            assert forall|k: K| net_count(s, k) == count_of(b, k) by {
                lemma_listing_net_count(s, b, s.len() as int, k);
            }
            assert(self.map@ =~= merged(a, b));
        }
        self.total = adjusted_total(self.total, 0, gain);
    }

    /// Clears the map, returning all of its records. Keeps the allocated
    /// memory for reuse.
    pub fn drain(&mut self) -> (records: Vec<(K, isize)>)
        requires
            old(self).wf(),
        ensures
            final(self).wf(),
            final(self)@ == Map::<K, isize>::empty(),
            sum_counts(final(self)@) == 0,
            lists(records@, old(self)@),
            seq_sum(records@) == sum_counts(old(self)@),
    {
        self.total = 0;
        let records = map_drain(&mut self.map);
        proof {
            assert(self.map@ =~= Map::<K, isize>::empty());
            lemma_sum_empty::<K>();
            lemma_listing_sum(records@, old(self)@);
        }
        records
    }

    /// Creates an instance from an iterator of keys: each key is counted
    /// once for each time the iterator hands it out.
    pub fn from_iter<I: Iterator<Item = K>>(iter: I) -> (r: Self)
        requires
            obeys_key_model::<K>(),
            iter.obeys_prophetic_iter_laws(),
            iter.decrease() is Some,
            iter.remaining().len() <= isize::MAX,
        ensures
            r.wf(),
            r@ == counted(iter.remaining()),
            sum_counts(r@) == iter.remaining().len(),
    {
        let (min_size, max_size) = size_hint(&iter);
        let capacity = match max_size {
            Some(max_size) => max_size,
            None => min_size,
        };
        let mut map: HashMap<K, isize> = HashMap::with_capacity(capacity);
        let mut total: isize = 0;
        let mut it = iter;
        let ghost mut done: Seq<K> = Seq::empty();
        proof {
            assert(done + it.remaining() == iter.remaining());
            assert(map@ =~= counted(done));
            lemma_sum_empty::<K>();
        }
        loop
            invariant
                obeys_key_model::<K>(),
                it.obeys_prophetic_iter_laws(),
                it.decrease() is Some,
                iter.remaining().len() <= isize::MAX,
                done + it.remaining() == iter.remaining(),
                valid_records(map@),
                map@ == counted(done),
                total == done.len(),
                total == sum_counts(map@),
            ensures
                done == iter.remaining(),
            decreases it.decrease()->0,
        {
            match it.next() {
                Some(key) => {
                    proof {
                        let all = iter.remaining();
                        let n = done.len() as int;
                        assert(all.take(n) == done);
                        assert(all[n] == key);
                        lemma_occurrences_bound(all, n, key);
                        lemma_occurrences_bound(all, n + 1, key);
                        assert(all.take(n + 1) == done.push(key));
                        assert(done.push(key).drop_last() == done);
                        lemma_counted_push(done, key);
                        lemma_sum_with_count(map@, key, count_of(map@, key) + 1);
                        assert(done.push(key) + it.remaining() == all);
                    }
                    Self::push_into_map_(&mut map, key, 1);
                    total = total + 1;
                    proof {
                        done = done.push(key);
                    }
                },
                None => {
                    proof {
                        assert(done == iter.remaining());
                    }
                    break ;
                },
            }
        }
        Self { map, total }
    }

    /// Creates an instance from an array of keys: each key is counted once
    /// for each time it stands in the array.
    pub fn from_keys<const N: usize>(value: [K; N]) -> (r: Self)
        requires
            obeys_key_model::<K>(),
            N <= isize::MAX,
        ensures
            r.wf(),
            r@ == counted(value@),
            sum_counts(r@) == N,
    {
        let keys = array_into_vec(value);
        let mut map: HashMap<K, isize> = HashMap::with_capacity(N);
        let total: isize = N as isize;
        let ghost s = keys@;
        let ghost mut done: int = 0;
        proof {
            assert(s.take(0) == Seq::<K>::empty());
            assert(map@ =~= counted(s.take(0)));
            lemma_sum_empty::<K>();
        }
        for key in iter: keys
            invariant
                obeys_key_model::<K>(),
                s.len() == N <= isize::MAX,
                iter.seq() == s,
                done == iter.index(),
                valid_records(map@),
                map@ == counted(s.take(done)),
                sum_counts(map@) == done,
        {
            proof {
                lemma_occurrences_bound(s, done, key);
                lemma_occurrences_bound(s, done + 1, key);
                assert(s.take(done + 1) == s.take(done).push(key));
                assert(s.take(done).push(key).drop_last() == s.take(done));
                lemma_counted_push(s.take(done), key);
                lemma_sum_with_count(map@, key, count_of(map@, key) + 1);
            }
            Self::push_into_map_(&mut map, key, 1);
            proof {
                done = done + 1;
            }
        }
        proof {
            assert(s.take(done) == s);
        }
        Self { map, total }
    }

    /// Creates an instance from an array of pairs of a key and a count: the
    /// pairs are applied in order, each with the effect of `push_n`.
    pub fn from_pairs<const N: usize>(value: [(K, isize); N]) -> (r: Self)
        requires
            obeys_key_model::<K>(),
            forall|n: int, k: K|
                0 <= n <= N ==> fits_isize(#[trigger] net_count(value@.take(n), k)),
            forall|n: int| 0 <= n <= N ==> fits_isize(#[trigger] seq_sum(value@.take(n))),
        ensures
            r.wf(),
            r@ == tallied(value@),
            sum_counts(r@) == seq_sum(value@),
    {
        let pairs = array_into_vec(value);
        let mut map: HashMap<K, isize> = HashMap::with_capacity(N);
        let mut total: isize = 0;
        let ghost s = pairs@;
        let ghost mut done: int = 0;
        proof {
            assert(s.take(0) == Seq::<(K, isize)>::empty());
            assert(map@ =~= tallied(s.take(0)));
            lemma_sum_empty::<K>();
        }
        for pair in iter: pairs
            invariant
                obeys_key_model::<K>(),
                s.len() == N,
                iter.seq() == s,
                done == iter.index(),
                forall|n: int, k: K|
                    0 <= n <= N ==> fits_isize(#[trigger] net_count(s.take(n), k)),
                forall|n: int| 0 <= n <= N ==> fits_isize(#[trigger] seq_sum(s.take(n))),
                valid_records(map@),
                map@ == tallied(s.take(done)),
                total == seq_sum(s.take(done)),
                total == sum_counts(map@),
        {
            let (key, count) = pair;
            proof {
                let t = s.take(done);
                assert(s.take(done + 1) == t.push((key, count)));
                assert(fits_isize(net_count(s.take(done), key)));
                assert(fits_isize(net_count(s.take(done + 1), key)));
                assert(fits_isize(seq_sum(s.take(done + 1))));
                assert(t.push((key, count)).drop_last() == t);
                lemma_tallied_push(t, key, count);
                lemma_sum_with_count(map@, key, count_of(map@, key) + count);
            }
            let delta = Self::push_into_map_(&mut map, key, count);
            total = total + delta;
            proof {
                done = done + 1;
            }
        }
        proof {
            assert(s.take(done) == s);
        }
        Self { map, total }
    }
}

impl<K> FrequencyMap<K> {
    /// Retains only the records for which `f` answers `true`.
    pub fn retain<F>(&mut self, f: F) where F: Fn(&K, isize) -> bool
        requires
            old(self).wf(),
            forall|k: K| #[trigger]
                old(self)@.contains_key(k) ==> call_requires(f, (&k, old(self)@[k])),
            forall|m: Map<K, isize>|
                m.dom().finite() && #[trigger] retained(old(self)@, m, f) ==> fits_isize(
                    sum_counts(m),
                ),
        ensures
            final(self).wf(),
            retained(old(self)@, final(self)@, f),
    {
        assert(self@ == self.map@);
        map_retain(&mut self.map, f);
        let total = map_total(&self.map);
        self.total = total as isize;
    }

    /// An iterator over the records of the map, in no particular order.
    pub fn iter(&self) -> (it: hash_map::Iter<'_, K, isize>)
        requires
            self.wf(),
        ensures
            it.obeys_prophetic_iter_laws(),
            it.decrease() is Some,
            it.initial_value_relation(&it),
            lists(it.remaining().unref(), self@),
    {
        map_iter(&self.map)
    }
}

impl<K> Default for FrequencyMap<K> {
    /// Creates an empty instance.
    fn default() -> (r: Self)
        ensures
            r@ == Map::<K, isize>::empty(),
            sum_counts(r@) == 0,
            obeys_key_model::<K>() ==> r.wf(),
    {
        let map = HashMap::new();
        let total: isize = 0;
        proof {
            lemma_sum_empty::<K>();
        }
        Self { map, total }
    }
}

impl<K: Clone> Clone for FrequencyMap<K> {
    /// A map with the same records.
    fn clone(&self) -> (r: Self)
        ensures
            r@ == self@,
            self.wf() ==> r.wf(),
    {
        Self { map: self.map.clone(), total: self.total }
    }
}

impl<K: Eq + Hash> Index<&K> for FrequencyMap<K> {
    type Output = isize;

    /// The count of `key`: zero where `key` has no record.
    fn index(&self, key: &K) -> (r: &isize)
        ensures
            *r == count_of(self@, *key),
    {
        self.get_(key)
    }
}

impl<K: Eq + Hash> vstd::std_specs::core::IndexSpecImpl<&K> for FrequencyMap<K> {
    open spec fn index_req(&self, key: &&K) -> bool {
        self.wf()
    }
}

} // verus!
