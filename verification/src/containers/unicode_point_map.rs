//! `UnicodePointMap`: the frequencies of Unicode scalar values, with the low
//! code points in contiguous storage and the others in a hashed map.

use super::counts::count_of;
use super::counts::counted;
use super::counts::fits_i64;
use super::counts::fits_isize;
use super::counts::lemma_counted_push;
use super::counts::lemma_occurrences_bound;
use super::counts::lemma_sum_empty;
use super::counts::lemma_sum_with_count;
use super::counts::lemma_tallied_push;
use super::counts::lemma_with_count_same;
use super::counts::lists;
use super::counts::net_count;
use super::counts::occurrences;
use super::counts::seq_sum;
use super::counts::sum_counts;
use super::counts::tallied;
use super::counts::valid_records;
use super::counts::with_count;
use super::std_calls::map_capacity;
use super::walk::map_iter;
use std::collections::HashMap;
use std::ops::Index;
use vstd::prelude::*;
use vstd::set_lib::lemma_int_range;
use vstd::set_lib::lemma_len_subset;
use vstd::set_lib::lemma_map_size;
use vstd::set_lib::set_int_range;
use vstd::std_specs::iter::IteratorSpec;

verus! {

/// The ceiling of the contiguous storage of a map made by `default`.
pub const DEFAULT_CONTIGUOUS_CEILING: char = '\u{200}';

/// The largest scalar value that a `char` can hold.
pub const MAXIMUM_VALID_CHAR_VALUE: u32 = 0x10ffff;

/// Whether `i` is a Unicode scalar value: a code point that is no surrogate.
pub open spec fn is_scalar_value(i: int) -> bool {
    0 <= i <= 0xD7FF || 0xE000 <= i <= 0x10FFFF
}

/// The index that stands for `c` in contiguous storage: its scalar value,
/// held down to the largest `usize` where that is narrower than a `char`.
pub fn char_to_valid_index(c: char) -> (ix: usize)
    ensures
        ix as int == if c as int > usize::MAX as int {
            usize::MAX as int
        } else {
            c as int
        },
{
    let code: u32 = c as u32;
    if code as u64 > usize::MAX as u64 {
        usize::MAX
    } else {
        code as usize
    }
}

/// The sum `total - prev + count`, taken without an intermediate overflow.
fn adjusted_total(total: i64, prev: isize, count: isize) -> (r: i64)
    requires
        fits_i64(total - prev + count),
    ensures
        r == total - prev + count,
{
    let wide: i128 = total as i128 - prev as i128 + count as i128;
    wide as i64
}

/// A `char` holds a scalar value, and no two of them hold the same one.
proof fn lemma_char_code(c: char, d: char)
    ensures
        is_scalar_value(c as int),
        c as u32 == c as int,
        c != d ==> c as int != d as int,
{
}

/// A set of `char`s has no more members than there are code points.
proof fn lemma_char_set_bound(s: Set<char>)
    requires
        s.finite(),
    ensures
        s.len() <= 0x110000,
{
    let f = |c: char| c as int;
    let img = s.map(f);
    let all = set_int_range(0, 0x110000);
    assert forall|c: char, d: char|
        s.contains(c) && s.contains(d) && #[trigger] f(c) == #[trigger] f(d) implies c == d by {
        lemma_char_code(c, d);
    }
    assert(vstd::relations::injective_on(f, s));
    lemma_map_size(s, img, f);
    lemma_int_range(0, 0x110000);
    assert forall|i: int| img.contains(i) implies all.contains(i) by {
        let c = choose|c: char| s.contains(c) && f(c) == i;
        lemma_char_code(c, c);
    }
    lemma_len_subset(img, all);
}

/// A container that measures the frequencies of the unique code points that
/// it contains.
///
/// Its view is the map from each code point with a record to its count.
#[derive(Debug)]
pub struct UnicodePointMap {
    /// Contiguous storage for the code points below the ceiling.
    vec: Vec<isize>,
    /// The records of the code points at or above the ceiling, by scalar
    /// value.
    map: HashMap<u32, isize>,
    /// The number of unique code points that have a record.
    len: usize,
    /// The sum of all counts.
    total: i64,
}

impl View for UnicodePointMap {
    type V = Map<char, isize>;

    closed spec fn view(&self) -> Map<char, isize> {
        Map::new(|c: char| self.count(c) != 0, |c: char| self.count(c) as isize)
    }
}

impl UnicodePointMap {
    /// The count stored for `c`, in whichever tier holds it.
    spec fn count(&self, c: char) -> int {
        if (c as int) < self.vec@.len() {
            self.vec@[c as int] as int
        } else if self.map@.contains_key(c as u32) {
            self.map@[c as u32] as int
        } else {
            0
        }
    }

    /// The boundary between the two tiers: code points below it are held in
    /// contiguous storage.
    pub closed spec fn ceiling(&self) -> nat {
        self.vec@.len()
    }

    /// The two tiers are laid out as they should be: contiguous storage ends
    /// at or below the largest scalar value and holds zero at each surrogate,
    /// and the hashed map holds scalar values at or above the ceiling only,
    /// none of them with a count of zero.
    spec fn tiers_ok(&self) -> bool {
        &&& self.vec@.len() <= 0x10FFFF
        &&& forall|i: int|
            0 <= i < self.vec@.len() && !is_scalar_value(i) ==> #[trigger] self.vec@[i] == 0
        &&& forall|k: u32| #[trigger]
            self.map@.contains_key(k) ==> k >= self.vec@.len() && is_scalar_value(k as int)
                && self.map@[k] != 0
    }

    /// The invariant of the container: the tiers are laid out as they should
    /// be, `len` is the number of records and `total` the sum of their
    /// counts.
    pub closed spec fn wf(&self) -> bool {
        &&& self.tiers_ok()
        &&& self@.dom().finite()
        &&& self.len == self@.dom().len()
        &&& self.total == sum_counts(self@)
    }

    /// The view gives each code point the count that is stored for it.
    proof fn lemma_view(&self)
        ensures
            forall|c: char| count_of(self@, c) == self.count(c),
    {
    }

    /// What the invariant says of the view: the records are finitely many,
    /// no more than there are code points, none holds a count of zero, and
    /// their sum can be held in an `i64`.
    pub proof fn lemma_wf(&self)
        requires
            self.wf(),
        ensures
            valid_records(self@),
            self@.len() <= 0x110000,
            fits_i64(sum_counts(self@)),
    {
        lemma_char_set_bound(self@.dom());
    }

    /// What setting the count of `c` to `n` does to a well-formed container:
    /// the view changes at `c` alone, and the number of records and the sum
    /// follow.
    proof fn lemma_count_set(pre: Self, post: Self, c: char, n: int)
        requires
            pre.wf(),
            fits_isize(n),
            post.vec@.len() == pre.vec@.len(),
            post.vec@ == pre.vec@ || (c as int) < pre.vec@.len() && post.vec@ == pre.vec@.update(
                c as int,
                n as isize,
            ),
            post.map@ == pre.map@ || post.map@ == with_count(pre.map@, c as u32, n) && (c as int)
                >= pre.vec@.len(),
            post.vec@ == pre.vec@ && post.map@ == pre.map@ ==> pre.count(c) == n,
        ensures
            forall|d: char| post.count(d) == if d == c { n } else { pre.count(d) },
            post.tiers_ok(),
            post@ == with_count(pre@, c, n),
            post@.dom().finite(),
            post@.dom().len() == pre@.dom().len() + (if n != 0 { 1int } else { 0 }) - (if pre.count(
                c,
            ) != 0 { 1int } else { 0 }),
            post@.dom().len() <= 0x110000,
            sum_counts(post@) == sum_counts(pre@) - pre.count(c) + n,
    {
        assert forall|d: char| count_of(pre@, d) == pre.count(d) && post.count(d) == if d == c {
            n
        } else {
            pre.count(d)
        } by {
            lemma_char_code(d, c);
        }
        lemma_char_code(c, c);
        assert(post@ =~= with_count(pre@, c, n));
        lemma_sum_with_count(pre@, c, n);
        lemma_char_set_bound(post@.dom());
    }

    /// Creates a new instance whose contiguous storage covers the code points
    /// below `default_contiguous_ceiling`.
    pub fn new(default_contiguous_ceiling: char) -> (r: Self)
        ensures
            r.wf(),
            r@ == Map::<char, isize>::empty(),
            sum_counts(r@) == 0,
            r.ceiling() == default_contiguous_ceiling as nat,
    {
        let code: u32 = default_contiguous_ceiling as u32;
        let bounded: u32 = if code > MAXIMUM_VALID_CHAR_VALUE {
            MAXIMUM_VALID_CHAR_VALUE
        } else {
            code
        };
        let ceiling: usize = if bounded as u64 > usize::MAX as u64 {
            usize::MAX
        } else {
            bounded as usize
        };
        let vec = vec![0isize; ceiling];
        let map = HashMap::new();
        let r = UnicodePointMap { vec, map, len: 0, total: 0 };
        proof {
            assert forall|c: char| r.count(c) == 0 by {
                lemma_char_code(c, c);
            }
            assert(r@ =~= Map::<char, isize>::empty());
            lemma_sum_empty::<char>();
        }
        r
    }

    /// Inserts a record for `c` with the given `count`, in place of any
    /// record that `c` had. A `count` of zero leaves `c` without a record.
    /// Returns the count that `c` had before, if it had a record.
    pub fn insert(&mut self, c: char, count: isize) -> (r: Option<isize>)
        requires
            old(self).wf(),
            fits_i64(sum_counts(old(self)@) - count_of(old(self)@, c) + count),
        ensures
            final(self).wf(),
            final(self).ceiling() == old(self).ceiling(),
            final(self)@ == with_count(old(self)@, c, count as int),
            sum_counts(final(self)@) == sum_counts(old(self)@) - count_of(old(self)@, c) + count,
            r == if old(self)@.contains_key(c) {
                Some(old(self)@[c])
            } else {
                None
            },
    {
        let ghost pre = *self;
        proof {
            lemma_char_set_bound(self@.dom());
            lemma_char_code(c, c);
        }
        let ix = char_to_valid_index(c);
        if ix < self.vec.len() {
            let prev = self.vec[ix];
            self.vec.set(ix, count);
            if prev == 0 {
                if count != 0 {
                    self.len += 1;
                }
            } else if count == 0 {
                assert(pre@.dom().contains(c));
                self.len -= 1;
            }
            self.total = adjusted_total(self.total, prev, count);
            proof {
                Self::lemma_count_set(pre, *self, c, count as int);
            }
            if prev == 0 {
                None
            } else {
                Some(prev)
            }
        } else {
            let code: u32 = c as u32;
            match self.map.get(&code) {
                Some(v) => {
                    let prev = *v;
                    if count == 0 {
                        self.map.remove(&code);
                        assert(pre@.dom().contains(c));
                        self.len -= 1;
                    } else {
                        self.map.insert(code, count);
                    }
                    self.total = adjusted_total(self.total, prev, count);
                    proof {
                        Self::lemma_count_set(pre, *self, c, count as int);
                    }
                    Some(prev)
                },
                None => {
                    if count != 0 {
                        self.map.insert(code, count);
                        self.len += 1;
                    }
                    self.total = adjusted_total(self.total, 0, count);
                    proof {
                        Self::lemma_count_set(pre, *self, c, count as int);
                    }
                    None
                },
            }
        }
    }

    /// Updates the count of `c` by 1, creating a record with a count of 1
    /// where `c` has none. Where the resulting count is zero the record is
    /// removed.
    pub fn push(&mut self, c: char)
        requires
            old(self).wf(),
            fits_isize(count_of(old(self)@, c) + 1),
            fits_i64(sum_counts(old(self)@) + 1),
        ensures
            final(self).wf(),
            final(self).ceiling() == old(self).ceiling(),
            final(self)@ == with_count(old(self)@, c, count_of(old(self)@, c) + 1),
            sum_counts(final(self)@) == sum_counts(old(self)@) + 1,
    {
        self.push_n(c, 1);
    }

    /// Updates the count of `c` by `count`, creating a record with that
    /// count where `c` has none. Where the resulting count is zero the
    /// record is removed.
    pub fn push_n(&mut self, c: char, count: isize)
        requires
            old(self).wf(),
            fits_isize(count_of(old(self)@, c) + count),
            fits_i64(sum_counts(old(self)@) + count),
        ensures
            final(self).wf(),
            final(self).ceiling() == old(self).ceiling(),
            final(self)@ == with_count(old(self)@, c, count_of(old(self)@, c) + count),
            sum_counts(final(self)@) == sum_counts(old(self)@) + count,
    {
        let ghost pre = *self;
        proof {
            lemma_char_set_bound(self@.dom());
            lemma_char_code(c, c);
            self.lemma_view();
            lemma_with_count_same(self@, c);
        }
        if count != 0 {
            self.total = adjusted_total(self.total, 0, count);
            let ix = char_to_valid_index(c);
            if ix < self.vec.len() {
                let prev = self.vec[ix];
                let new = prev + count;
                self.vec.set(ix, new);
                if prev == 0 {
                    self.len += 1;
                } else if new == 0 {
                    assert(pre@.dom().contains(c));
                    self.len -= 1;
                }
                proof {
                    Self::lemma_count_set(pre, *self, c, new as int);
                }
            } else {
                let code: u32 = c as u32;
                match self.map.get(&code) {
                    Some(v) => {
                        let new = *v + count;
                        if new == 0 {
                            self.map.remove(&code);
                            assert(pre@.dom().contains(c));
                            self.len -= 1;
                        } else {
                            self.map.insert(code, new);
                        }
                        proof {
                            Self::lemma_count_set(pre, *self, c, new as int);
                        }
                    },
                    None => {
                        self.map.insert(code, count);
                        self.len += 1;
                        proof {
                            Self::lemma_count_set(pre, *self, c, count as int);
                        }
                    },
                }
            }
        }
    }

    /// Removes the record of `c`, returning its count if `c` had a record.
    pub fn remove(&mut self, c: &char) -> (r: Option<isize>)
        requires
            old(self).wf(),
            fits_i64(sum_counts(old(self)@) - count_of(old(self)@, *c)),
        ensures
            final(self).wf(),
            final(self).ceiling() == old(self).ceiling(),
            final(self)@ == old(self)@.remove(*c),
            sum_counts(final(self)@) == sum_counts(old(self)@) - count_of(old(self)@, *c),
            r == if old(self)@.contains_key(*c) {
                Some(old(self)@[*c])
            } else {
                None
            },
    {
        let ghost pre = *self;
        proof {
            lemma_char_code(*c, *c);
            self.lemma_view();
        }
        let ix = char_to_valid_index(*c);
        if ix < self.vec.len() {
            let prev = self.vec[ix];
            self.vec.set(ix, 0);
            if prev != 0 {
                assert(pre@.dom().contains(*c));
                self.len -= 1;
                self.total = adjusted_total(self.total, prev, 0);
                proof {
                    Self::lemma_count_set(pre, *self, *c, 0);
                }
                Some(prev)
            } else {
                proof {
                    Self::lemma_count_set(pre, *self, *c, 0);
                }
                None
            }
        } else {
            let code: u32 = *c as u32;
            match self.map.remove(&code) {
                Some(v) => {
                    assert(pre@.dom().contains(*c));
                    self.len -= 1;
                    self.total = adjusted_total(self.total, v, 0);
                    proof {
                        Self::lemma_count_set(pre, *self, *c, 0);
                    }
                    Some(v)
                },
                None => {
                    proof {
                        Self::lemma_count_set(pre, *self, *c, 0);
                    }
                    None
                },
            }
        }
    }

    /// Clears the map: removes all records and resets the total. The
    /// contiguous storage keeps its extent.
    pub fn clear(&mut self)
        requires
            old(self).wf(),
        ensures
            final(self).wf(),
            final(self).ceiling() == old(self).ceiling(),
            final(self)@ == Map::<char, isize>::empty(),
            sum_counts(final(self)@) == 0,
    {
        let n = self.vec.len();
        let mut i: usize = 0;
        while i < n
            invariant
                i <= n,
                self.vec@.len() == n,
                forall|j: int| 0 <= j < i ==> self.vec@[j] == 0,
            decreases n - i,
        {
            self.vec.set(i, 0);
            i += 1;
        }
        self.map.clear();
        self.len = 0;
        self.total = 0;
        proof {
            assert forall|c: char| self.count(c) == 0 by {
                lemma_char_code(c, c);
            }
            assert(self@ =~= Map::<char, isize>::empty());
            lemma_sum_empty::<char>();
        }
    }

    /// Returns the number of records that the map can hold without
    /// reallocation: the extent of the contiguous storage and what the
    /// hashed map has room for, held down to the largest `usize`.
    pub fn capacity(&self) -> (r: usize)
        ensures
            r >= self.ceiling(),
    {
        self.vec.len().saturating_add(map_capacity(&self.map))
    }

    /// Indicates whether a record exists for `c`.
    pub fn contains_key(&self, c: &char) -> (r: bool)
        ensures
            r == self@.contains_key(*c),
    {
        proof {
            lemma_char_code(*c, *c);
        }
        let ix = char_to_valid_index(*c);
        if ix < self.vec.len() {
            self.vec[ix] != 0
        } else {
            let code: u32 = *c as u32;
            match self.map.get(&code) {
                Some(v) => *v != 0,
                None => false,
            }
        }
    }

    /// Obtains the count of `c`: zero where `c` has no record.
    pub fn get(&self, c: &char) -> (r: isize)
        ensures
            r == count_of(self@, *c),
    {
        *self.get_(c)
    }

    /// Indicates whether the map holds no record.
    pub fn is_empty(&self) -> (r: bool)
        requires
            self.wf(),
        ensures
            r == (self@.len() == 0),
    {
        self.is_empty_()
    }

    /// Obtains the number of records.
    pub fn len(&self) -> (r: usize)
        requires
            self.wf(),
        ensures
            r == self@.len(),
    {
        self.len_()
    }

    /// Indicates the sum of the counts of all records.
    pub fn total(&self) -> (r: i64)
        requires
            self.wf(),
        ensures
            r == sum_counts(self@),
    {
        self.total_()
    }

    fn is_empty_(&self) -> (r: bool)
        requires
            self.wf(),
        ensures
            r == (self@.len() == 0),
    {
        0 == self.len
    }

    fn get_(&self, c: &char) -> (r: &isize)
        ensures
            *r == count_of(self@, *c),
    {
        proof {
            lemma_char_code(*c, *c);
        }
        let ix = char_to_valid_index(*c);
        if ix < self.vec.len() {
            &self.vec[ix]
        } else {
            let code: u32 = *c as u32;
            match self.map.get(&code) {
                Some(count) => count,
                None => &0,
            }
        }
    }

    fn len_(&self) -> (r: usize)
        requires
            self.wf(),
        ensures
            r == self@.len(),
    {
        self.len
    }

    fn total_(&self) -> (r: i64)
        requires
            self.wf(),
        ensures
            r == sum_counts(self@),
    {
        self.total
    }
}

impl Default for UnicodePointMap {
    /// Creates an empty instance whose contiguous storage ends at
    /// `DEFAULT_CONTIGUOUS_CEILING`.
    fn default() -> (r: Self)
        ensures
            r.wf(),
            r@ == Map::<char, isize>::empty(),
            sum_counts(r@) == 0,
            r.ceiling() == DEFAULT_CONTIGUOUS_CEILING as nat,
    {
        Self::new(DEFAULT_CONTIGUOUS_CEILING)
    }
}

impl Index<char> for UnicodePointMap {
    type Output = isize;

    /// The count of `c`: zero where `c` has no record.
    fn index(&self, c: char) -> (r: &isize)
        ensures
            *r == count_of(self@, c),
    {
        self.get_(&c)
    }
}

impl vstd::std_specs::core::IndexSpecImpl<char> for UnicodePointMap {
    open spec fn index_req(&self, c: &char) -> bool {
        true
    }
}

impl Index<&char> for UnicodePointMap {
    type Output = isize;

    /// The count of `c`: zero where `c` has no record.
    fn index(&self, c: &char) -> (r: &isize)
        ensures
            *r == count_of(self@, *c),
    {
        self.get_(c)
    }
}

impl vstd::std_specs::core::IndexSpecImpl<&char> for UnicodePointMap {
    open spec fn index_req(&self, c: &&char) -> bool {
        true
    }
}

/// The records that contiguous storage `v` holds from index `from` on, by
/// increasing code point.
spec fn dense_records(v: Seq<isize>, from: int) -> Seq<(char, isize)>
    decreases v.len() - from,
{
    if from < 0 || from >= v.len() {
        Seq::empty()
    } else if v[from] != 0 {
        seq![(from as char, v[from])] + dense_records(v, from + 1)
    } else {
        dense_records(v, from + 1)
    }
}

/// In `s`, a code point below `ceiling` comes after smaller code points
/// only: the code points below `ceiling` come first and in increasing order.
pub open spec fn dense_first(s: Seq<(char, isize)>, ceiling: nat) -> bool {
    forall|i: int, j: int|
        0 <= i < j < s.len() && ((#[trigger] s[j]).0 as int) < ceiling ==> (
        (#[trigger] s[i]).0 as int) < (s[j].0 as int)
}

/// What `dense_records` holds: the non-zero entries from `from` on, each
/// once, by increasing code point.
proof fn lemma_dense_records(v: Seq<isize>, from: int)
    requires
        0 <= from <= v.len() <= 0x10FFFF,
        forall|i: int| 0 <= i < v.len() && !is_scalar_value(i) ==> #[trigger] v[i] == 0,
    ensures
        forall|i: int|
            0 <= i < dense_records(v, from).len() ==> {
                let p = (#[trigger] dense_records(v, from)[i]).0 as int;
                from <= p < v.len() && v[p] == dense_records(v, from)[i].1 && v[p] != 0
            },
        forall|i: int, j: int|
            0 <= i < j < dense_records(v, from).len() ==> ((#[trigger] dense_records(
                v,
                from,
            )[i]).0 as int) < ((#[trigger] dense_records(v, from)[j]).0 as int),
        forall|p: int|
            from <= p < v.len() && #[trigger] v[p] != 0 ==> exists|i: int|
                0 <= i < dense_records(v, from).len() && (#[trigger] dense_records(
                    v,
                    from,
                )[i]).0 as int == p,
    decreases v.len() - from,
{
    if from < v.len() {
        lemma_dense_records(v, from + 1);
        let t = dense_records(v, from + 1);
        let d = dense_records(v, from);
        if v[from] != 0 {
            assert(is_scalar_value(from));
            assert((from as char) as int == from);
            assert(d[0] == (from as char, v[from]));
            assert forall|i: int| 1 <= i < d.len() implies d[i] == t[i - 1] by {}
            assert forall|p: int| from <= p < v.len() && #[trigger] v[p] != 0 implies exists|i: int|
                0 <= i < d.len() && (#[trigger] d[i]).0 as int == p by {
                if p == from {
                    assert(d[0].0 as int == p);
                } else {
                    let i = choose|i: int| 0 <= i < t.len() && (#[trigger] t[i]).0 as int == p;
                    assert(d[i + 1] == t[i]);
                }
            }
            assert forall|i: int, j: int| 0 <= i < j < d.len() implies (
            (#[trigger] d[i]).0 as int) < ((#[trigger] d[j]).0 as int) by {
                assert(d[j] == t[j - 1]);
                if i > 0 {
                    assert(d[i] == t[i - 1]);
                }
            }
        }
    }
}

/// Iterator for [`UnicodePointMap`]: hands out the records in contiguous
/// storage by increasing code point, then those of the hashed map, and then
/// stays at the end.
pub struct UnicodePointMapIter<'a> {
    /// The map that is walked.
    upm: &'a UnicodePointMap,
    /// The next index into contiguous storage, while that tier is walked.
    vec_index: Option<usize>,
    /// The records of the hashed map, in the order of its own iterator.
    map_items: Vec<(char, isize)>,
    /// The next index into `map_items`, while that tier is walked.
    map_index: Option<usize>,
}

impl<'a> UnicodePointMapIter<'a> {
    /// The invariant of the iterator: it walks one tier at a time, and its
    /// position lies within that tier.
    pub closed spec fn wf(&self) -> bool {
        &&& self.upm.tiers_ok()
        &&& self.vec_index matches Some(ix) ==> ix <= self.upm.vec@.len() && self.map_index is None
        &&& self.map_index matches Some(at) ==> at <= self.map_items@.len()
    }

    /// The records that the iterator has yet to hand out, in order.
    pub closed spec fn remaining(&self) -> Seq<(char, isize)> {
        match self.vec_index {
            Some(ix) => dense_records(self.upm.vec@, ix as int) + self.map_items@,
            None => match self.map_index {
                Some(at) => self.map_items@.skip(at as int),
                None => Seq::empty(),
            },
        }
    }

    /// Advances the iterator and returns the next record.
    ///
    /// Returns `None` when iteration is finished. Further calls continue to
    /// return `None`.
    pub fn next(&mut self) -> (r: Option<(char, isize)>)
        requires
            old(self).wf(),
        ensures
            final(self).wf(),
            match r {
                Some(record) => old(self).remaining().len() > 0
                    && record == old(self).remaining()[0]
                    && final(self).remaining() == old(self).remaining().skip(1),
                None => old(self).remaining().len() == 0 && final(self).remaining().len() == 0,
            },
    {
        if let Some(start) = self.vec_index {
            let mut ix = start;
            while ix < self.upm.vec.len()
                invariant
                    self.wf(),
                    *self == *old(self),
                    self.vec_index == Some(start),
                    start <= ix <= self.upm.vec@.len(),
                    dense_records(self.upm.vec@, ix as int) == dense_records(
                        self.upm.vec@,
                        start as int,
                    ),
                decreases self.upm.vec@.len() - ix,
            {
                let count = self.upm.vec[ix];
                if 0 != count {
                    if let Some(c) = char::from_u32(ix as u32) {
                        let ghost rest = dense_records(self.upm.vec@, ix + 1);
                        proof {
                            assert(dense_records(self.upm.vec@, ix as int) == seq![(c, count)]
                                + rest);
                            assert(self.remaining() == (seq![(c, count)] + rest) + self.map_items@);
                        }
                        self.vec_index = Some(ix + 1);
                        proof {
                            assert(self.remaining() =~= old(self).remaining().skip(1));
                        }
                        return Some((c, count));
                    }
                }
                ix += 1;
            }
            self.vec_index = None;
            self.map_index = Some(0);
            proof {
                assert(old(self).remaining() =~= self.map_items@);
                assert(self.remaining() =~= self.map_items@);
            }
        }
        if let Some(at) = self.map_index {
            if at < self.map_items.len() {
                let record = self.map_items[at];
                self.map_index = Some(at + 1);
                proof {
                    assert(self.remaining() =~= old(self).remaining().skip(1));
                }
                return Some(record);
            } else {
                self.map_index = None;
            }
        }
        None
    }
}

impl UnicodePointMap {
    /// `items` enumerates the records of the hashed map: each item is a
    /// record of it, no code point comes twice, and every record is among
    /// the items.
    spec fn lists_sparse(&self, items: Seq<(char, isize)>) -> bool {
        &&& forall|i: int|
            0 <= i < items.len() ==> self.map@.contains_key((#[trigger] items[i]).0 as u32)
                && self.map@[items[i].0 as u32] == items[i].1
        &&& forall|i: int, j: int|
            0 <= i < j < items.len() ==> (#[trigger] items[i]).0 != (#[trigger] items[j]).0
        &&& forall|k: u32| #[trigger]
            self.map@.contains_key(k) ==> exists|i: int|
                0 <= i < items.len() && (#[trigger] items[i]).0 as u32 == k
    }

    /// The records of the hashed map, in the order of its own iterator.
    fn sparse_records(&self) -> (items: Vec<(char, isize)>)
        requires
            self.tiers_ok(),
        ensures
            self.lists_sparse(items@),
    {
        let mut items: Vec<(char, isize)> = Vec::new();
        let it = map_iter(&self.map);
        for record in iter: it
            invariant
                self.tiers_ok(),
                lists(iter.seq().unref(), self.map@),
                items@.len() == iter.index(),
                forall|i: int|
                    0 <= i < items@.len() ==> (#[trigger] items@[i]).0 as u32
                        == iter.seq().unref()[i].0 && items@[i].1 == iter.seq().unref()[i].1,
                iter.index() == iter.seq().len() ==> self.lists_sparse(items@),
        {
            let code: u32 = *record.0;
            let ghost before = items@;
            proof {
                let all = iter.seq().unref();
                assert(all[iter.index()].0 == code);
                assert(self.map@.contains_key(code));
            }
            if let Some(c) = char::from_u32(code) {
                items.push((c, *record.1));
            }
            proof {
                let all = iter.seq().unref();
                assert forall|i: int| 0 <= i < items@.len() implies (#[trigger] items@[i]).0 as u32
                    == all[i].0 && items@[i].1 == all[i].1 by {
                    if i < before.len() {
                        assert(items@[i] == before[i]);
                    }
                }
                assert forall|i: int, j: int| 0 <= i < j < items@.len() implies (
                #[trigger] items@[i]).0 != (#[trigger] items@[j]).0 by {
                    assert(all[i].0 != all[j].0);
                }
                assert forall|k: u32|
                    items@.len() == all.len() && #[trigger] self.map@.contains_key(
                        k,
                    ) implies exists|i: int|
                    0 <= i < items@.len() && (#[trigger] items@[i]).0 as u32 == k by {
                    let i = choose|i: int| 0 <= i < all.len() && (#[trigger] all[i]).0 == k;
                    assert(items@[i].0 as u32 == k);
                }
            }
        }
        items
    }

    /// An iterator over the records of the map: first those of the code
    /// points below the ceiling, by increasing code point, then the others
    /// in no particular order.
    pub fn iter(&self) -> (it: UnicodePointMapIter<'_>)
        requires
            self.wf(),
        ensures
            it.wf(),
            lists(it.remaining(), self@),
            dense_first(it.remaining(), self.ceiling()),
    {
        let map_items = self.sparse_records();
        let it = UnicodePointMapIter { upm: self, vec_index: Some(0), map_items, map_index: None };
        proof {
            self.lemma_records(it.map_items@);
        }
        it
    }

    /// An enumeration of the hashed map, put behind the records of
    /// contiguous storage, enumerates the whole map, with the code points
    /// below the ceiling first.
    proof fn lemma_records(&self, items: Seq<(char, isize)>)
        requires
            self.tiers_ok(),
            self.lists_sparse(items),
        ensures
            lists(dense_records(self.vec@, 0) + items, self@),
            dense_first(dense_records(self.vec@, 0) + items, self.ceiling()),
    {
        let d = dense_records(self.vec@, 0);
        let s = d + items;
        lemma_dense_records(self.vec@, 0);
        assert forall|i: int| 0 <= i < s.len() implies self@.contains_key((#[trigger] s[i]).0)
            && self@[s[i].0] == s[i].1 && (i < d.len() <==> (s[i].0 as int) < self.vec@.len()) by {
            lemma_char_code(s[i].0, s[i].0);
            if i < d.len() {
                assert(s[i] == d[i]);
            } else {
                assert(s[i] == items[i - d.len()]);
            }
        }
        assert forall|i: int, j: int| 0 <= i < j < s.len() implies (#[trigger] s[i]).0 != (
        #[trigger] s[j]).0 && (((s[j]).0 as int) < self.vec@.len() ==> ((s[i]).0 as int) < (
        s[j].0 as int)) by {
            lemma_char_code(s[i].0, s[j].0);
            if j < d.len() {
                assert(s[i] == d[i] && s[j] == d[j]);
            } else if i < d.len() {
                assert(s[i] == d[i] && s[j] == items[j - d.len()]);
            } else {
                assert(s[i] == items[i - d.len()] && s[j] == items[j - d.len()]);
            }
        }
        assert forall|c: char| #[trigger] self@.contains_key(c) implies exists|i: int|
            0 <= i < s.len() && (#[trigger] s[i]).0 == c by {
            lemma_char_code(c, c);
            if (c as int) < self.vec@.len() {
                assert(self.vec@[c as int] != 0);
                let i = choose|i: int| 0 <= i < d.len() && (#[trigger] d[i]).0 as int == c as int;
                lemma_char_code(d[i].0, c);
                assert(s[i] == d[i]);
            } else {
                assert(self.map@.contains_key(c as u32));
                let i = choose|i: int|
                    0 <= i < items.len() && (#[trigger] items[i]).0 as u32 == c as u32;
                lemma_char_code(items[i].0, c);
                assert(s[i + d.len()] == items[i]);
            }
        }
    }
}

impl UnicodePointMap {
    /// Creates an instance from an array of code points: each is counted
    /// once for each time it stands in the array.
    pub fn from_keys<const N: usize>(value: [char; N]) -> (r: Self)
        requires
            N <= isize::MAX || forall|c: char| #[trigger] occurrences(value@, c) <= isize::MAX,
            N <= i64::MAX,
        ensures
            r.wf(),
            r.ceiling() == DEFAULT_CONTIGUOUS_CEILING as nat,
            r@ == counted(value@),
            sum_counts(r@) == N,
    {
        let mut upm = UnicodePointMap::default();
        let ghost s = value@;
        let mut i: usize = 0;
        proof {
            assert forall|c: char| #[trigger] occurrences(s, c) <= isize::MAX by {
                lemma_occurrences_bound(s, 0, c);
            }
            assert(s.take(0) == Seq::<char>::empty());
            assert(upm@ =~= counted(s.take(0)));
            lemma_sum_empty::<char>();
        }
        while i < N
            invariant
                i <= N == s.len(),
                s == value@,
                N <= i64::MAX,
                forall|c: char| #[trigger] occurrences(s, c) <= isize::MAX,
                upm.wf(),
                upm.ceiling() == DEFAULT_CONTIGUOUS_CEILING as nat,
                upm@ == counted(s.take(i as int)),
                sum_counts(upm@) == i,
            decreases N - i,
        {
            let c = value[i];
            proof {
                Self::lemma_counting_one_more(s, i as int, upm@);
            }
            upm.push(c);
            i += 1;
        }
        proof {
            assert(s.take(i as int) == s);
        }
        upm
    }

    /// Creates an instance from an array of pairs of a code point and a
    /// count: the pairs are applied in order, each with the effect of
    /// `push_n`.
    pub fn from_pairs<const N: usize>(value: [(char, isize); N]) -> (r: Self)
        requires
            forall|n: int, c: char|
                0 <= n <= N ==> fits_isize(#[trigger] net_count(value@.take(n), c)),
            forall|n: int| 0 <= n <= N ==> fits_i64(#[trigger] seq_sum(value@.take(n))),
        ensures
            r.wf(),
            r.ceiling() == DEFAULT_CONTIGUOUS_CEILING as nat,
            r@ == tallied(value@),
            sum_counts(r@) == seq_sum(value@),
    {
        let mut upm = UnicodePointMap::default();
        let ghost s = value@;
        let mut i: usize = 0;
        proof {
            assert(s.take(0) == Seq::<(char, isize)>::empty());
            assert(upm@ =~= tallied(s.take(0)));
            lemma_sum_empty::<char>();
        }
        while i < N
            invariant
                i <= N == s.len(),
                s == value@,
                forall|n: int, c: char|
                    0 <= n <= N ==> fits_isize(#[trigger] net_count(s.take(n), c)),
                forall|n: int| 0 <= n <= N ==> fits_i64(#[trigger] seq_sum(s.take(n))),
                upm.wf(),
                upm.ceiling() == DEFAULT_CONTIGUOUS_CEILING as nat,
                upm@ == tallied(s.take(i as int)),
                sum_counts(upm@) == seq_sum(s.take(i as int)),
            decreases N - i,
        {
            let (c, count) = value[i];
            proof {
                Self::lemma_adding_one_more(s, i as int, upm@);
            }
            upm.push_n(c, count);
            i += 1;
        }
        proof {
            assert(s.take(i as int) == s);
        }
        upm
    }

    /// Creates an instance from an iterator of code points: each is counted
    /// once for each time the iterator hands it out.
    pub fn from_iter<I: Iterator<Item = char>>(iter: I) -> (r: Self)
        requires
            iter.obeys_prophetic_iter_laws(),
            iter.decrease() is Some,
            iter.remaining().len() <= isize::MAX || forall|c: char| #[trigger]
                occurrences(iter.remaining(), c) <= isize::MAX,
            iter.remaining().len() <= i64::MAX,
        ensures
            r.wf(),
            r.ceiling() == DEFAULT_CONTIGUOUS_CEILING as nat,
            r@ == counted(iter.remaining()),
            sum_counts(r@) == iter.remaining().len(),
    {
        let mut it = iter;
        let mut upm = UnicodePointMap::default();
        let ghost mut done: Seq<char> = Seq::empty();
        proof {
            assert forall|c: char| #[trigger] occurrences(iter.remaining(), c) <= isize::MAX by {
                lemma_occurrences_bound(iter.remaining(), 0, c);
            }
            assert(done + it.remaining() == iter.remaining());
            assert(upm@ =~= counted(done));
            lemma_sum_empty::<char>();
        }
        loop
            invariant
                it.obeys_prophetic_iter_laws(),
                it.decrease() is Some,
                forall|c: char| #[trigger] occurrences(iter.remaining(), c) <= isize::MAX,
                iter.remaining().len() <= i64::MAX,
                done + it.remaining() == iter.remaining(),
                upm.wf(),
                upm.ceiling() == DEFAULT_CONTIGUOUS_CEILING as nat,
                upm@ == counted(done),
                sum_counts(upm@) == done.len(),
            ensures
                done == iter.remaining(),
            decreases it.decrease()->0,
        {
            match it.next() {
                Some(c) => {
                    proof {
                        let all = iter.remaining();
                        let n = done.len() as int;
                        assert(all.take(n) == done);
                        assert(all[n] == c);
                        Self::lemma_counting_one_more(all, n, upm@);
                        assert(all.take(n + 1) == done.push(c));
                        assert(done.push(c) + it.remaining() == all);
                    }
                    upm.push(c);
                    proof {
                        done = done.push(c);
                    }
                },
                None => {
                    proof {
                        assert(done == iter.remaining());
                    }
                    break ;
                },
            }
        }
        upm
    }

    /// Creates an instance from an iterator of pairs of a code point and a
    /// count: the pairs are applied in order, each with the effect of
    /// `push_n`.
    pub fn from_iter_pairs<I: Iterator<Item = (char, isize)>>(iter: I) -> (r: Self)
        requires
            iter.obeys_prophetic_iter_laws(),
            iter.decrease() is Some,
            forall|n: int, c: char|
                0 <= n <= iter.remaining().len() ==> fits_isize(
                    #[trigger] net_count(iter.remaining().take(n), c),
                ),
            forall|n: int|
                0 <= n <= iter.remaining().len() ==> fits_i64(
                    #[trigger] seq_sum(iter.remaining().take(n)),
                ),
        ensures
            r.wf(),
            r.ceiling() == DEFAULT_CONTIGUOUS_CEILING as nat,
            r@ == tallied(iter.remaining()),
            sum_counts(r@) == seq_sum(iter.remaining()),
    {
        let mut it = iter;
        let mut upm = UnicodePointMap::default();
        let ghost mut done: Seq<(char, isize)> = Seq::empty();
        proof {
            assert(done + it.remaining() == iter.remaining());
            assert(upm@ =~= tallied(done));
            lemma_sum_empty::<char>();
        }
        loop
            invariant
                it.obeys_prophetic_iter_laws(),
                it.decrease() is Some,
                forall|n: int, c: char|
                    0 <= n <= iter.remaining().len() ==> fits_isize(
                        #[trigger] net_count(iter.remaining().take(n), c),
                    ),
                forall|n: int|
                    0 <= n <= iter.remaining().len() ==> fits_i64(
                        #[trigger] seq_sum(iter.remaining().take(n)),
                    ),
                done + it.remaining() == iter.remaining(),
                upm.wf(),
                upm.ceiling() == DEFAULT_CONTIGUOUS_CEILING as nat,
                upm@ == tallied(done),
                sum_counts(upm@) == seq_sum(done),
            ensures
                done == iter.remaining(),
            decreases it.decrease()->0,
        {
            match it.next() {
                Some(pair) => {
                    let (c, count) = pair;
                    proof {
                        let all = iter.remaining();
                        let n = done.len() as int;
                        assert(all.take(n) == done);
                        assert(all[n] == (c, count));
                        Self::lemma_adding_one_more(all, n, upm@);
                        assert(all.take(n + 1) == done.push((c, count)));
                        assert(done.push((c, count)) + it.remaining() == all);
                    }
                    upm.push_n(c, count);
                    proof {
                        done = done.push((c, count));
                    }
                },
                None => {
                    proof {
                        assert(done == iter.remaining());
                    }
                    break ;
                },
            }
        }
        upm
    }

    /// Where `m` counts the first `n` code points of `s`, raising the count
    /// of the next one by one counts the first `n + 1`, and no count leaves
    /// its range on the way.
    proof fn lemma_counting_one_more(s: Seq<char>, n: int, m: Map<char, isize>)
        requires
            0 <= n < s.len() <= i64::MAX,
            forall|c: char| #[trigger] occurrences(s, c) <= isize::MAX,
            m == counted(s.take(n)),
            m.dom().finite(),
            sum_counts(m) == n,
        ensures
            fits_isize(count_of(m, s[n]) + 1),
            fits_i64(sum_counts(m) + 1),
            with_count(m, s[n], count_of(m, s[n]) + 1) == counted(s.take(n + 1)),
            sum_counts(with_count(m, s[n], count_of(m, s[n]) + 1)) == n + 1,
    {
        let c = s[n];
        let t = s.take(n);
        lemma_occurrences_bound(s, n + 1, c);
        assert(s.take(n + 1) == t.push(c));
        assert(t.push(c).drop_last() == t);
        assert(occurrences(s, c) <= isize::MAX);
        lemma_counted_push(t, c);
        lemma_sum_with_count(m, c, count_of(m, c) + 1);
    }

    /// Where `m` adds up the first `n` pairs of `s`, changing the count of
    /// the key of the next one by its count adds up the first `n + 1`, and
    /// no count leaves its range on the way.
    proof fn lemma_adding_one_more(s: Seq<(char, isize)>, n: int, m: Map<char, isize>)
        requires
            0 <= n < s.len(),
            forall|j: int, c: char|
                0 <= j <= s.len() ==> fits_isize(#[trigger] net_count(s.take(j), c)),
            forall|j: int| 0 <= j <= s.len() ==> fits_i64(#[trigger] seq_sum(s.take(j))),
            m == tallied(s.take(n)),
            m.dom().finite(),
            sum_counts(m) == seq_sum(s.take(n)),
        ensures
            fits_isize(count_of(m, s[n].0) + s[n].1),
            fits_i64(sum_counts(m) + s[n].1),
            with_count(m, s[n].0, count_of(m, s[n].0) + s[n].1) == tallied(s.take(n + 1)),
            sum_counts(with_count(m, s[n].0, count_of(m, s[n].0) + s[n].1)) == seq_sum(
                s.take(n + 1),
            ),
    {
        let (c, count) = s[n];
        let t = s.take(n);
        assert(s.take(n + 1) == t.push((c, count)));
        assert(fits_isize(net_count(s.take(n), c)));
        assert(fits_isize(net_count(s.take(n + 1), c)));
        assert(fits_i64(seq_sum(s.take(n + 1))));
        assert(t.push((c, count)).drop_last() == t);
        lemma_tallied_push(t, c, count);
        lemma_sum_with_count(m, c, count_of(m, c) + count);
    }
}

} // verus!
