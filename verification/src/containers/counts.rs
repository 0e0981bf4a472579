//! The mathematical model of a frequency container: a finite map from keys
//! to non-zero counts, with the sum of its counts.

use vstd::prelude::*;

verus! {

/// Whether `x` can be held in an `isize`.
pub open spec fn fits_isize(x: int) -> bool {
    isize::MIN <= x <= isize::MAX
}

/// Whether `x` can be held in an `i64`.
pub open spec fn fits_i64(x: int) -> bool {
    i64::MIN <= x <= i64::MAX
}

/// The count that `m` records for `k`: zero where `k` has no record.
pub open spec fn count_of<K>(m: Map<K, isize>, k: K) -> int {
    if m.contains_key(k) {
        m[k] as int
    } else {
        0
    }
}

/// No record of `m` holds a count of zero.
pub open spec fn no_zero_counts<K>(m: Map<K, isize>) -> bool {
    forall|k: K| #[trigger] m.contains_key(k) ==> m[k] != 0
}

/// `m` is a set of records as a frequency container keeps them: finitely
/// many, none of them with a count of zero.
pub open spec fn valid_records<K>(m: Map<K, isize>) -> bool {
    m.dom().finite() && no_zero_counts(m)
}

/// `m` with the count of `k` set to `c`. A count of zero takes the record of
/// `k` away.
pub open spec fn with_count<K>(m: Map<K, isize>, k: K, c: int) -> Map<K, isize> {
    if c == 0 {
        m.remove(k)
    } else {
        m.insert(k, c as isize)
    }
}

/// The sum of all counts of `m`.
pub open spec fn sum_counts<K>(m: Map<K, isize>) -> int
    decreases m.dom().len(),
    when m.dom().finite()
{
    if m.dom().len() == 0 {
        0
    } else {
        let k = m.dom().choose();
        m[k] + sum_counts(m.remove(k))
    }
}

/// The records that give each key the count `f` of it, where that is not
/// zero.
pub open spec fn records_of<K>(f: spec_fn(K) -> int) -> Map<K, isize> {
    Map::new(|k: K| f(k) != 0, |k: K| f(k) as isize)
}

/// The records of `a` and `b` taken together: each key with the sum of its
/// two counts, where that sum is not zero.
pub open spec fn merged<K>(a: Map<K, isize>, b: Map<K, isize>) -> Map<K, isize> {
    records_of(|k: K| count_of(a, k) + count_of(b, k))
}

/// How often `k` occurs in `s`.
pub open spec fn occurrences<K>(s: Seq<K>, k: K) -> nat
    decreases s.len(),
{
    if s.len() == 0 {
        0
    } else {
        occurrences(s.drop_last(), k) + if s.last() == k {
            1nat
        } else {
            0nat
        }
    }
}

/// The records that count the keys of `s`: each key that occurs in `s`, with
/// the number of times it occurs.
pub open spec fn counted<K>(s: Seq<K>) -> Map<K, isize> {
    records_of(|k: K| occurrences(s, k) as int)
}

/// The sum of the counts that the pairs of `s` give for `k`.
pub open spec fn net_count<K>(s: Seq<(K, isize)>, k: K) -> int
    decreases s.len(),
{
    if s.len() == 0 {
        0
    } else {
        net_count(s.drop_last(), k) + if s.last().0 == k {
            s.last().1 as int
        } else {
            0
        }
    }
}

/// The records that the pairs of `s` add up to: each key with the sum of the
/// counts given for it, where that sum is not zero.
pub open spec fn tallied<K>(s: Seq<(K, isize)>) -> Map<K, isize> {
    records_of(|k: K| net_count(s, k))
}

/// The sum of the counts of a sequence of records.
pub open spec fn seq_sum<K>(s: Seq<(K, isize)>) -> int
    decreases s.len(),
{
    if s.len() == 0 {
        0
    } else {
        seq_sum(s.drop_last()) + s.last().1
    }
}

/// `s` enumerates the records of `m`: each item of `s` is a record of `m`, no
/// key comes twice, and every record of `m` is among the items.
pub open spec fn lists<K>(s: Seq<(K, isize)>, m: Map<K, isize>) -> bool {
    &&& forall|i: int|
        0 <= i < s.len() ==> m.contains_key((#[trigger] s[i]).0) && m[s[i].0] == s[i].1
    &&& forall|i: int, j: int| 0 <= i < j < s.len() ==> (#[trigger] s[i]).0 != (#[trigger] s[j]).0
    &&& forall|k: K| #[trigger]
        m.contains_key(k) ==> exists|i: int| 0 <= i < s.len() && (#[trigger] s[i]).0 == k
}

/// `after` is what the predicate `f` may leave of `before`: each record of
/// `after` is a record of `before` that `f` may keep, and each record of
/// `before` that is gone is one that `f` may drop.
pub open spec fn retained<K, F: Fn(&K, isize) -> bool>(
    before: Map<K, isize>,
    after: Map<K, isize>,
    f: F,
) -> bool {
    &&& forall|k: K| #[trigger]
        after.contains_key(k) ==> before.contains_key(k) && after[k] == before[k] && call_ensures(
            f,
            (&k, before[k]),
            true,
        )
    &&& forall|k: K| #[trigger]
        before.contains_key(k) && !after.contains_key(k) ==> call_ensures(f, (&k, before[k]), false)
}

/// The empty map has the sum zero.
pub proof fn lemma_sum_empty<K>()
    ensures
        sum_counts(Map::<K, isize>::empty()) == 0,
{
}

/// The sum of a map is the count of any one of its records plus the sum of
/// the others.
pub proof fn lemma_sum_remove<K>(m: Map<K, isize>, k: K)
    requires
        m.dom().finite(),
        m.contains_key(k),
    ensures
        sum_counts(m) == m[k] + sum_counts(m.remove(k)),
    decreases m.dom().len(),
{
    let c = m.dom().choose();
    if c != k {
        lemma_sum_remove(m.remove(c), k);
        lemma_sum_remove(m.remove(k), c);
        assert(m.remove(c).remove(k) =~= m.remove(k).remove(c));
    }
}

/// Setting one count changes the sum by the difference between the new count
/// and the old one.
pub proof fn lemma_sum_with_count<K>(m: Map<K, isize>, k: K, c: int)
    requires
        m.dom().finite(),
        fits_isize(c),
    ensures
        with_count(m, k, c).dom().finite(),
        sum_counts(with_count(m, k, c)) == sum_counts(m) - count_of(m, k) + c,
{
    let n = with_count(m, k, c);
    if m.contains_key(k) {
        lemma_sum_remove(m, k);
    } else {
        assert(m.remove(k) =~= m);
    }
    if c != 0 {
        lemma_sum_remove(n, k);
        assert(n.remove(k) =~= m.remove(k));
    }
}

/// Setting one count keeps a set of records valid.
pub proof fn lemma_with_count_valid<K>(m: Map<K, isize>, k: K, c: int)
    requires
        valid_records(m),
        fits_isize(c),
    ensures
        valid_records(with_count(m, k, c)),
        forall|j: K| count_of(with_count(m, k, c), j) == if j == k { c } else { count_of(m, j) },
{
}

/// Setting a count to what it already is changes nothing.
pub proof fn lemma_with_count_same<K>(m: Map<K, isize>, k: K)
    requires
        no_zero_counts(m),
    ensures
        with_count(m, k, count_of(m, k)) == m,
{
    assert(with_count(m, k, count_of(m, k)) =~= m);
}

/// Setting the count of a key to zero changes nothing where the key has no
/// record; where it has one, the record goes and the sum falls by its count.
pub proof fn lemma_insert_zero<K>(m: Map<K, isize>, k: K)
    requires
        valid_records(m),
    ensures
        !m.contains_key(k) ==> with_count(m, k, 0) == m,
        m.contains_key(k) ==> with_count(m, k, 0) == m.remove(k) && !with_count(
            m,
            k,
            0,
        ).contains_key(k) && sum_counts(with_count(m, k, 0)) == sum_counts(m) - m[k],
{
    if m.contains_key(k) {
        lemma_sum_with_count(m, k, 0);
    } else {
        assert(m.remove(k) =~= m);
    }
}

/// Changing the count of a key by `c` and then by `-c` gives back the
/// records and the sum that there were. In particular a key that had no
/// record has none afterwards.
pub proof fn lemma_push_cancels<K>(m: Map<K, isize>, k: K, c: isize)
    requires
        valid_records(m),
        c > isize::MIN,
        fits_isize(count_of(m, k) + c),
    ensures
        ({
            let pushed = with_count(m, k, count_of(m, k) + c);
            let back = with_count(pushed, k, count_of(pushed, k) - c);
            &&& back == m
            &&& sum_counts(back) == sum_counts(m)
            &&& !m.contains_key(k) ==> !back.contains_key(k) && count_of(back, k) == 0
        }),
{
    let pushed = with_count(m, k, count_of(m, k) + c);
    let back = with_count(pushed, k, count_of(pushed, k) - c);
    assert(back =~= m);
}

/// The records of two maps taken together give each key the sum of its two
/// counts, and add up to the sum of the two sums.
pub proof fn lemma_merged<K>(a: Map<K, isize>, b: Map<K, isize>)
    requires
        valid_records(a),
        valid_records(b),
        forall|k: K| #[trigger] b.contains_key(k) ==> fits_isize(count_of(a, k) + b[k]),
    ensures
        valid_records(merged(a, b)),
        forall|k: K| #[trigger] count_of(merged(a, b), k) == count_of(a, k) + count_of(b, k),
        sum_counts(merged(a, b)) == sum_counts(a) + sum_counts(b),
    decreases b.dom().len(),
{
    let ab = merged(a, b);
    assert forall|k: K| #[trigger] count_of(ab, k) == count_of(a, k) + count_of(b, k) by {
        assert(b.contains_key(k) ==> fits_isize(count_of(a, k) + b[k]));
    }
    if b.dom().len() == 0 {
        assert(ab =~= a);
        assert(b =~= Map::<K, isize>::empty());
    } else {
        let k = b.dom().choose();
        let rest = b.remove(k);
        lemma_merged(a, rest);
        let prior = merged(a, rest);
        assert(count_of(prior, k) == count_of(a, k));
        assert(ab =~= with_count(prior, k, count_of(a, k) + b[k]));
        lemma_sum_with_count(prior, k, count_of(a, k) + b[k]);
        lemma_sum_remove(b, k);
    }
}

/// A key occurs in a part of a sequence no more often than in the whole, and
/// in the whole no more often than the sequence is long.
pub proof fn lemma_occurrences_bound<K>(s: Seq<K>, n: int, k: K)
    requires
        0 <= n <= s.len(),
    ensures
        occurrences(s.take(n), k) <= occurrences(s, k) <= s.len(),
    decreases s.len(),
{
    if s.len() > 0 {
        if n < s.len() {
            lemma_occurrences_bound(s.drop_last(), n, k);
            assert(s.drop_last().take(n) == s.take(n));
        } else {
            lemma_occurrences_bound(s.drop_last(), n - 1, k);
            assert(s.take(n) == s);
        }
    } else {
        assert(s.take(n) == s);
    }
}

/// Counting one more key is to raise its count by one.
pub proof fn lemma_counted_push<K>(s: Seq<K>, k: K)
    requires
        occurrences(s, k) < isize::MAX,
    ensures
        counted(s.push(k)) == with_count(counted(s), k, count_of(counted(s), k) + 1),
        count_of(counted(s), k) == occurrences(s, k),
{
    let t = s.push(k);
    assert(t.drop_last() == s);
    assert forall|j: K|
        occurrences(t, j) == occurrences(s, j) + if j == k {
            1nat
        } else {
            0nat
        } by {
        assert(t.last() == k);
    }
    assert(counted(t) =~= with_count(counted(s), k, count_of(counted(s), k) + 1));
}

/// Adding up one more pair is to change the count of its key by its count.
pub proof fn lemma_tallied_push<K>(s: Seq<(K, isize)>, k: K, c: isize)
    requires
        fits_isize(net_count(s, k)),
        fits_isize(net_count(s, k) + c),
    ensures
        tallied(s.push((k, c))) == with_count(tallied(s), k, count_of(tallied(s), k) + c),
        count_of(tallied(s), k) == net_count(s, k),
        seq_sum(s.push((k, c))) == seq_sum(s) + c,
{
    let t = s.push((k, c));
    assert(t.drop_last() == s);
    assert forall|j: K| net_count(t, j) == net_count(s, j) + if j == k { c as int } else { 0 } by {
        assert(t.last() == (k, c));
    }
    assert(tallied(t) =~= with_count(tallied(s), k, count_of(tallied(s), k) + c));
}

/// The counts of an enumeration of a map add up to the sum of the map, and
/// the enumeration is as long as the map has records.
pub proof fn lemma_listing_sum<K>(s: Seq<(K, isize)>, m: Map<K, isize>)
    requires
        lists(s, m),
    ensures
        m.dom().finite(),
        m.len() == s.len(),
        seq_sum(s) == sum_counts(m),
    decreases s.len(),
{
    if s.len() == 0 {
        assert(m.dom() =~= Set::<K>::empty());
    } else {
        let k = s.last().0;
        let t = s.drop_last();
        let n = m.remove(k);
        assert forall|i: int| 0 <= i < t.len() implies n.contains_key((#[trigger] t[i]).0)
            && n[t[i].0] == t[i].1 by {
            assert(t[i] == s[i]);
            assert(s[i].0 != s[s.len() - 1].0);
        }
        assert forall|i: int, j: int| 0 <= i < j < t.len() implies (#[trigger] t[i]).0 != (
        #[trigger] t[j]).0 by {
            assert(t[i] == s[i] && t[j] == s[j]);
        }
        assert forall|j: K| #[trigger] n.contains_key(j) implies exists|i: int|
            0 <= i < t.len() && (#[trigger] t[i]).0 == j by {
            assert(m.contains_key(j));
            let i = choose|i: int| 0 <= i < s.len() && (#[trigger] s[i]).0 == j;
            assert(t[i] == s[i]);
        }
        lemma_listing_sum(t, n);
        assert(m.dom() =~= n.dom().insert(k));
        lemma_sum_remove(m, k);
    }
}

/// No record that an enumeration of valid records hands out holds a count
/// of zero.
pub proof fn lemma_listing_nonzero<K>(s: Seq<(K, isize)>, m: Map<K, isize>)
    requires
        lists(s, m),
        no_zero_counts(m),
    ensures
        forall|i: int| 0 <= i < s.len() ==> (#[trigger] s[i]).1 != 0,
{
    assert forall|i: int| 0 <= i < s.len() implies (#[trigger] s[i]).1 != 0 by {
        assert(m.contains_key(s[i].0));
    }
}

/// In an enumeration of `m`, the pairs up to position `n` give a key the
/// count that `m` records for it if the key is among them, and zero if not.
pub proof fn lemma_listing_net_count<K>(s: Seq<(K, isize)>, m: Map<K, isize>, n: int, k: K)
    requires
        lists(s, m),
        0 <= n <= s.len(),
    ensures
        net_count(s.take(n), k) == if exists|i: int| 0 <= i < n && (#[trigger] s[i]).0 == k {
            m[k] as int
        } else {
            0
        },
    decreases n,
{
    if n > 0 {
        lemma_listing_net_count(s, m, n - 1, k);
        assert(s.take(n).drop_last() == s.take(n - 1));
        assert(s.take(n).last() == s[n - 1]);
        if s[n - 1].0 == k {
            assert(!exists|i: int| 0 <= i < n - 1 && (#[trigger] s[i]).0 == k);
        } else {
            if exists|i: int| 0 <= i < n && (#[trigger] s[i]).0 == k {
                let i = choose|i: int| 0 <= i < n && (#[trigger] s[i]).0 == k;
                assert(0 <= i < n - 1 && s[i].0 == k);
            }
        }
    }
}

/// Where no count of `s` lies further from zero than `bound`, neither the
/// counts that the first `n` pairs give for a key nor the counts of those
/// pairs add up to more than `n` times `bound`.
pub proof fn lemma_sums_bound<K>(s: Seq<(K, isize)>, n: int, k: K, bound: nat)
    requires
        0 <= n <= s.len(),
        forall|i: int| 0 <= i < s.len() ==> -bound <= (#[trigger] s[i]).1 <= bound,
    ensures
        -n * bound <= net_count(s.take(n), k) <= n * bound,
        -n * bound <= seq_sum(s.take(n)) <= n * bound,
    decreases n,
{
    if n > 0 {
        lemma_sums_bound(s, n - 1, k, bound);
        assert(s.take(n).drop_last() == s.take(n - 1));
        assert(s.take(n).last() == s[n - 1]);
        assert(n * bound == (n - 1) * bound + bound) by (nonlinear_arith);
        assert(-n * bound == -(n - 1) * bound - bound) by (nonlinear_arith);
    }
}

} // verus!
