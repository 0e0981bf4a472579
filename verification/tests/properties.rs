use collect_rs::containers::char_to_valid_index;
use collect_rs::containers::FrequencyMap;
use collect_rs::containers::UnicodePointMap;
use collect_rs::containers::DEFAULT_CONTIGUOUS_CEILING;
use collect_rs::containers::MAXIMUM_VALID_CHAR_VALUE;
use std::collections::HashMap;

fn sum_of_records(fm: &FrequencyMap<i32>) -> isize {
    let mut sum: isize = 0;
    for (_key, count) in fm.iter() {
        sum += *count;
    }
    sum
}

#[test]
fn total_is_the_sum_of_the_records() {
    let mut fm = FrequencyMap::<i32>::new();

    assert_eq!(fm.total(), sum_of_records(&fm));

    fm.push(1);
    fm.push(1);
    fm.push_n(2, -7);
    fm.insert(3, 40);
    fm.insert(1, 5);
    fm.push_n(4, 9);
    fm.remove(&4);
    fm.remove(&99);

    assert_eq!(38, fm.total());
    assert_eq!(fm.total(), sum_of_records(&fm));
    assert_eq!(3, fm.len());
}

#[test]
fn no_record_holds_a_count_of_zero() {
    let mut fm = FrequencyMap::<i32>::new();

    fm.push_n(1, 3);
    fm.push_n(1, -3);
    fm.insert(2, 0);
    fm.insert(3, 7);
    fm.insert(3, 0);
    fm.insert(4, -1);
    fm.push(4);
    fm.push_n(5, 2);

    assert_eq!(1, fm.len());
    for (key, count) in fm.iter() {
        assert_eq!(5, *key);
        assert_ne!(0, *count);
    }

    let mut upm = UnicodePointMap::new('\u{80}');

    upm.push_n('a', 3);
    upm.push_n('a', -3);
    upm.push_n('\u{1F43B}', 2);
    upm.push_n('\u{1F43B}', -2);
    upm.insert('b', 0);
    upm.insert('c', 4);

    let mut iter = upm.iter();

    assert_eq!(Some(('c', 4)), iter.next());
    assert_eq!(None, iter.next());
}

#[test]
fn clear_twice_is_clear_once() {
    let mut fm = FrequencyMap::<i32>::from_keys([1, 2, 2, 3]);

    fm.clear();

    assert!(fm.is_empty());
    assert_eq!(0, fm.len());
    assert_eq!(0, fm.total());
    assert_eq!(0, fm.get(&2));

    fm.clear();

    assert!(fm.is_empty());
    assert_eq!(0, fm.len());
    assert_eq!(0, fm.total());
    assert_eq!(0, fm.get(&2));

    let mut upm = UnicodePointMap::from_keys(['a', 'a', '\u{1F43B}']);
    let capacity = upm.capacity();

    upm.clear();

    assert!(upm.is_empty());
    assert_eq!(0, upm.len());
    assert_eq!(0, upm.total());
    assert_eq!(0, upm['a']);
    assert_eq!(0, upm['\u{1F43B}']);
    assert_eq!(None, upm.iter().next());

    upm.clear();

    assert!(upm.is_empty());
    assert_eq!(0, upm.len());
    assert_eq!(0, upm.total());
    assert_eq!(capacity, upm.capacity());
}

#[test]
fn insert_of_zero() {
    let mut fm = FrequencyMap::<i32>::from_pairs([(1, 10), (2, 20)]);

    assert_eq!(None, fm.insert(7, 0));
    assert_eq!(2, fm.len());
    assert_eq!(30, fm.total());
    assert!(!fm.contains_key(&7));

    assert_eq!(Some(20), fm.insert(2, 0));
    assert_eq!(1, fm.len());
    assert_eq!(10, fm.total());
    assert!(!fm.contains_key(&2));
    assert_eq!(0, fm.get(&2));
}

#[test]
fn insert_replaces_and_adjusts_the_total() {
    let mut fm = FrequencyMap::<i32>::new();

    assert_eq!(None, fm.insert(1, 7));
    assert_eq!(Some(7), fm.insert(1, -2));
    assert_eq!(-2, fm.total());
    assert_eq!(-2, fm.get(&1));
    assert_eq!(None, fm.insert(2, isize::MAX));
    assert_eq!(isize::MAX - 2, fm.total());
    assert_eq!(Some(isize::MAX), fm.insert(2, 2));
    assert_eq!(0, fm.total());
    assert_eq!(2, fm.len());
}

#[test]
fn push_n_and_back() {
    let mut fm = FrequencyMap::<i32>::from_pairs([(1, 10)]);

    fm.push_n(9, 5);

    assert!(fm.contains_key(&9));
    assert_eq!(15, fm.total());

    fm.push_n(9, -5);

    assert!(!fm.contains_key(&9));
    assert_eq!(0, fm.get(&9));
    assert_eq!(10, fm.total());
    assert_eq!(1, fm.len());

    fm.push_n(1, 5);
    fm.push_n(1, -5);

    assert_eq!(10, fm.get(&1));
    assert_eq!(10, fm.total());

    let mut upm = UnicodePointMap::new('\u{80}');

    upm.push_n('z', 5);
    upm.push_n('z', -5);
    upm.push_n('\u{1F43C}', 5);
    upm.push_n('\u{1F43C}', -5);

    assert!(!upm.contains_key(&'z'));
    assert!(!upm.contains_key(&'\u{1F43C}'));
    assert_eq!(0, upm.get(&'z'));
    assert_eq!(0, upm.get(&'\u{1F43C}'));
    assert_eq!(0, upm.total());
    assert_eq!(0, upm.len());
}

#[test]
fn push_n_of_zero_changes_nothing() {
    let mut fm = FrequencyMap::<i32>::from_pairs([(1, 10)]);

    fm.push_n(1, 0);
    fm.push_n(2, 0);

    assert_eq!(1, fm.len());
    assert_eq!(10, fm.total());
    assert!(!fm.contains_key(&2));

    let mut upm = UnicodePointMap::from_pairs([('a', 10)]);

    upm.push_n('a', 0);
    upm.push_n('b', 0);
    upm.push_n('\u{1F43B}', 0);

    assert_eq!(1, upm.len());
    assert_eq!(10, upm.total());
    assert!(!upm.contains_key(&'b'));
    assert!(!upm.contains_key(&'\u{1F43B}'));
}

#[test]
fn push_onto_minus_one_removes_the_record() {
    let mut fm = FrequencyMap::<i32>::new();

    fm.insert(1, -1);

    assert_eq!(1, fm.len());
    assert_eq!(-1, fm.total());

    fm.push(1);

    assert!(!fm.contains_key(&1));
    assert_eq!(0, fm.len());
    assert_eq!(0, fm.total());

    let mut upm = UnicodePointMap::new('\u{80}');

    upm.insert('a', -1);
    upm.insert('\u{1F43B}', -1);

    assert_eq!(2, upm.len());
    assert_eq!(-2, upm.total());

    upm.push('a');
    upm.push('\u{1F43B}');

    assert!(!upm.contains_key(&'a'));
    assert!(!upm.contains_key(&'\u{1F43B}'));
    assert_eq!(0, upm.len());
    assert_eq!(0, upm.total());
    assert_eq!(None, upm.iter().next());
}

#[test]
fn append_drains_the_source() {
    let mut a = FrequencyMap::<i32>::from_pairs([(1, 5), (2, -3), (3, 4)]);
    let mut b = FrequencyMap::<i32>::from_pairs([(1, -5), (2, -3), (4, 8)]);

    a.append(&mut b);

    assert!(b.is_empty());
    assert_eq!(0, b.len());
    assert_eq!(0, b.total());
    assert_eq!(0, b.get(&4));

    assert!(!a.contains_key(&1));
    assert_eq!(-6, a.get(&2));
    assert_eq!(4, a.get(&3));
    assert_eq!(8, a.get(&4));
    assert_eq!(3, a.len());
    assert_eq!(6, a.total());
}

#[test]
fn append_of_an_empty_map() {
    let mut a = FrequencyMap::<i32>::from_keys([1, 1]);
    let mut b = FrequencyMap::<i32>::new();

    a.append(&mut b);

    assert_eq!(2, a.get(&1));
    assert_eq!(2, a.total());
    assert_eq!(0, b.len());
}

#[test]
fn generic_map_of_keys() {
    let fm = FrequencyMap::<i32>::from_keys([2, 17, 123, 123]);

    assert_eq!(3, fm.len());
    assert_eq!(4, fm.total());
    assert_eq!(1, fm.get(&2));
    assert_eq!(1, fm.get(&17));
    assert_eq!(2, fm.get(&123));
    assert_eq!(0, fm.get(&999));
}

#[test]
fn generic_map_of_pairs() {
    let fm = FrequencyMap::<i32>::from_pairs([(2, 0), (2, 1), (3, 0), (4, 1), (4, -1), (17, 1), (123, 2)]);

    assert_eq!(3, fm.len());
    assert_eq!(4, fm.total());
    assert!(!fm.contains_key(&4));
}

#[test]
fn pairs_may_remove_a_key_and_bring_it_back() {
    let fm = FrequencyMap::<i32>::from_pairs([(4, 1), (4, -1), (4, 6)]);

    assert_eq!(1, fm.len());
    assert_eq!(6, fm.total());
    assert_eq!(6, fm.get(&4));
}

#[test]
fn code_point_map_of_a_string() {
    let mut upm = UnicodePointMap::from_iter("aab".chars());

    assert_eq!(2, upm.get(&'a'));
    assert_eq!(1, upm.get(&'b'));
    assert_eq!(2, upm.len());
    assert_eq!(3, upm.total());

    assert_eq!(Some(2), upm.remove(&'a'));
    assert_eq!(1, upm.len());
    assert_eq!(1, upm.total());
}

#[test]
fn iterator_stays_at_the_end() {
    let upm = UnicodePointMap::new('\u{80}');
    let mut iter = upm.iter();

    assert_eq!(None, iter.next());
    assert_eq!(None, iter.next());
    assert_eq!(None, iter.next());

    let upm = UnicodePointMap::from_keys(['\u{1F43B}']);
    let mut iter = upm.iter();

    assert_eq!(Some(('\u{1F43B}', 1)), iter.next());
    assert_eq!(None, iter.next());
    assert_eq!(None, iter.next());
}

#[test]
fn is_empty_of_the_two_maps() {
    let fm = FrequencyMap::<i32>::from_pairs([(1, 5), (2, -5)]);

    assert_eq!(0, fm.total());
    assert!(fm.is_empty());
    assert_eq!(2, fm.len());

    let upm = UnicodePointMap::from_pairs([('x', 5), ('y', -5)]);

    assert_eq!(0, upm.total());
    assert!(!upm.is_empty());
    assert_eq!(2, upm.len());

    let upm = UnicodePointMap::from_pairs([('x', 5), ('x', -5)]);

    assert_eq!(0, upm.total());
    assert!(upm.is_empty());
    assert_eq!(0, upm.len());
}

#[test]
fn iterator_walks_the_low_code_points_first_and_in_order() {
    let upm = UnicodePointMap::from_pairs([
        ('\u{1F43B}', 3),
        ('z', 1),
        ('\u{400}', -2),
        ('a', 2),
        ('\0', 7),
        ('\u{1FF}', 4),
        ('\u{200}', 5),
    ]);
    let mut iter = upm.iter();

    assert_eq!(Some(('\0', 7)), iter.next());
    assert_eq!(Some(('a', 2)), iter.next());
    assert_eq!(Some(('z', 1)), iter.next());
    assert_eq!(Some(('\u{1FF}', 4)), iter.next());

    let mut rest = HashMap::new();
    while let Some((c, count)) = iter.next() {
        assert_eq!(None, rest.insert(c, count));
    }

    let expected = HashMap::from([('\u{1F43B}', 3), ('\u{400}', -2), ('\u{200}', 5)]);

    assert_eq!(expected, rest);
    assert_eq!(None, iter.next());
}

#[test]
fn ceiling_parts_the_two_tiers() {
    let mut upm = UnicodePointMap::new('b');

    upm.push('a');
    upm.push('b');
    upm.push('c');
    upm.push('b');

    assert_eq!(3, upm.len());
    assert_eq!(4, upm.total());
    assert_eq!(1, upm['a']);
    assert_eq!(2, upm['b']);
    assert_eq!(1, upm['c']);
    assert!(upm.capacity() >= 98);

    let mut iter = upm.iter();

    assert_eq!(Some(('a', 1)), iter.next());

    let second = iter.next();
    let third = iter.next();

    assert!(second == Some(('b', 2)) && third == Some(('c', 1)) || second == Some(('c', 1)) && third == Some(('b', 2)));
    assert_eq!(None, iter.next());
}

#[test]
fn map_without_contiguous_storage() {
    let mut upm = UnicodePointMap::new('\0');

    upm.push('\0');
    upm.push_n('a', 2);

    assert_eq!(1, upm['\0']);
    assert_eq!(2, upm['a']);
    assert_eq!(2, upm.len());
    assert_eq!(3, upm.total());
    assert_eq!(Some(1), upm.remove(&'\0'));
    assert_eq!(None, upm.remove(&'\0'));
    assert_eq!(1, upm.len());
}

#[test]
fn map_with_all_code_points_in_contiguous_storage() {
    let mut upm = UnicodePointMap::new('\u{10FFFF}');

    upm.push('\u{10FFFE}');
    upm.push('\u{10FFFF}');
    upm.push('\u{D7FF}');
    upm.push('\u{E000}');

    assert!(upm.capacity() >= 0x10FFFF);
    assert_eq!(4, upm.len());

    let mut iter = upm.iter();

    assert_eq!(Some(('\u{D7FF}', 1)), iter.next());
    assert_eq!(Some(('\u{E000}', 1)), iter.next());
    assert_eq!(Some(('\u{10FFFE}', 1)), iter.next());
    assert_eq!(Some(('\u{10FFFF}', 1)), iter.next());
    assert_eq!(None, iter.next());
}

#[test]
fn index_of_a_code_point() {
    assert_eq!(0, char_to_valid_index('\0'));
    assert_eq!(97, char_to_valid_index('a'));
    assert_eq!(0xD7FF, char_to_valid_index('\u{D7FF}'));
    assert_eq!(0x1F43B, char_to_valid_index('\u{1F43B}'));
    assert_eq!(0x10FFFF, char_to_valid_index('\u{10FFFF}'));
    assert_eq!(0x10FFFF, MAXIMUM_VALID_CHAR_VALUE);
    assert_eq!('\u{200}', DEFAULT_CONTIGUOUS_CEILING);
}

#[test]
fn default_map_has_the_default_ceiling() {
    let upm = UnicodePointMap::default();

    assert!(upm.capacity() >= 0x200);
    assert!(upm.is_empty());
}

#[test]
fn code_point_insert_returns_the_count_before() {
    let mut upm = UnicodePointMap::new('\u{80}');

    assert_eq!(None, upm.insert('a', 3));
    assert_eq!(Some(3), upm.insert('a', -4));
    assert_eq!(None, upm.insert('\u{1F43B}', 3));
    assert_eq!(Some(3), upm.insert('\u{1F43B}', isize::MAX));
    assert_eq!(isize::MAX as i64 - 4, upm.total());
    assert_eq!(Some(isize::MAX), upm.insert('\u{1F43B}', 0));
    assert_eq!(None, upm.insert('\u{1F43B}', 0));
    assert_eq!(Some(-4), upm.insert('a', 0));
    assert_eq!(None, upm.insert('a', 0));
    assert_eq!(0, upm.total());
    assert_eq!(0, upm.len());
}

#[test]
fn code_point_total_is_wider_than_a_count() {
    let mut upm = UnicodePointMap::new('\u{80}');

    upm.insert('a', i32::MAX as isize);
    upm.insert('b', i32::MAX as isize);
    upm.insert('\u{1F43B}', i32::MAX as isize);

    assert_eq!(3 * (i32::MAX as i64), upm.total());
}

#[test]
fn code_point_pairs_from_an_iterator() {
    let pairs = vec![('a', 2), ('\u{1F43B}', 1), ('a', -2), ('\u{1F43B}', 4), ('b', 0)];
    let upm = UnicodePointMap::from_iter_pairs(pairs.into_iter());

    assert_eq!(0, upm['a']);
    assert_eq!(5, upm['\u{1F43B}']);
    assert_eq!(1, upm.len());
    assert_eq!(5, upm.total());
}

#[test]
fn remove_entry_returns_the_key() {
    let mut fm = FrequencyMap::<String>::new();

    fm.push_n(String::from("cat"), 3);
    fm.push(String::from("dog"));

    assert_eq!(Some((String::from("cat"), 3)), fm.remove_entry(&String::from("cat")));
    assert_eq!(None, fm.remove_entry(&String::from("cat")));
    assert_eq!(1, fm.len());
    assert_eq!(1, fm.total());
}

#[test]
fn remove_of_an_absent_key() {
    let mut fm = FrequencyMap::<i32>::from_keys([1]);

    assert_eq!(None, fm.remove(&2));
    assert_eq!(1, fm.len());
    assert_eq!(1, fm.total());
}

#[test]
fn retain_may_drop_everything() {
    let mut fm = FrequencyMap::<i32>::from_pairs([(1, 5), (2, -3), (3, 4)]);

    fm.retain(|_key, _count| false);

    assert_eq!(0, fm.len());
    assert_eq!(0, fm.total());
    assert!(fm.is_empty());
}

#[test]
fn retain_takes_the_dropped_counts_off_the_total() {
    let mut fm = FrequencyMap::<i32>::from_pairs([(1, 5), (2, -3), (3, 4)]);

    fm.retain(|_key, count| count < 0);

    assert_eq!(1, fm.len());
    assert_eq!(-3, fm.total());
    assert_eq!(-3, fm.get(&2));
    assert!(!fm.contains_key(&1));
    assert!(!fm.contains_key(&3));
}

#[test]
fn drain_hands_out_each_record_once() {
    let mut fm = FrequencyMap::<i32>::from_pairs([(1, 5), (2, -3), (3, 4)]);
    let mut records = fm.drain();

    records.sort();

    assert_eq!(vec![(1, 5), (2, -3), (3, 4)], records);
    assert_eq!(0, fm.len());
    assert_eq!(0, fm.total());
    assert!(fm.drain().is_empty());
}

#[test]
fn capacity_changes_keep_the_records() {
    let mut fm = FrequencyMap::<i32>::from_pairs([(1, 5), (2, -3)]);

    fm.reserve(1000);

    assert!(fm.capacity() >= 1002);
    assert_eq!(5, fm.get(&1));

    fm.shrink_to(10);

    assert!(fm.capacity() >= 10);
    assert_eq!(5, fm.get(&1));
    assert_eq!(-3, fm.get(&2));

    fm.shrink_to_fit();

    assert!(fm.capacity() >= 2);
    assert_eq!(2, fm.len());
    assert_eq!(2, fm.total());
    assert_eq!(5, fm.get(&1));
    assert_eq!(-3, fm.get(&2));
}

#[test]
fn clone_has_the_same_records() {
    let fm = FrequencyMap::<i32>::from_pairs([(1, 5), (2, -3)]);
    let mut copy = fm.clone();

    assert_eq!(2, copy.len());
    assert_eq!(2, copy.total());
    assert_eq!(5, copy[&1]);

    copy.push(1);

    assert_eq!(6, copy[&1]);
    assert_eq!(5, fm[&1]);
}

#[test]
fn keys_from_an_iterator_with_repeats() {
    let fm = FrequencyMap::<char>::from_iter("abracadabra".chars());

    assert_eq!(5, fm.get(&'a'));
    assert_eq!(2, fm.get(&'b'));
    assert_eq!(2, fm.get(&'r'));
    assert_eq!(1, fm.get(&'c'));
    assert_eq!(1, fm.get(&'d'));
    assert_eq!(5, fm.len());
    assert_eq!(11, fm.total());
}
