use counter::{Count, Counter, OrderedKey};
use std::cmp::Ordering;
use std::collections::HashMap;

fn letters(text: &str) -> Vec<char> {
    text.chars().collect()
}

fn count_of(text: &str) -> Counter<char, usize> {
    Counter::init(letters(text))
}

fn signed(pairs: &[(char, i32)]) -> Counter<char, i32> {
    Counter::from_iter(pairs.to_vec())
}

fn sorted<N: Count + Ord>(mut pairs: Vec<(char, N)>) -> Vec<(char, N)> {
    pairs.sort();
    pairs
}

#[test]
fn counting_then_removing_the_same_sequence_leaves_nothing() {
    for text in ["", "a", "abracadabra", "eaddbbccc", "zzzzzzzz"] {
        let mut counter = count_of(text);
        counter.subtract(letters(text));
        assert!(counter.deref().is_empty());
        assert_eq!(counter.len(), 0);
    }
}

#[test]
fn adding_then_subtracting_gives_back_the_first_operand() {
    let out = count_of("aaab").add(count_of("abb")).sub(count_of("abb"));
    assert_eq!(out, count_of("aaab"));
    let out = count_of("xyz").add(count_of("")).sub(count_of(""));
    assert_eq!(out, count_of("xyz"));
}

#[test]
fn a_stored_zero_does_not_survive_adding_then_subtracting() {
    let mut a: Counter<char, usize> = Counter::new();
    *a.index_mut(&'x') = 0;
    let out = a.clone().add(count_of("x")).sub(count_of("x"));
    assert!(out.deref().is_empty());
    assert_eq!(a.len(), 1);
}

#[test]
fn intersection_takes_the_lesser_count_of_shared_keys() {
    let out = count_of("aaabb").bitand(count_of("aabbbbe"));
    let expected: HashMap<char, usize> = [('a', 2), ('b', 2)].into_iter().collect();
    assert_eq!(out.into_map(), expected);
}

#[test]
fn union_takes_the_greater_count_of_all_keys() {
    let out = count_of("aaabb").bitor(count_of("aabbbbe"));
    let expected: HashMap<char, usize> = [('a', 3), ('b', 4), ('e', 1)].into_iter().collect();
    assert_eq!(out.into_map(), expected);
}

#[test]
fn intersection_does_not_read_an_absent_key_as_zero() {
    let a = signed(&[('a', -3), ('b', 2), ('c', -1)]);
    let b = signed(&[('a', -5), ('b', 7), ('d', -2)]);
    let expected: HashMap<char, i32> = [('a', -5), ('b', 2)].into_iter().collect();
    assert_eq!(a.bitand(b).into_map(), expected);
}

#[test]
fn union_reads_an_absent_key_as_zero() {
    let a = signed(&[('a', -3), ('b', 2), ('c', -1)]);
    let b = signed(&[('a', -5), ('b', 7), ('d', -2), ('e', 4)]);
    let expected: HashMap<char, i32> =
        [('a', -3), ('b', 7), ('c', 0), ('d', 0), ('e', 4)].into_iter().collect();
    assert_eq!(a.bitor(b).into_map(), expected);
}

#[test]
fn union_takes_the_right_count_where_the_two_are_equal() {
    let a = signed(&[('a', 2)]);
    let b = signed(&[('a', 2)]);
    let expected: HashMap<char, i32> = [('a', 2)].into_iter().collect();
    assert_eq!(a.bitor(b).into_map(), expected);
}

#[test]
fn assigning_forms_agree_with_the_value_forms() {
    let a = signed(&[('a', -3), ('b', 2), ('c', -1), ('f', 9)]);
    let b = signed(&[('a', -5), ('b', 7), ('d', -2), ('e', 4)]);

    let mut met = a.clone();
    met.bitand_assign(b.clone());
    assert_eq!(met, a.clone().bitand(b.clone()));

    let mut joined = a.clone();
    joined.bitor_assign(b.clone());
    assert_eq!(joined, a.clone().bitor(b.clone()));

    let mut sum = a.clone();
    sum.add_assign(b.clone());
    assert_eq!(sum, a.clone().add(b.clone()));

    let mut rest = a.clone();
    rest.sub_assign(b.clone());
    assert_eq!(rest, a.sub(b));
}

#[test]
fn intersection_assignment_drops_keys_of_one_operand() {
    let mut c = count_of("aaab");
    c.bitand_assign(count_of("a"));
    let expected: HashMap<char, usize> = [('a', 1)].into_iter().collect();
    assert_eq!(c.into_map(), expected);
}

#[test]
fn subset_and_superset_mirror_each_other() {
    let samples = vec![
        signed(&[]),
        signed(&[('a', 1)]),
        signed(&[('a', 1), ('b', 2)]),
        signed(&[('a', 3), ('b', 2), ('e', -1)]),
        signed(&[('a', 3), ('b', 2), ('e', -2)]),
        signed(&[('e', -1)]),
        signed(&[('z', 0)]),
        signed(&[('a', -4), ('b', -4)]),
    ];
    for a in samples.iter() {
        for b in samples.iter() {
            assert_eq!(a.is_subset(b), b.is_superset(a));
        }
        assert!(a.is_subset(a));
        assert!(a.is_superset(a));
    }
}

#[test]
fn subset_looks_at_the_keys_of_both() {
    let empty = signed(&[]);
    let short = signed(&[('e', -1)]);
    assert!(short.is_subset(&empty));
    assert!(!empty.is_subset(&short));
    assert!(empty.is_superset(&short));
    assert!(!short.is_superset(&empty));

    let counter = count_of("aaabb");
    assert!(counter.is_subset(&count_of("aaabbbc")));
    assert!(!counter.is_subset(&count_of("aaae")));
    assert!(count_of("aaabbbc").is_superset(&count_of("aabbb")));
    assert!(!count_of("aaabbbc").is_superset(&count_of("aaae")));
}

#[test]
fn the_k_most_common_are_the_start_of_the_full_ranking() {
    let mut keys: Vec<u64> = Vec::new();
    for i in 0..200u64 {
        // many ties: the count of key j is 1 + j % 7
        for _ in 0..(1 + i % 7) {
            keys.push(i);
        }
    }
    let counter: Counter<u64, usize> = Counter::init(keys);
    let all = counter.most_common_ordered();
    assert_eq!(all.len(), 200);
    for k in 0..=counter.len() + 3 {
        let top = counter.k_most_common_ordered(k);
        let cut = k.min(all.len());
        assert_eq!(&top, &all[..cut]);
    }
    for pair in all.windows(2) {
        let (a, b) = (pair[0], pair[1]);
        assert!(a.1 > b.1 || (a.1 == b.1 && a.0 < b.0));
    }
}

#[test]
fn ranked_top_two_prefers_the_lesser_key_among_ties() {
    let counter = count_of("eaddbbccc");
    assert_eq!(counter.k_most_common_ordered(2), vec![('c', 3), ('b', 2)]);
    assert_eq!(counter.k_most_common_ordered(1), vec![('c', 3)]);
    assert_eq!(counter.k_most_common_ordered(3), vec![('c', 3), ('b', 2), ('d', 2)]);
}

#[test]
fn asking_for_none_or_for_more_than_there_are() {
    let counter = count_of("abracadabra");
    assert_eq!(counter.k_most_common_ordered(0), vec![]);
    let all = vec![('a', 5), ('b', 2), ('r', 2), ('c', 1), ('d', 1)];
    assert_eq!(counter.k_most_common_ordered(5), all);
    assert_eq!(counter.k_most_common_ordered(6), all);
    assert_eq!(counter.k_most_common_ordered(usize::MAX), all);
    let empty: Counter<char, usize> = Counter::new();
    assert_eq!(empty.k_most_common_ordered(4), vec![]);
    assert_eq!(empty.most_common_ordered(), vec![]);
}

#[test]
fn ranking_orders_signed_keys_and_counts() {
    let counter: Counter<i32, i64> =
        Counter::from_iter(vec![(-5, 2), (3, -1), (-7, 2), (0, 9), (4, -1), (1, 0)]);
    let expected = vec![(0, 9), (-7, 2), (-5, 2), (1, 0), (3, -1), (4, -1)];
    assert_eq!(counter.most_common_ordered(), expected);
    assert_eq!(counter.k_most_common_ordered(4), expected[..4].to_vec());
}

#[test]
fn reading_an_absent_key_gives_zero_and_stores_nothing() {
    let counter = count_of("aabbcc");
    assert_eq!(*counter.index(&'a'), 2);
    assert_eq!(*counter.index(&'d'), 0);
    assert_eq!(counter.len(), 3);
    assert_eq!(counter.deref().get(&'d'), None);

    let empty: Counter<char, usize> = Counter::new();
    assert_eq!(*empty.index(&'a'), 0);
    assert_eq!(empty.len(), 0);
}

#[test]
fn writing_to_an_absent_key_stores_a_zero_first() {
    let mut counter = count_of("aabbcc");
    let before = counter.len();
    let slot = counter.index_mut(&'d');
    assert_eq!(*slot, 0);
    assert_eq!(counter.len(), before + 1);
    assert_eq!(counter.deref().get(&'d'), Some(&0));

    let slot = counter.index_mut(&'c');
    assert_eq!(*slot, 2);
    *slot += 1;
    assert_eq!(counter.len(), before + 1);
    assert_eq!(*counter.index(&'c'), 3);
}

#[test]
fn removing_touches_positive_counts_and_stored_zeros_only() {
    let mut counter = signed(&[('p', 3), ('o', 1), ('z', 0), ('n', -2), ('u', 5)]);
    counter.subtract(letters("ppoznq"));
    let expected: HashMap<char, i32> = [('p', 1), ('n', -2), ('u', 5)].into_iter().collect();
    assert_eq!(counter.into_map(), expected);

    let mut counter = count_of("abbccc");
    counter.subtract(letters("abba"));
    let expected: HashMap<char, usize> = [('c', 3)].into_iter().collect();
    assert_eq!(counter.into_map(), expected);
}

#[test]
fn subtracting_keeps_positive_remainders_only() {
    let a = signed(&[('g', 5), ('e', 2), ('s', 1), ('z', 0), ('n', -3), ('k', 4), ('m', -1)]);
    let b = signed(&[('g', 2), ('e', 2), ('s', 3), ('z', 0), ('n', -5), ('q', 1), ('m', 0)]);
    let expected: HashMap<char, i32> = [('g', 3), ('n', 2), ('k', 4)].into_iter().collect();
    assert_eq!(a.sub(b).into_map(), expected);

    let out = count_of("aaab").sub(count_of("abb"));
    let expected: HashMap<char, usize> = [('a', 2)].into_iter().collect();
    assert_eq!(out.into_map(), expected);
}

#[test]
fn adding_removes_no_entry() {
    let a = signed(&[('a', 1), ('b', -2)]);
    let b = signed(&[('a', -1), ('c', 0), ('b', -2)]);
    let expected: HashMap<char, i32> = [('a', 0), ('b', -4), ('c', 0)].into_iter().collect();
    assert_eq!(a.clone().add(b.clone()).into_map(), expected);
    assert_eq!(a.clone().add(b.clone()), b.add(a));
}

#[test]
fn pairs_for_one_key_add_up() {
    let counter: Counter<char, usize> =
        Counter::from_iter(vec![('a', 1), ('b', 2), ('c', 3), ('a', 4)]);
    let expected: HashMap<char, usize> = [('a', 5), ('b', 2), ('c', 3)].into_iter().collect();
    assert_eq!(counter.into_map(), expected);

    let mut counter = count_of("abbccc");
    counter.extend(vec![('a', 1), ('b', 2), ('c', 3), ('a', 4), ('z', 0)]);
    let expected: HashMap<char, usize> =
        [('a', 6), ('b', 4), ('c', 6), ('z', 0)].into_iter().collect();
    assert_eq!(counter.into_map(), expected);
}

#[test]
fn total_adds_up_all_counts() {
    let counter = signed(&[('a', 7), ('b', -10), ('c', 0), ('d', 4)]);
    assert_eq!(counter.total(), 1);
    assert_eq!(count_of("abracadabra").total(), 11);
    assert_eq!(count_of("abracadabra").len(), 5);
    assert_eq!(signed(&[]).total(), 0);
}

#[test]
fn min_count_keeps_the_counts_that_reach_the_bound() {
    let counter = count_of("abababa");
    assert_eq!(counter.min_count(4), vec![('a', 4)]);
    assert_eq!(counter.min_count(5), vec![]);
    assert_eq!(sorted(counter.min_count(3)), vec![('a', 4), ('b', 3)]);
    assert_eq!(sorted(counter.min_count(0)), vec![('a', 4), ('b', 3)]);

    let counter = signed(&[('a', 2), ('n', -1), ('z', 0)]);
    assert_eq!(sorted(counter.min_count(0)), vec![('a', 2), ('z', 0)]);
    assert_eq!(counter.min_count(1), vec![('a', 2)]);
}

#[test]
fn most_common_gives_every_entry_by_descending_count() {
    let counter = count_of("pappaopolo");
    assert_eq!(counter.most_common(), vec![('p', 4), ('o', 3), ('a', 2), ('l', 1)]);

    let counter = count_of("eaddbbccc");
    let ranked = counter.most_common();
    assert_eq!(ranked.len(), 5);
    for pair in ranked.windows(2) {
        assert!(pair[0].1 >= pair[1].1);
    }
    assert_eq!(sorted(ranked), sorted(counter.entries()));
}

#[test]
fn a_tie_break_that_is_no_ordering_still_ranks_by_count() {
    let counter = count_of("the quick brown fox jumps over the lazy dog");
    let ranked = counter.most_common_tiebreaker(|_, _| Ordering::Less);
    assert_eq!(ranked.len(), counter.len());
    for pair in ranked.windows(2) {
        assert!(pair[0].1 >= pair[1].1);
    }
    assert_eq!(sorted(ranked), sorted(counter.entries()));

    let ranked = counter.most_common_tiebreaker(|_, _| Ordering::Greater);
    for pair in ranked.windows(2) {
        assert!(pair[0].1 >= pair[1].1);
    }
    assert_eq!(sorted(ranked), sorted(counter.entries()));
}

#[test]
fn the_tie_break_is_asked_about_ties_only() {
    let counter = count_of("abbcccdddd");
    let ranked = counter.most_common_tiebreaker(|_, _| panic!("no two counts are equal"));
    assert_eq!(ranked, vec![('d', 4), ('c', 3), ('b', 2), ('a', 1)]);
}

#[test]
fn entries_list_each_entry_once() {
    let counter = count_of("abracadabra");
    let expected = vec![('a', 5), ('b', 2), ('c', 1), ('d', 1), ('r', 2)];
    assert_eq!(sorted(counter.entries()), expected);
    let empty: Counter<char, usize> = Counter::default();
    assert_eq!(empty.entries(), vec![]);
    assert_eq!(empty, Counter::new());
}

#[test]
fn every_count_type_starts_at_zero_and_steps_by_one() {
    let c: Counter<u8, usize> = Counter::init(vec![1, 1]);
    assert_eq!((*c.index(&0), *c.index(&1)), (0, 2));
    let c: Counter<u8, u32> = Counter::init(vec![1, 1]);
    assert_eq!((*c.index(&0), *c.index(&1)), (0, 2));
    let c: Counter<u8, u64> = Counter::init(vec![1, 1]);
    assert_eq!((*c.index(&0), *c.index(&1)), (0, 2));
    let c: Counter<u8, i8> = Counter::init(vec![1, 1]);
    assert_eq!((*c.index(&0), *c.index(&1)), (0, 2));
    let c: Counter<u8, i32> = Counter::init(vec![1, 1]);
    assert_eq!((*c.index(&0), *c.index(&1)), (0, 2));
    let c: Counter<u8, i64> = Counter::init(vec![1, 1]);
    assert_eq!((*c.index(&0), *c.index(&1)), (0, 2));

    assert_eq!((<usize as Count>::zero(), <usize as Count>::one()), (0, 1));
    assert_eq!((<u32 as Count>::zero(), <u32 as Count>::one()), (0, 1));
    assert_eq!((<u64 as Count>::zero(), <u64 as Count>::one()), (0, 1));
    assert_eq!((<i8 as Count>::zero(), <i8 as Count>::one()), (0, 1));
    assert_eq!((<i32 as Count>::zero(), <i32 as Count>::one()), (0, 1));
    assert_eq!((<i64 as Count>::zero(), <i64 as Count>::one()), (0, 1));
}

#[test]
fn counts_add_subtract_and_compare() {
    assert_eq!(5i8.plus(-7), -2);
    assert_eq!(5i8.minus(-7), 12);
    assert_eq!(100i8.checked_plus(27), Some(127));
    assert_eq!(100i8.checked_plus(28), None);
    assert_eq!((-100i8).checked_minus(28), Some(-128));
    assert_eq!((-100i8).checked_minus(29), None);
    assert_eq!(0u32.checked_minus(1), None);
    assert_eq!(u64::MAX.checked_plus(1), None);
    assert!(3u32.at_most(3) && 3u32.at_most(4) && !3u32.at_most(2));
    assert!(3i64.same(3) && !3i64.same(-3));
    assert!(4usize.reaches(4) && !4usize.reaches(5));
    assert!(!(-1i32).reaches(0) && 0i32.reaches(0) && 7i32.reaches(7) && !7i32.reaches(8));
    assert!(u64::MAX.reaches(usize::MAX));
    assert!(!i8::MAX.reaches(128));
}

#[test]
fn keys_precede_by_their_natural_order() {
    assert!('a'.precedes(&'b') && !'b'.precedes(&'a') && !'a'.precedes(&'a'));
    assert!((-3i32).precedes(&2) && !2i32.precedes(&-3));
    assert!(0u8.precedes(&255) && !255u8.precedes(&0));
    assert!(i64::MIN.precedes(&i64::MAX));
    assert!(7usize.precedes(&8) && !8usize.precedes(&8));
}

#[test]
fn the_backing_map_can_be_written_to() {
    let mut counter = count_of("aa-bb-cc");
    counter.deref_mut().insert('z', 0);
    counter.deref_mut().remove(&'-');
    let expected: HashMap<char, usize> =
        [('a', 2), ('b', 2), ('c', 2), ('z', 0)].into_iter().collect();
    assert_eq!(*counter.deref(), expected);
    assert_eq!(counter.len(), 4);
}
