use counter::Counter;
use rand::Rng;
use std::cell::Cell;
use std::collections::HashMap;

fn chars(text: &str) -> Vec<char> {
    text.chars().collect()
}

fn words(text: &str) -> Vec<&str> {
    text.split_whitespace().collect()
}

fn char_map(pairs: &[(char, usize)]) -> HashMap<char, usize> {
    pairs.iter().cloned().collect()
}

#[derive(Debug, Hash, PartialEq, Eq)]
struct Inty {
    i: usize,
}

impl Inty {
    pub fn new(i: usize) -> Inty {
        Inty { i }
    }
}

#[test]
fn test_creation() {
    let _: Counter<usize, usize> = Counter::new();

    let initializer = &[1];
    let counter: Counter<&i32, usize> = Counter::init(initializer.iter().collect());

    let mut expected = HashMap::new();
    let one: i32 = 1;
    expected.insert(&one, 1);
    assert!(counter.into_map() == expected);
}

#[test]
fn test_update() {
    let mut counter: Counter<char, usize> = Counter::init(chars("abbccc"));
    let expected = char_map(&[('a', 1), ('b', 2), ('c', 3)]);
    assert!(counter.clone().into_map() == expected);

    counter.update(chars("aeeeee"));
    let expected = char_map(&[('a', 2), ('b', 2), ('c', 3), ('e', 5)]);
    assert!(counter.into_map() == expected);
}

#[test]
fn test_add_update_iterable() {
    let mut counter: Counter<char, usize> = Counter::init(chars("abbccc"));
    let expected = char_map(&[('a', 1), ('b', 2), ('c', 3)]);
    assert!(*counter.deref() == expected);

    counter.update(chars("aeeeee"));
    let expected = char_map(&[('a', 2), ('b', 2), ('c', 3), ('e', 5)]);
    assert!(*counter.deref() == expected);
}

#[test]
fn test_add_update_counter() {
    let mut counter: Counter<char, usize> = Counter::init(chars("abbccc"));
    let expected = char_map(&[('a', 1), ('b', 2), ('c', 3)]);
    assert!(*counter.deref() == expected);

    let other = Counter::init(chars("aeeeee"));
    counter.add_assign(other);
    let expected = char_map(&[('a', 2), ('b', 2), ('c', 3), ('e', 5)]);
    assert!(counter.into_map() == expected);
}

#[test]
fn test_subtract() {
    let mut counter: Counter<char, usize> = Counter::init(chars("abbccc"));
    counter.subtract(chars("bbccddd"));
    let expected = char_map(&[('a', 1), ('c', 1)]);
    assert!(counter.into_map() == expected);
}

#[test]
fn test_sub_update_iterable() {
    let mut counter: Counter<char, usize> = Counter::init(chars("abbccc"));
    counter.subtract(chars("bbccddd"));
    let expected = char_map(&[('a', 1), ('c', 1)]);
    assert!(*counter.deref() == expected);
}

#[test]
fn test_sub_update_counter() {
    let mut counter: Counter<char, usize> = Counter::init(chars("abbccc"));
    let other = Counter::init(chars("bbccddd"));
    counter.sub_assign(other);
    let expected = char_map(&[('a', 1), ('c', 1)]);
    assert!(counter.into_map() == expected);
}

#[test]
fn test_composite_add_sub() {
    let mut counts: Counter<&str, usize> =
        Counter::init(words("able babble table babble rabble table able fable scrabble"));
    // add or subtract a sequence of the same type
    counts.update(words("cain and abel fable table cable"));
    // or add or subtract from another Counter of the same type
    let other_counts = Counter::init(words("scrabble cabbie fable babble"));
    let _diff = counts.sub(other_counts);
}

#[test]
fn test_most_common() {
    let counter: Counter<char, usize> = Counter::init(chars("abbccc"));
    let by_common = counter.most_common();
    let expected = vec![('c', 3), ('b', 2), ('a', 1)];
    assert!(by_common == expected);
}

#[test]
fn test_most_common_tiebreaker() {
    let counter: Counter<char, usize> = Counter::init(chars("eaddbbccc"));
    let by_common = counter.most_common_tiebreaker(|&a, &b| a.cmp(&b));
    let expected = vec![('c', 3), ('b', 2), ('d', 2), ('a', 1), ('e', 1)];
    assert!(by_common == expected);
}

#[test]
fn test_most_common_tiebreaker_reversed() {
    let counter: Counter<char, usize> = Counter::init(chars("eaddbbccc"));
    let by_common = counter.most_common_tiebreaker(|&a, &b| b.cmp(&a));
    let expected = vec![('c', 3), ('d', 2), ('b', 2), ('e', 1), ('a', 1)];
    assert!(by_common == expected);
}

// The main purpose of this test is to see that the tie-break may keep a
// tally of its own calls.
#[test]
fn test_most_common_tiebreaker_fn_mut() {
    let counter: Counter<char, usize> = Counter::init(chars("abracadabra"));
    // Count how many times the tiebreaker closure is called.
    let num_ties = Cell::new(0);
    let sorted = counter.most_common_tiebreaker(|a, b| {
        num_ties.set(num_ties.get() + 1);
        a.cmp(b)
    });
    let expected = vec![('a', 5), ('b', 2), ('r', 2), ('c', 1), ('d', 1)];
    assert_eq!(sorted, expected);
    // We should have called the tiebreaker twice: once to resolve the tie between `'b'` and
    // `'r'` and once to resolve the tie between `'c'` and `'d'`.
    assert_eq!(num_ties.get(), 2);
}

#[test]
fn test_most_common_ordered() {
    let counter: Counter<char, usize> = Counter::init(chars("eaddbbccc"));
    let by_common = counter.most_common_ordered();
    let expected = vec![('c', 3), ('b', 2), ('d', 2), ('a', 1), ('e', 1)];
    assert!(by_common == expected);
}

#[test]
fn test_k_most_common_ordered() {
    let counter: Counter<char, usize> = Counter::init(chars("abracadabra"));
    let all = counter.most_common_ordered();
    for k in 0..=counter.len() {
        let topk = counter.k_most_common_ordered(k);
        assert_eq!(&topk, &all[..k]);
    }
}

/// This test is fundamentally the same as `test_k_most_common_ordered`, but it operates on
/// a wider variety of data. In particular, it tests both longer, narrower, and wider
/// distributions of data than the other test does.
#[test]
fn test_k_most_common_ordered_heavy() {
    let mut rng = rand::thread_rng();

    for container_size in [5, 10, 25, 100, 256] {
        for max_value_factor in [0.25, 0.5, 1.0, 1.25, 2.0, 10.0, 100.0] {
            let max_value = ((container_size as f64) * max_value_factor) as u32;
            let mut values = vec![0; container_size];
            for value in values.iter_mut() {
                *value = rng.gen_range(0..=max_value);
            }

            let counter: Counter<u32, usize> = Counter::init(values);
            let all = counter.most_common_ordered();
            for k in 0..=counter.len() {
                let topk = counter.k_most_common_ordered(k);
                assert_eq!(&topk, &all[..k]);
            }
        }
    }
}

#[test]
fn test_total() {
    let counter: Counter<char, usize> = Counter::init(chars(""));
    let total: usize = counter.total();
    assert_eq!(total, 0);

    let counter: Counter<char, usize> = Counter::init(chars("eaddbbccc"));
    let total: usize = counter.total();
    assert_eq!(total, 9);
}

#[test]
fn test_add() {
    let d: Counter<char, usize> = Counter::init(chars("abbccc"));
    let e: Counter<char, usize> = Counter::init(chars("bccddd"));

    let out = d.add(e);
    let expected = Counter::init(chars("abbbcccccddd"));
    assert!(out == expected);
}

#[test]
fn test_sub() {
    let d: Counter<char, usize> = Counter::init(chars("abbccc"));
    let e: Counter<char, usize> = Counter::init(chars("bccddd"));

    let out = d.sub(e);
    let expected = Counter::init(chars("abc"));
    assert!(out == expected);
}

#[test]
fn test_intersection() {
    let d: Counter<char, usize> = Counter::init(chars("abbccc"));
    let e: Counter<char, usize> = Counter::init(chars("bccddd"));

    let out = d.bitand(e);
    let expected = Counter::init(chars("bcc"));
    assert!(out == expected);
}

#[test]
fn test_union() {
    let d: Counter<char, usize> = Counter::init(chars("abbccc"));
    let e: Counter<char, usize> = Counter::init(chars("bccddd"));

    let out = d.bitor(e);
    let expected = Counter::init(chars("abbcccddd"));
    assert!(out == expected);
}

#[test]
fn test_delete_key_from_backing_map() {
    let mut counter: Counter<char, usize> = Counter::init(chars("aa-bb-cc"));
    counter.deref_mut().remove(&'-');
    assert!(counter == Counter::init(chars("aabbcc")));
}

#[test]
fn test_from_iter_simple() {
    let counter: Counter<char, usize> = Counter::init("abbccc".chars().collect());
    let expected = char_map(&[('a', 1), ('b', 2), ('c', 3)]);
    assert!(counter.into_map() == expected);
}

#[test]
fn test_from_iter_tuple() {
    let items = [('a', 1), ('b', 2), ('c', 3)];
    let counter: Counter<char, usize> = Counter::from_iter(items.iter().cloned().collect());
    let expected: HashMap<char, usize> = items.iter().cloned().collect();
    assert_eq!(counter.into_map(), expected);
}

#[test]
fn test_from_iter_tuple_with_duplicates() {
    let items = [('a', 1), ('b', 2), ('c', 3)];
    let counter: Counter<char, usize> =
        Counter::from_iter(items.iter().cycle().take(items.len() * 2).cloned().collect());
    let expected: HashMap<char, usize> = items.iter().map(|(c, n)| (*c, n * 2)).collect();
    assert_eq!(counter.into_map(), expected);
}

#[test]
fn test_extend_simple() {
    let mut counter: Counter<char, usize> = Counter::init(chars("abbccc"));
    counter.update(chars("bccddd"));
    let expected = char_map(&[('a', 1), ('b', 3), ('c', 5), ('d', 3)]);
    assert!(counter.into_map() == expected);
}

#[test]
fn test_extend_tuple() {
    let mut counter: Counter<char, usize> = Counter::init(chars("bccddd"));
    let items = [('a', 1), ('b', 2), ('c', 3)];
    counter.extend(items.iter().cloned().collect());
    let expected = char_map(&[('a', 1), ('b', 3), ('c', 5), ('d', 3)]);
    assert_eq!(counter.into_map(), expected);
}

#[test]
fn test_extend_tuple_with_duplicates() {
    let mut counter: Counter<char, usize> = Counter::init(chars("ccc"));
    let items = [('a', 1), ('b', 2), ('c', 3)];
    counter.extend(items.iter().cycle().take(items.len() * 2 - 1).cloned().collect());
    let expected: HashMap<char, usize> = items.iter().map(|(c, n)| (*c, n * 2)).collect();
    assert_eq!(counter.into_map(), expected);
}

#[test]
fn test_count_minimal_type() {
    // <https://en.wikipedia.org/wiki/867-5309/Jenny>
    let intys = vec![
        Inty::new(8),
        Inty::new(0),
        Inty::new(0),
        Inty::new(8),
        Inty::new(6),
        Inty::new(7),
        Inty::new(5),
        Inty::new(3),
        Inty::new(0),
        Inty::new(9),
    ];

    let inty_counts: Counter<Inty, usize> = Counter::init(intys);
    assert!(inty_counts.deref().get(&Inty { i: 8 }) == Some(&2));
    assert!(inty_counts.deref().get(&Inty { i: 0 }) == Some(&3));
    assert!(inty_counts.deref().get(&Inty { i: 6 }) == Some(&1));
}

#[test]
fn test_collect() {
    let counter: Counter<char, usize> = Counter::init("abbccc".chars().collect());
    let expected = char_map(&[('a', 1), ('b', 2), ('c', 3)]);
    assert!(counter.into_map() == expected);
}

#[test]
fn test_non_usize_count() {
    let counter: Counter<char, i8> = Counter::init(chars("abbccc"));
    let expected: HashMap<char, i8> = [('a', 1), ('b', 2), ('c', 3)].iter().cloned().collect();
    assert!(counter.into_map() == expected);
}

#[test]
fn test_superset_non_usize_count() {
    let mut a: Counter<char, i8> = Counter::init(chars("abbcccc"));
    let mut b: Counter<char, i8> = Counter::init(chars("abb"));
    assert!(a.is_superset(&b));
    // Negative values are possible, a is no longer a superset
    *a.index_mut(&'e') = -1;
    assert!(!a.is_superset(&b));
    // Adjust b to make a a superset again
    *b.index_mut(&'e') = -2;
    assert!(a.is_superset(&b));
}

#[test]
fn test_subset_non_usize_count() {
    let mut a: Counter<char, i8> = Counter::init(chars("abb"));
    let mut b: Counter<char, i8> = Counter::init(chars("abbcccc"));
    assert!(a.is_subset(&b));
    // Negative values are possible; a is no longer a subset
    *b.index_mut(&'e') = -1;
    assert!(!a.is_subset(&b));
    // Adjust a to make it a subset again
    *a.index_mut(&'e') = -2;
    assert!(a.is_subset(&b));
}

#[test]
fn test_min_count() {
    let counter: Counter<char, usize> = Counter::init(chars("cbcabcdddd"));
    let mut by_min = counter.min_count(2);
    by_min.sort_by(|(_, v1), (_, v2)| v2.cmp(v1));
    let expected = vec![('d', 4), ('c', 3), ('b', 2)];
    assert!(by_min == expected);
}

#[test]
fn test_min_count_identity() {
    let counter: Counter<char, usize> = Counter::init(chars("cbcabcdddd"));
    let mut by_min = counter.min_count(0);
    by_min.sort_by(|(_, v1), (_, v2)| v2.cmp(v1));
    let expected = vec![('d', 4), ('c', 3), ('b', 2), ('a', 1)];
    assert!(by_min == expected);
}

#[test]
fn test_into_counter() {
    let counter: Counter<&str, u32> = Counter::init(words("ab cd ab"));
    let expected: Counter<&str, u32> = Counter::from_iter(vec![("ab", 2), ("cd", 1)]);
    assert!(counter == expected)
}

#[test]
fn test_into_counter_empty() {
    let counter: Counter<&str, u32> = Counter::new();
    let expected: Counter<&str, u32> = Counter::from_iter(vec![]);
    assert!(counter == expected)
}

#[test]
fn test_min_count_most_common_composition() {
    let counter: Counter<char, usize> = Counter::init(chars("abcdefgggg"));
    let by_common: Counter<char, usize> = Counter::from_iter(counter.k_most_common_ordered(3));
    let by_min_and_common = by_common.min_count(2);
    let expected = vec![('g', 4)];
    assert!(by_min_and_common == expected);
}
