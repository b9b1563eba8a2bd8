use aleph_alpha_tokenizer::automaton::{build_automaton, find_longest_prefix};

fn pairs(items: &[(&str, u64)]) -> Vec<(Vec<u8>, u64)> {
    items.iter().map(|(k, v)| (k.as_bytes().to_vec(), *v)).collect()
}

#[test]
fn longest_prefix_is_a_whole_key() {
    let fst = build_automaton(pairs(&[("inter", 5), ("interest", 9), ("in", 2)])).unwrap();
    assert_eq!(find_longest_prefix(&fst, b"interessant"), Some((5, 5)));
    assert_eq!(find_longest_prefix(&fst, b"interesting"), Some((8, 9)));
    assert_eq!(find_longest_prefix(&fst, b"in"), Some((2, 2)));
    assert_eq!(find_longest_prefix(&fst, b"inx"), Some((2, 2)));
    assert_eq!(find_longest_prefix(&fst, b"i"), None);
    assert_eq!(find_longest_prefix(&fst, b"x"), None);
    assert_eq!(find_longest_prefix(&fst, b""), None);
}

#[test]
fn longest_prefix_gives_the_value_of_its_key() {
    // keys that share prefixes and suffixes, with values in no order
    let items = [
        ("a", 700u64),
        ("ab", 3),
        ("abc", 900_000),
        ("abd", 1),
        ("b", 41),
        ("bc", 40),
        ("c", 0),
        ("xbc", 12),
        ("xbd", 13),
    ];
    let fst = build_automaton(pairs(&items)).unwrap();
    for (key, value) in items.iter() {
        assert_eq!(find_longest_prefix(&fst, key.as_bytes()), Some((key.len(), *value)));
    }
    assert_eq!(find_longest_prefix(&fst, b"abz"), Some((2, 3)));
    assert_eq!(find_longest_prefix(&fst, b"az"), Some((1, 700)));
    assert_eq!(find_longest_prefix(&fst, b"xb"), None);
    assert_eq!(find_longest_prefix(&fst, b"xbcd"), Some((3, 12)));
}

#[test]
fn longest_prefix_passes_states_that_are_no_keys() {
    let fst = build_automaton(pairs(&[("a", 1), ("abcd", 2)])).unwrap();
    assert_eq!(find_longest_prefix(&fst, b"abc"), Some((1, 1)));
    assert_eq!(find_longest_prefix(&fst, b"abcd"), Some((4, 2)));
    assert_eq!(find_longest_prefix(&fst, b"abcde"), Some((4, 2)));
}

#[test]
fn the_empty_key_is_never_a_match() {
    let fst = build_automaton(pairs(&[("", 7), ("a", 8)])).unwrap();
    assert_eq!(find_longest_prefix(&fst, b""), None);
    assert_eq!(find_longest_prefix(&fst, b"b"), None);
    assert_eq!(find_longest_prefix(&fst, b"ab"), Some((1, 8)));
}

#[test]
fn keys_are_bytes_not_characters() {
    let fst = build_automaton(vec![(vec![0xc3], 1), (vec![0xc3, 0xa4], 2), (vec![0xff, 0x00], 3)])
        .unwrap();
    assert_eq!(find_longest_prefix(&fst, "ä".as_bytes()), Some((2, 2)));
    assert_eq!(find_longest_prefix(&fst, "ö".as_bytes()), Some((1, 1)));
    assert_eq!(find_longest_prefix(&fst, &[0xff, 0x00, 0x01]), Some((2, 3)));
}

#[test]
fn pairs_may_come_in_any_order() {
    let fst = build_automaton(pairs(&[("zebra", 1), ("apple", 2), ("mango", 3), ("app", 4)]))
        .unwrap();
    assert_eq!(find_longest_prefix(&fst, b"apple"), Some((5, 2)));
    assert_eq!(find_longest_prefix(&fst, b"appl"), Some((3, 4)));
    assert_eq!(find_longest_prefix(&fst, b"zebra"), Some((5, 1)));
    assert_eq!(find_longest_prefix(&fst, b"mango!"), Some((5, 3)));
}

#[test]
fn a_key_twice_cannot_be_built() {
    assert!(build_automaton(pairs(&[("a", 1), ("b", 2), ("a", 3)])).is_err());
    assert!(build_automaton(pairs(&[("a", 1), ("a", 1)])).is_err());
    assert!(build_automaton(pairs(&[("", 1), ("", 2)])).is_err());
}

#[test]
fn no_pairs_give_an_automaton_without_keys() {
    let fst = build_automaton(Vec::new()).unwrap();
    assert_eq!(find_longest_prefix(&fst, b"anything"), None);
}

#[test]
fn large_values_come_back_whole() {
    let fst = build_automaton(pairs(&[("a", u64::MAX), ("ab", u64::MAX - 1), ("b", 1 << 40)]))
        .unwrap();
    assert_eq!(find_longest_prefix(&fst, b"a"), Some((1, u64::MAX)));
    assert_eq!(find_longest_prefix(&fst, b"abc"), Some((2, u64::MAX - 1)));
    assert_eq!(find_longest_prefix(&fst, b"b"), Some((1, 1 << 40)));
}

fn next(state: &mut u64) -> u64 {
    *state = state.wrapping_mul(6364136223846793005).wrapping_add(1442695040888963407);
    *state >> 24
}

fn some_bytes(state: &mut u64, longest: u64) -> Vec<u8> {
    let len = next(state) % (longest + 1);
    (0..len).map(|_| b"abcd\xc3\xa4"[(next(state) % 6) as usize]).collect()
}

#[test]
fn longest_prefix_agrees_with_a_search_through_the_keys() {
    let mut state: u64 = 0x9e37_79b9_7f4a_7c15;
    for round in 0..40 {
        let mut keys: std::collections::HashMap<Vec<u8>, u64> = std::collections::HashMap::new();
        while keys.len() < 5 + 20 * round {
            let value = match next(&mut state) % 4 {
                0 => next(&mut state) % 50,
                1 => u64::MAX - next(&mut state) % 50,
                _ => next(&mut state) << (next(&mut state) % 24),
            };
            keys.insert(some_bytes(&mut state, 7), value);
        }
        let pairs: Vec<(Vec<u8>, u64)> = keys.iter().map(|(k, v)| (k.clone(), *v)).collect();
        let fst = build_automaton(pairs).unwrap();
        for _ in 0..300 {
            let input = some_bytes(&mut state, 10);
            let mut expected = None;
            for n in 1..=input.len() {
                if let Some(value) = keys.get(&input[..n]) {
                    expected = Some((n, *value));
                }
            }
            assert_eq!(find_longest_prefix(&fst, &input), expected);
        }
    }
}

#[test]
fn an_automaton_holds_many_keys() {
    let pairs: Vec<(Vec<u8>, u64)> =
        (0..30000u64).rev().map(|i| (format!("key{}", i * 7919 % 30011).into_bytes(), i)).collect();
    let fst = build_automaton(pairs.clone()).unwrap();
    for (key, value) in pairs.iter().step_by(97) {
        assert_eq!(find_longest_prefix(&fst, key), Some((key.len(), *value)));
    }
}
