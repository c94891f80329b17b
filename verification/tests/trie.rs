use ecs_trie::{Found, Node, Remove, Trie};

fn chars(word: &str) -> Vec<char> {
    word.chars().collect()
}

fn collected(found: &Found<char>) -> Vec<String> {
    found.as_collected().iter().map(|seq| seq.iter().collect::<String>()).collect()
}

fn values(trie: &Trie<char>) -> Vec<char> {
    let mut it = trie.iter();
    let mut vals = Vec::new();
    while let Some(n) = it.next() {
        vals.push(*n.as_value());
    }
    vals
}

#[test]
fn insert_find() {
    let cmp_found = vec![
        vec!['c', 'a', 't'],
        vec!['c', 'a', 'r', 't'],
        vec!['c', 'o', 'w'],
    ];
    let mut trie = Trie::new();
    trie.insert(&['c', 'a', 't']);
    trie.insert(&['c', 'a', 'r', 't']);
    trie.insert(&['c', 'o', 'w']);
    let found = trie.search(&['c']);
    for (expected, found) in cmp_found.iter().zip(found.as_collected()) {
        assert_eq!(&expected[..], found)
    }
    assert_eq!(found.as_collected().len(), 3);
}

#[test]
fn trie_iter() {
    let ord = &['c', 'a', 't', 'o', 'w'];

    let mut trie = Trie::new();
    trie.insert(&['c', 'a', 't']);
    trie.insert(&['c', 'o', 'w']);

    let mut it = trie.iter();
    let mut i = 0;
    while let Some(n) = it.next() {
        assert_eq!(ord[i], *n.as_value());
        i += 1;
    }
    assert_eq!(i, 5);
}

#[test]
fn trie_remove_with_child() {
    let ord = &['c', 'a', 't', 'o', 'w'];

    let mut trie = Trie::new();
    trie.insert(&['c', 'a', 't']);
    trie.insert(&['c', 'a', 'r', 't']);
    trie.insert(&['c', 'o', 'w']);

    trie.remove(&['c', 'a', 'r', 't']);
    let mut it = trie.iter();
    let mut i = 0;
    while let Some(n) = it.next() {
        assert_eq!(ord[i], *n.as_value());
        i += 1;
    }
    assert_eq!(i, 5);
    trie.remove(&['c', 'o', 'w']);
    trie.remove(&['c', 'a', 't']);

    assert!(trie.is_empty());
}

#[test]
fn trie_remove_with_terminal() {
    let mut t = Trie::new();
    t.insert(&['c', 'a', 'r']);
    t.insert(&['c', 'a', 'r', 't']);
    t.insert(&['c', 'a', 'r', 'r', 'o', 't']);

    t.remove(&['c', 'a', 'r', 'r', 'o', 't']);
    assert!(t.contains(&['c', 'a', 'r', 't']));

    t.remove(&['c', 'a', 'r', 't']);
    t.remove(&['c', 'a', 'r']);
    assert!(t.is_empty());
}

#[test]
fn trie_remove_with_terminal_end() {
    let mut t = Trie::new();
    t.insert(&['c', 'a', 'r']);
    t.insert(&['c', 'a', 'r', 't']);
    t.insert(&['c', 'a', 'r', 't', 'y']);

    t.remove(&['c', 'a', 'r', 't', 'y']);
    assert!(t.contains(&['c', 'a', 'r', 't']));
    assert!(t.contains(&['c', 'a', 'r']));

    t.remove(&['c', 'a', 'r', 't']);
    t.remove(&['c', 'a', 'r']);
    assert!(t.is_empty());
}

#[test]
fn trie_remove_with_inner_terminal() {
    let mut trie = Trie::new();
    trie.insert(&['c', 'a', 'r']);
    trie.insert(&['c', 'a', 'r', 't']);

    trie.remove(&['c', 'a', 'r']);
    assert!(trie.contains(&['c', 'a', 'r', 't']));
    assert!(!trie.contains(&['c', 'a', 'r']))
}

#[test]
fn similar_sequences() {
    let mut t = Trie::new();
    t.insert(&"a".chars().collect::<Vec<_>>());
    t.insert(&"aa".chars().collect::<Vec<_>>());
    t.insert(&"aaa".chars().collect::<Vec<_>>());
    t.insert(&"ab".chars().collect::<Vec<_>>());
    t.insert(&"abb".chars().collect::<Vec<_>>());
    t.insert(&"acc".chars().collect::<Vec<_>>());
    t.insert(&"ac".chars().collect::<Vec<_>>());
    t.insert(&"abc".chars().collect::<Vec<_>>());
    t.insert(&"acb".chars().collect::<Vec<_>>());
    t.insert(&"abcd".chars().collect::<Vec<_>>());
    t.insert(&"adcb".chars().collect::<Vec<_>>());

    t.remove(&"aa".chars().collect::<Vec<_>>());
    t.remove(&"a".chars().collect::<Vec<_>>());
    t.remove(&"aaa".chars().collect::<Vec<_>>());
    t.remove(&"adcb".chars().collect::<Vec<_>>());
    t.remove(&"abb".chars().collect::<Vec<_>>());
    t.remove(&"ac".chars().collect::<Vec<_>>());
    t.remove(&"acc".chars().collect::<Vec<_>>());
    t.remove(&"acb".chars().collect::<Vec<_>>());
    t.remove(&"abc".chars().collect::<Vec<_>>());
    t.remove(&"abcd".chars().collect::<Vec<_>>());
    t.remove(&"ab".chars().collect::<Vec<_>>());
    assert!(t.is_empty());
}

#[test]
fn new_trie_is_empty() {
    let trie: Trie<char> = Trie::new();
    assert!(trie.is_empty());
    assert!(!trie.contains(&['a']));
    assert!(trie.search(&['a']).as_collected().is_empty());
    assert!(values(&trie).is_empty());
    let other: Trie<u8> = Trie::default();
    assert!(other.is_empty());
}

#[test]
fn insert_then_contains() {
    let mut trie = Trie::new();
    for word in ["a", "zebra", "zeal", "ze", "b"] {
        trie.insert(&chars(word));
        assert!(trie.contains(&chars(word)));
    }
    assert!(!trie.contains(&chars("z")));
    assert!(!trie.contains(&chars("zeb")));
    assert!(!trie.contains(&chars("zebras")));
    assert!(!trie.is_empty());
}

#[test]
fn insert_empty_is_ignored() {
    let mut trie: Trie<char> = Trie::new();
    trie.insert(&[]);
    assert!(trie.is_empty());
    assert!(!trie.contains(&[]));
    trie.insert(&['x']);
    trie.insert(&[]);
    assert_eq!(values(&trie), vec!['x']);
    assert!(!trie.remove(&[]));
    assert!(trie.contains(&['x']));
}

#[test]
fn insert_twice_changes_nothing() {
    let mut trie = Trie::new();
    trie.insert(&chars("cart"));
    trie.insert(&chars("car"));
    let nodes = values(&trie);
    let found = collected(&trie.search(&chars("c")));
    trie.insert(&chars("cart"));
    trie.insert(&chars("car"));
    assert_eq!(values(&trie), nodes);
    assert_eq!(nodes.len(), 4);
    assert_eq!(collected(&trie.search(&chars("c"))), found);
    assert!(trie.contains(&chars("cart")));
    assert!(trie.contains(&chars("car")));
    assert!(!trie.contains(&chars("ca")));
}

#[test]
fn insert_promotes_inner_node() {
    let mut trie = Trie::new();
    trie.insert(&chars("cart"));
    assert!(!trie.contains(&chars("car")));
    trie.insert(&chars("car"));
    assert!(trie.contains(&chars("car")));
    assert!(trie.contains(&chars("cart")));
    assert_eq!(values(&trie), vec!['c', 'a', 'r', 't']);
}

#[test]
fn remove_absent_returns_false() {
    let mut trie = Trie::new();
    assert!(!trie.remove(&chars("cat")));
    trie.insert(&chars("cart"));
    assert!(!trie.remove(&chars("cat")));
    assert!(!trie.remove(&chars("car")));
    assert!(!trie.remove(&chars("c")));
    assert!(!trie.remove(&chars("carts")));
    assert!(trie.contains(&chars("cart")));
    assert_eq!(values(&trie), vec!['c', 'a', 'r', 't']);
    assert!(trie.remove(&chars("cart")));
    assert!(!trie.remove(&chars("cart")));
    assert!(trie.is_empty());
}

#[test]
fn remove_keeps_the_others() {
    let words = ["car", "cart", "carrot", "cat", "cow", "dog", "do"];
    for gone in words {
        let mut trie = Trie::new();
        for word in words {
            trie.insert(&chars(word));
        }
        assert!(trie.remove(&chars(gone)));
        for word in words {
            assert_eq!(trie.contains(&chars(word)), word != gone);
        }
    }
}

#[test]
fn round_trip_in_any_order() {
    let words = ["car", "cart", "carrot", "cat", "cow", "dog", "do", "d", "aab", "aac"];
    let orders: [[usize; 10]; 3] = [
        [0, 1, 2, 3, 4, 5, 6, 7, 8, 9],
        [9, 8, 7, 6, 5, 4, 3, 2, 1, 0],
        [2, 7, 0, 9, 4, 1, 6, 3, 8, 5],
    ];
    for order in orders {
        let mut trie = Trie::new();
        for word in words {
            trie.insert(&chars(word));
        }
        let mut left: Vec<&str> = words.to_vec();
        for at in order {
            assert!(trie.remove(&chars(words[at])));
            left.retain(|w| *w != words[at]);
            for word in words {
                assert_eq!(trie.contains(&chars(word)), left.contains(&word));
            }
        }
        assert!(trie.is_empty());
        assert!(values(&trie).is_empty());
    }
}

#[test]
fn overlap_scenario() {
    let mut trie = Trie::new();
    trie.insert(&chars("car"));
    trie.insert(&chars("cart"));
    trie.insert(&chars("carrot"));
    assert!(trie.contains(&chars("car")));
    assert!(trie.contains(&chars("cart")));
    assert!(trie.contains(&chars("carrot")));
    assert!(trie.remove(&chars("carrot")));
    assert!(trie.contains(&chars("cart")));
    assert!(trie.contains(&chars("car")));
    assert!(trie.remove(&chars("cart")));
    assert!(trie.contains(&chars("car")));
    assert!(trie.remove(&chars("car")));
    assert!(trie.is_empty());
}

#[test]
fn sibling_branching_scenario() {
    let mut trie = Trie::new();
    trie.insert(&chars("cat"));
    trie.insert(&chars("cow"));
    assert_eq!(collected(&trie.search(&chars("c"))), vec!["cat", "cow"]);
}

#[test]
fn search_finds_exactly_the_extensions() {
    let mut trie = Trie::new();
    for word in ["a", "abc", "ad", "aab", "aac", "b", "abcd"] {
        trie.insert(&chars(word));
    }
    assert_eq!(
        collected(&trie.search(&chars("a"))),
        vec!["a", "abc", "abcd", "ad", "aab", "aac"]
    );
    assert_eq!(collected(&trie.search(&chars("ab"))), vec!["abc", "abcd"]);
    assert_eq!(collected(&trie.search(&chars("aa"))), vec!["aab", "aac"]);
    assert_eq!(collected(&trie.search(&chars("abcd"))), vec!["abcd"]);
    assert_eq!(collected(&trie.search(&chars("b"))), vec!["b"]);
    assert!(collected(&trie.search(&chars("c"))).is_empty());
    assert!(collected(&trie.search(&chars("abcde"))).is_empty());
    assert!(collected(&trie.search(&[])).is_empty());
}

#[test]
fn search_is_independent_of_insertion_order() {
    let words = ["car", "cart", "carrot", "cat", "cow"];
    let mut forward = Trie::new();
    for word in words {
        forward.insert(&chars(word));
    }
    let mut backward = Trie::new();
    for word in words.iter().rev() {
        backward.insert(&chars(word));
    }
    let mut one = collected(&forward.search(&chars("ca")));
    let mut two = collected(&backward.search(&chars("ca")));
    assert_eq!(one, vec!["car", "cart", "carrot", "cat"]);
    assert_eq!(two, vec!["cat", "car", "carrot", "cart"]);
    one.sort();
    two.sort();
    assert_eq!(one, two);
}

#[test]
fn search_after_remove() {
    let mut trie = Trie::new();
    trie.insert(&['c', 'a', 't']);
    trie.insert(&['c', 'o', 'w']);
    assert!(trie.remove(&['c', 'a', 't']));
    assert_eq!(collected(&trie.search(&['c'])), vec!["cow"]);
}

#[test]
fn clear_drops_everything() {
    let mut trie = Trie::new();
    trie.insert(&chars("cat"));
    trie.insert(&chars("dog"));
    trie.clear();
    assert!(trie.is_empty());
    assert!(!trie.contains(&chars("cat")));
    assert!(values(&trie).is_empty());
    trie.insert(&chars("cat"));
    assert!(trie.contains(&chars("cat")));
    assert_eq!(values(&trie), vec!['c', 'a', 't']);
}

#[test]
fn iter_is_depth_first_over_all_starts() {
    let mut trie = Trie::new();
    for word in ["cat", "dog", "car", "do", "cart"] {
        trie.insert(&chars(word));
    }
    assert_eq!(values(&trie), vec!['c', 'a', 't', 'r', 't', 'd', 'o', 'g']);
    let mut it = trie.iter();
    let mut terminal = Vec::new();
    while let Some(n) = it.next() {
        terminal.push(n.is_terminal());
    }
    assert_eq!(terminal, vec![false, false, true, true, true, false, true, true]);
    assert_eq!(values(&trie), values(&trie));
}

#[test]
fn node_views() {
    let mut trie = Trie::new();
    trie.insert(&chars("ab"));
    trie.insert(&chars("ac"));
    let mut it = trie.iter();
    let first: &Node<char> = it.next().unwrap();
    assert_eq!(first.key(), &['a'][..]);
    assert_eq!(first.to_value(), 'a');
    assert_eq!(first.child_len(), 2);
    assert!(!first.is_terminal());
    let second = it.next().unwrap();
    assert_eq!(second.key(), &['a', 'b'][..]);
    assert_eq!(second.child_len(), 0);
    assert!(second.is_terminal());
    let mut below = first.walk(&trie);
    let mut seen = Vec::new();
    while let Some(n) = below.next() {
        seen.push(n.to_value());
    }
    assert_eq!(seen, vec!['a', 'b', 'c']);
}

#[test]
fn branch_states() {
    let mut trie = Trie::new();
    assert!(matches!(trie.branch_state(&chars("a")), Remove::Empty));
    trie.insert(&chars("cart"));
    assert!(matches!(trie.branch_state(&chars("cart")), Remove::Rest));
    assert!(matches!(trie.branch_state(&chars("car")), Remove::Stemish(key) if key == chars("car")));
    assert!(matches!(trie.branch_state(&chars("ca")), Remove::Stemish(key) if key == chars("ca")));
    assert!(matches!(trie.branch_state(&chars("c")), Remove::Starts(key) if key == chars("c")));
    assert!(matches!(trie.branch_state(&chars("dog")), Remove::NoMatch));
    assert!(matches!(trie.branch_state(&chars("cat")), Remove::NoMatch));
    assert!(matches!(trie.branch_state(&chars("carts")), Remove::NoMatch));
    assert!(matches!(trie.branch_state(&[]), Remove::NoMatch));
    trie.insert(&chars("car"));
    assert!(matches!(trie.branch_state(&chars("car")), Remove::Stemish(key) if key == chars("car")));
    assert!(matches!(trie.branch_state(&chars("cart")), Remove::Terminal(2)));
    trie.insert(&chars("c"));
    assert!(matches!(trie.branch_state(&chars("c")), Remove::Starts(key) if key == chars("c")));
    trie.insert(&chars("cow"));
    assert!(matches!(trie.branch_state(&chars("cow")), Remove::Terminal(0)));
    let mut other = Trie::new();
    other.insert(&chars("cat"));
    other.insert(&chars("cow"));
    assert!(matches!(other.branch_state(&chars("cow")), Remove::Childless));
    other.insert(&chars("x"));
    assert!(matches!(other.branch_state(&chars("x")), Remove::Starts(_)));
    assert!(other.remove(&chars("x")));
    assert!(other.remove(&chars("cow")));
    assert_eq!(values(&other), vec!['c', 'a', 't']);
    other.insert(&chars("dog"));
    assert!(matches!(other.branch_state(&chars("dog")), Remove::Childless));
    assert!(other.remove(&chars("dog")));
    assert_eq!(values(&other), vec!['c', 'a', 't']);
}

#[test]
fn other_element_types() {
    let mut trie: Trie<u8> = Trie::new();
    trie.insert(b"abc");
    trie.insert(b"abd");
    assert!(trie.contains(b"abc"));
    let found = trie.search(b"ab");
    assert_eq!(found.as_collected(), vec![&b"abc"[..], &b"abd"[..]]);
    let mut nums: Trie<i64> = Trie::new();
    nums.insert(&[-1, 2, -3]);
    assert!(nums.contains(&[-1, 2, -3]));
    assert!(nums.remove(&[-1, 2, -3]));
    assert!(nums.is_empty());
}

#[test]
fn remove_of_a_bare_prefix_changes_nothing() {
    let mut trie = Trie::new();
    trie.insert(&chars("cart"));
    trie.insert(&chars("cow"));
    let nodes = values(&trie);
    for prefix in ["c", "ca", "car", "co"] {
        assert!(!trie.remove(&chars(prefix)));
        assert_eq!(values(&trie), nodes);
        assert!(trie.contains(&chars("cart")));
        assert!(trie.contains(&chars("cow")));
        assert!(!trie.contains(&chars(prefix)));
    }
    assert_eq!(collected(&trie.search(&chars("c"))), vec!["cart", "cow"]);
}

#[test]
fn remove_in_the_starts_and_stemish_states() {
    let mut trie = Trie::new();
    trie.insert(&chars("c"));
    trie.insert(&chars("car"));
    trie.insert(&chars("cart"));
    assert!(matches!(trie.branch_state(&chars("c")), Remove::Starts(_)));
    assert!(trie.remove(&chars("c")));
    assert!(!trie.remove(&chars("c")));
    assert!(matches!(trie.branch_state(&chars("car")), Remove::Stemish(_)));
    assert!(trie.remove(&chars("car")));
    assert!(!trie.remove(&chars("car")));
    assert!(trie.contains(&chars("cart")));
    assert_eq!(values(&trie), vec!['c', 'a', 'r', 't']);
}

#[test]
fn search_without_a_node_keeps_the_prefix_as_its_path() {
    let mut trie = Trie::new();
    trie.insert(&chars("cat"));
    let mut found = trie.search(&chars("do"));
    assert!(found.as_collected().is_empty());
    found.branch_end_continue();
    assert_eq!(found.as_collected(), vec![&['d', 'o'][..]]);
    let mut none = trie.search(&[]);
    assert!(none.as_collected().is_empty());
    none.branch_end_continue();
    assert_eq!(none.as_collected(), vec![&[][..]]);
}

#[test]
fn nodes_are_equal_by_value() {
    let mut trie = Trie::new();
    trie.insert(&chars("aba"));
    let mut it = trie.iter();
    let first = it.next().unwrap();
    let second = it.next().unwrap();
    let third = it.next().unwrap();
    assert!(first == third);
    assert!(first != second);
    assert!(second == second);
}
