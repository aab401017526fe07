use scrablozaur::builder::{build_checked, build_dawg, BuildError};
use scrablozaur::graph::{Dawg, GraphDecodeError, Node};
use scrablozaur::text::{get_pref_len, is_sorted_dedup, length_common_prefix};

fn list(words: &[&str]) -> Vec<String> {
    words.iter().map(|w| w.to_string()).collect()
}

#[test]
fn accepts_every_listed_word() {
    let words = list(&["bar", "bars", "car", "cars", "cat", "do", "dog", "dogs"]);
    let dawg = build_dawg(&words);
    for w in words.iter() {
        assert!(dawg.lookup(w), "{} should be accepted", w);
    }
}

#[test]
fn rejects_words_not_listed() {
    let dawg = build_dawg(&list(&["bar", "bars", "car", "cars"]));
    assert!(!dawg.lookup("ba"));
    assert!(!dawg.lookup("b"));
    assert!(!dawg.lookup(""));
    assert!(!dawg.lookup("barss"));
    assert!(!dawg.lookup("cat"));
    assert!(!dawg.lookup("xyz"));
}

#[test]
fn proper_prefix_is_rejected_unless_listed() {
    let dawg = build_dawg(&list(&["cats"]));
    assert!(!dawg.lookup("cat"));
    assert!(dawg.has_prefix("cat"));
    assert!(!dawg.has_prefix("cab"));
    let dawg = build_dawg(&list(&["cat", "cats"]));
    assert!(dawg.lookup("cat"));
    assert!(dawg.lookup("cats"));
}

#[test]
fn shared_suffix_branch_is_one_subgraph() {
    let dawg = build_dawg(&list(&["bar", "bars", "car", "cars"]));
    // The unshared trie has nine nodes with its root; sharing leaves five.
    assert_eq!(dawg.node_count(), 5);
    let root = dawg.root();
    let b = dawg.child(root, 'b').unwrap();
    let c = dawg.child(root, 'c').unwrap();
    assert_eq!(b, c);
    let r = dawg.child(dawg.child(b, 'a').unwrap(), 'r').unwrap();
    assert!(dawg.is_terminal(r));
    let s = dawg.child(r, 's').unwrap();
    assert!(dawg.is_terminal(s));
    assert_eq!(dawg.node(s).unwrap().edges().len(), 0);
}

#[test]
fn two_builds_of_one_list_agree_node_by_node() {
    let words = list(&["a", "ab", "abc", "b", "bc", "c"]);
    let one = build_dawg(&words);
    let two = build_dawg(&words);
    assert_eq!(one.node_count(), two.node_count());
    assert_eq!(one.root(), two.root());
    for i in 0..one.node_count() {
        let a = one.node(i).unwrap();
        let b = two.node(i).unwrap();
        assert!(a.signature().matches(b));
        assert_eq!(a.edges(), b.edges());
        assert_eq!(a.id(), i);
    }
}

#[test]
fn empty_list_gives_the_root_alone() {
    let dawg = build_dawg(&Vec::new());
    assert_eq!(dawg.node_count(), 1);
    assert!(!dawg.lookup(""));
    assert!(!dawg.lookup("a"));
    assert!(dawg.has_prefix(""));
}

#[test]
fn empty_word_may_be_listed() {
    let dawg = build_dawg(&list(&["", "a"]));
    assert!(dawg.lookup(""));
    assert!(dawg.lookup("a"));
    assert!(!dawg.lookup("aa"));
}

#[test]
fn letters_outside_ascii_are_plain_letters() {
    let dawg = build_dawg(&list(&["kot", "koń", "żal", "żar"]));
    assert!(dawg.lookup("koń"));
    assert!(dawg.lookup("żar"));
    assert!(!dawg.lookup("ko"));
    assert!(!dawg.lookup("zal"));
}

#[test]
fn checked_build_rejects_unsorted_and_repeated_words() {
    assert!(matches!(build_checked(&list(&["b", "a"])), Err(BuildError::MalformedInput)));
    assert!(matches!(build_checked(&list(&["a", "a"])), Err(BuildError::MalformedInput)));
    let dawg = build_checked(&list(&["a", "b"])).ok().unwrap();
    assert!(dawg.lookup("a"));
    assert!(dawg.lookup("b"));
}

#[test]
fn sortedness_check() {
    assert!(is_sorted_dedup(&list(&[])));
    assert!(is_sorted_dedup(&list(&["a"])));
    assert!(is_sorted_dedup(&list(&["a", "ab", "b"])));
    assert!(!is_sorted_dedup(&list(&["ab", "a"])));
    assert!(!is_sorted_dedup(&list(&["a", "b", "b"])));
}

#[test]
fn common_prefix_lengths() {
    assert_eq!(get_pref_len("".to_string(), "cat".to_string()), 0);
    assert_eq!(get_pref_len("cat".to_string(), "cats".to_string()), 3);
    assert_eq!(get_pref_len("car".to_string(), "cat".to_string()), 2);
    assert_eq!(get_pref_len("dog".to_string(), "cat".to_string()), 0);
    assert_eq!(length_common_prefix("żar", "żal"), 2);
    assert_eq!(length_common_prefix("same", "same"), 4);
}

#[test]
fn signature_does_not_depend_on_insertion_order() {
    let mut a = Node::new(7);
    a.add_child('x', 1);
    a.add_child('a', 2);
    a.add_child('m', 3);
    let mut b = Node::new(9);
    b.add_child('m', 3);
    b.add_child('x', 1);
    b.add_child('a', 2);
    assert!(a.signature().matches(&b));
    assert_eq!(a.edges(), &vec![('a', 2), ('m', 3), ('x', 1)]);
    b.set_terminal(true);
    assert!(!a.signature().matches(&b));
    b.set_terminal(false);
    b.add_child('a', 5);
    assert!(!a.signature().matches(&b));
    assert_eq!(b.child('a'), Some(5));
    assert_eq!(b.child('q'), None);
}

#[test]
fn graph_from_nodes_checks_structure() {
    let mut leaf = Node::new(0);
    leaf.set_terminal(true);
    let mut top = Node::new(1);
    top.add_child('a', 0);
    let dawg = Dawg::from_nodes(vec![leaf, top], 1).ok().unwrap();
    assert!(dawg.lookup("a"));
    assert!(!dawg.lookup(""));

    assert_eq!(Dawg::from_nodes(vec![Node::new(0)], 1).err(), Some(GraphDecodeError::RootOutOfRange));
    assert_eq!(Dawg::from_nodes(Vec::new(), 0).err(), Some(GraphDecodeError::RootOutOfRange));
    assert_eq!(
        Dawg::from_nodes(vec![Node::new(0), Node::new(5)], 0).err(),
        Some(GraphDecodeError::MalformedNode(1))
    );
    let mut looped = Node::new(0);
    looped.add_child('a', 0);
    assert_eq!(Dawg::from_nodes(vec![looped], 0).err(), Some(GraphDecodeError::MalformedNode(0)));
}

fn all_words(alphabet: &[char], max_len: usize) -> Vec<String> {
    let mut words = vec![String::new()];
    let mut last = vec![String::new()];
    for _ in 0..max_len {
        let mut next = Vec::new();
        for w in last.iter() {
            for c in alphabet {
                let mut longer = w.clone();
                longer.push(*c);
                next.push(longer);
            }
        }
        words.extend(next.iter().cloned());
        last = next;
    }
    words.sort();
    words
}

#[test]
fn all_words_up_to_a_length_need_one_node_a_length() {
    let words = all_words(&['a', 'b', 'c'], 8);
    assert_eq!(words.len(), 9841);
    let dawg = build_dawg(&words);
    assert_eq!(dawg.node_count(), 9);
    assert!(dawg.lookup(""));
    assert!(dawg.lookup("abcabcab"));
    assert!(!dawg.lookup("abcabcabc"));
    assert!(!dawg.lookup("abd"));
}

#[test]
fn a_thinned_list_is_accepted_word_for_word() {
    let every = all_words(&['a', 'b', 'c', 'd'], 6);
    let mut seed: u64 = 12345;
    let mut kept = Vec::new();
    let mut dropped = Vec::new();
    for w in every {
        seed = seed.wrapping_mul(6364136223846793005).wrapping_add(1442695040888963407);
        if (seed >> 33) % 3 == 0 {
            kept.push(w);
        } else {
            dropped.push(w);
        }
    }
    assert!(is_sorted_dedup(&kept));
    let dawg = build_dawg(&kept);
    for w in kept.iter() {
        assert!(dawg.lookup(w));
    }
    for w in dropped.iter() {
        assert!(!dawg.lookup(w));
    }
    // no two nodes have the same signature
    for i in 0..dawg.node_count() {
        let sig = dawg.node(i).unwrap().signature();
        for j in 0..i {
            assert!(!sig.matches(dawg.node(j).unwrap()));
        }
    }
}

#[test]
fn nodes_of_one_signature_have_one_key() {
    let mut a = Node::new(1);
    a.add_child('x', 1);
    a.add_child('a', 2);
    let mut b = Node::new(2);
    b.add_child('a', 2);
    b.add_child('x', 1);
    assert_eq!(a.key(), b.key());
    b.set_terminal(true);
    assert_ne!(a.key(), b.key());
}

#[test]
fn a_long_list_is_built_quickly() {
    let every = all_words(&['a', 'b', 'c', 'd', 'e'], 7);
    let mut seed: u64 = 99;
    let mut kept = Vec::new();
    for w in every {
        seed = seed.wrapping_mul(6364136223846793005).wrapping_add(1442695040888963407);
        if (seed >> 33) % 2 == 0 {
            kept.push(w);
        }
    }
    assert!(kept.len() > 40000);
    let dawg = build_dawg(&kept);
    assert!(dawg.node_count() > 1);
    for w in kept.iter().step_by(97) {
        assert!(dawg.lookup(w));
    }
}
