use trie::Trie;

fn word(text: &str) -> Vec<char> {
    text.chars().collect()
}

fn leaf(key: char) -> Trie {
    Trie { key, boundary: true, children: vec![] }
}

#[test]
fn trie_node_empty() {
    let trie = Trie::empty('a');

    assert_eq!(trie, Trie { key: 'a', boundary: true, children: vec![] });
}

#[test]
fn trie_node_value() {
    let trie = leaf('a');

    assert_eq!(trie.value(), &'a');

    let trie = leaf('b');

    assert_eq!(trie.value(), &'b');
}

#[test]
fn trie_node_value_mut() {
    let mut trie = leaf('a');
    *trie.value_mut() = 'b';

    assert_eq!(trie.value(), &'b');
}

#[test]
fn trie_node_is_boundary() {
    let trie = leaf('a');
    assert!(trie.is_boundary());

    let trie = Trie { key: 'b', boundary: false, children: vec![] };
    assert!(!trie.is_boundary());

    let trie = Trie { key: 'c', boundary: true, children: vec![] };
    assert!(trie.is_boundary());
}

#[test]
fn trie_node_compute_size() {
    let trie = Trie {
        key: 'a',
        boundary: false,
        children: vec![
            leaf('b'),
            Trie { key: 'c', boundary: false, children: vec![leaf('d'), leaf('e')] },
        ],
    };
    assert_eq!(trie.compute_size(), 5);
}

#[test]
fn empty_node_ends_a_word() {
    let trie = Trie::empty('b');
    assert!(trie.is_boundary());
    assert_eq!(trie.key, 'b');
    assert!(trie.children.is_empty());
    assert_eq!(trie.compute_size(), 1);
}

#[test]
fn from_word_builds_a_chain() {
    let trie = Trie::from_word(word("abc"));
    assert_eq!(
        trie,
        Trie {
            key: 'a',
            boundary: false,
            children: vec![Trie { key: 'b', boundary: false, children: vec![leaf('c')] }],
        }
    );
}

#[test]
fn from_word_of_one_character_is_a_leaf() {
    assert_eq!(Trie::from_word(vec!['x']), Trie::empty('x'));
}

#[test]
fn from_word_contains_its_word() {
    for text in ["a", "ab", "hello world!", "hi🏞d"] {
        let trie = Trie::from_word(word(text));
        assert!(trie.contains(word(text)));
        assert_eq!(trie.compute_size(), word(text).len());
    }
}

#[test]
fn from_word_does_not_contain_its_prefixes() {
    let trie = Trie::from_word(word("abc"));
    assert!(!trie.contains(word("a")));
    assert!(!trie.contains(word("ab")));
    assert!(!trie.contains(word("abcd")));
    assert!(trie.get(word("ab")).is_some());
}

#[test]
fn value_mut_changes_only_the_key() {
    let mut trie = Trie::from_word(word("ab"));
    *trie.value_mut() = 'z';
    assert_eq!(
        trie,
        Trie { key: 'z', boundary: false, children: vec![leaf('b')] }
    );
}

#[test]
fn equality_compares_the_whole_tree() {
    let a = Trie { key: 'a', boundary: false, children: vec![leaf('b'), leaf('c')] };
    let b = Trie { key: 'a', boundary: false, children: vec![leaf('b'), leaf('c')] };
    let swapped = Trie { key: 'a', boundary: false, children: vec![leaf('c'), leaf('b')] };
    let marked = Trie { key: 'a', boundary: true, children: vec![leaf('b'), leaf('c')] };
    let shorter = Trie { key: 'a', boundary: false, children: vec![leaf('b')] };
    let deeper = Trie {
        key: 'a',
        boundary: false,
        children: vec![leaf('b'), Trie { key: 'c', boundary: true, children: vec![leaf('d')] }],
    };
    assert!(a == b);
    assert!(a.same(&b));
    assert!(a != swapped);
    assert!(a != marked);
    assert!(a != shorter);
    assert!(a != deeper);
    assert!(!a.same(&deeper));
    assert!(leaf('a') != leaf('b'));
}

#[test]
fn compute_size_counts_shared_prefixes_once() {
    let mut trie = Trie::from_word(word("car"));
    assert_eq!(trie.compute_size(), 3);
    trie.insert(word("cat"));
    assert_eq!(trie.compute_size(), 4);
    trie.insert(word("cab"));
    // three words of three characters that share two: 9 - 2 * 2
    assert_eq!(trie.compute_size(), 5);
    trie.insert(word("ca"));
    assert_eq!(trie.compute_size(), 5);
    trie.insert(word("cabin"));
    assert_eq!(trie.compute_size(), 7);
    trie.insert(word("dog"));
    assert_eq!(trie.compute_size(), 7);
}
