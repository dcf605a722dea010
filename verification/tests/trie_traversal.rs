use trie::Trie;

fn word(text: &str) -> Vec<char> {
    text.chars().collect()
}

fn sample() -> Trie {
    Trie {
        key: 'a',
        boundary: false,
        children: vec![
            Trie::empty('b'),
            Trie {
                key: 'c',
                boundary: false,
                children: vec![
                    Trie::empty('d'),
                    Trie {
                        key: 'e',
                        boundary: false,
                        children: vec![Trie::empty('f'), Trie::empty('g')],
                    },
                ],
            },
        ],
    }
}

#[test]
fn trie_get() {
    let trie = Trie {
        key: 'a',
        boundary: false,
        children: vec![
            Trie::empty('b'),
            Trie {
                key: 'c',
                boundary: false,
                children: vec![
                    Trie::empty('d'),
                    Trie {
                        key: 'e',
                        boundary: false,
                        children: vec![Trie::empty('f'), Trie::empty('g')],
                    },
                ],
            },
        ],
    };

    assert_eq!(
        *trie.get(vec!['a', 'c']).unwrap(),
        Trie {
            key: 'c',
            boundary: false,
            children: vec![
                Trie::empty('d'),
                Trie {
                    key: 'e',
                    boundary: false,
                    children: vec![Trie::empty('f'), Trie::empty('g')],
                },
            ],
        }
    )
}

#[test]
fn trie_get_mut() {
    let mut trie = Trie {
        key: 'a',
        boundary: false,
        children: vec![
            Trie::empty('b'),
            Trie {
                key: 'c',
                boundary: false,
                children: vec![
                    Trie::empty('d'),
                    Trie {
                        key: 'e',
                        boundary: false,
                        children: vec![Trie::empty('f'), Trie::empty('g')],
                    },
                ],
            },
        ],
    };

    trie.get_mut(vec!['a', 'c', 'e']).unwrap().key = 'v';

    assert_eq!(
        trie,
        Trie {
            key: 'a',
            boundary: false,
            children: vec![
                Trie::empty('b'),
                Trie {
                    key: 'c',
                    boundary: false,
                    children: vec![
                        Trie::empty('d'),
                        Trie {
                            key: 'v',
                            boundary: false,
                            children: vec![Trie::empty('f'), Trie::empty('g')],
                        },
                    ],
                },
            ],
        }
    )
}

#[test]
fn trie_insert() {
    let mut trie = Trie::from_word(vec!['a', 'c', 'e']);
    assert!(trie.insert(vec!['a', 'b']).unwrap());
    assert!(trie.insert(vec!['a', 'c', 'd']).unwrap());
    assert!(trie.insert(vec!['a', 'c', 'e', 'f']).unwrap());
    assert!(trie.insert(vec!['a', 'c', 'e', 'g']).unwrap());
    assert_eq!(
        trie,
        Trie {
            key: 'a',
            boundary: false,
            children: vec![
                Trie {
                    key: 'c',
                    boundary: false,
                    children: vec![
                        Trie {
                            key: 'e',
                            boundary: true,
                            children: vec![Trie::empty('f'), Trie::empty('g')],
                        },
                        Trie::empty('d'),
                    ],
                },
                Trie::empty('b'),
            ],
        }
    )
}

#[test]
fn trie_remove() {
    let mut trie = Trie {
        key: 'a',
        boundary: false,
        children: vec![
            Trie {
                key: 'c',
                boundary: false,
                children: vec![
                    Trie {
                        key: 'e',
                        boundary: true,
                        children: vec![Trie::empty('f'), Trie::empty('g')],
                    },
                    Trie::empty('d'),
                ],
            },
            Trie::empty('b'),
        ],
    };
    trie.remove(vec!['a', 'c', 'e', 'g']);

    assert_eq!(
        trie,
        Trie {
            key: 'a',
            boundary: false,
            children: vec![
                Trie {
                    key: 'c',
                    boundary: false,
                    children: vec![
                        Trie {
                            key: 'e',
                            boundary: true,
                            children: vec![Trie::empty('f')],
                        },
                        Trie::empty('d'),
                    ],
                },
                Trie::empty('b'),
            ],
        }
    );

    trie.remove(vec!['a', 'c', 'e']);
    assert_eq!(
        trie,
        Trie {
            key: 'a',
            boundary: false,
            children: vec![
                Trie {
                    key: 'c',
                    boundary: false,
                    children: vec![
                        Trie {
                            key: 'e',
                            boundary: false,
                            children: vec![Trie::empty('f')],
                        },
                        Trie::empty('d'),
                    ],
                },
                Trie::empty('b'),
            ],
        }
    );
}

#[test]
fn get_returns_the_node_whether_or_not_it_ends_a_word() {
    let trie = sample();
    assert!(!trie.get(word("ace")).unwrap().boundary);
    assert!(trie.get(word("aceg")).unwrap().boundary);
    assert_eq!(*trie.get(word("a")).unwrap(), sample());
    assert_eq!(*trie.get(word("ab")).unwrap(), Trie::empty('b'));
}

#[test]
fn get_finds_nothing_off_the_paths() {
    let trie = sample();
    assert!(trie.get(word("x")).is_none());
    assert!(trie.get(word("xc")).is_none());
    assert!(trie.get(word("ax")).is_none());
    assert!(trie.get(word("acx")).is_none());
    assert!(trie.get(word("acegh")).is_none());
}

#[test]
fn get_takes_the_first_child_with_the_key() {
    let trie = Trie {
        key: 'a',
        boundary: false,
        children: vec![
            Trie { key: 'b', boundary: false, children: vec![Trie::empty('x')] },
            Trie { key: 'b', boundary: true, children: vec![Trie::empty('y')] },
        ],
    };
    assert!(!trie.get(word("ab")).unwrap().boundary);
    assert!(trie.get(word("abx")).is_some());
    assert!(trie.get(word("aby")).is_none());
}

#[test]
fn get_mut_gives_the_node_to_change() {
    let mut trie = sample();
    trie.get_mut(word("ac")).unwrap().boundary = true;
    assert!(trie.contains(word("ac")));
    *trie.get_mut(word("ab")).unwrap() = Trie::from_word(word("bz"));
    assert!(!trie.contains(word("ab")));
    assert!(trie.contains(word("abz")));
    assert_eq!(trie.compute_size(), 8);
}

#[test]
fn get_mut_finds_nothing_off_the_paths() {
    let mut trie = sample();
    assert!(trie.get_mut(word("b")).is_none());
    assert!(trie.get_mut(word("ad")).is_none());
    assert!(trie.get_mut(word("abb")).is_none());
    assert_eq!(trie, sample());
}

#[test]
fn contains_tells_words_from_prefixes() {
    let trie = sample();
    assert!(trie.contains(word("ab")));
    assert!(trie.contains(word("acd")));
    assert!(trie.contains(word("acef")));
    assert!(trie.contains(word("aceg")));
    assert!(!trie.contains(word("a")));
    assert!(!trie.contains(word("ac")));
    assert!(!trie.contains(word("ace")));
    assert!(!trie.contains(word("acefg")));
    assert!(!trie.contains(word("b")));
}

#[test]
fn insert_refuses_a_word_with_another_first_character() {
    let mut trie = Trie::from_word(word("dog"));
    assert_eq!(trie.insert(word("cat")), None);
    assert_eq!(trie.insert(word("o")), None);
    assert_eq!(trie, Trie::from_word(word("dog")));
}

#[test]
fn insert_twice_gives_true_and_false() {
    let mut trie = Trie::from_word(word("dog"));
    assert_eq!(trie.insert(word("dot")), Some(true));
    let once = Trie {
        key: 'd',
        boundary: false,
        children: vec![Trie {
            key: 'o',
            boundary: false,
            children: vec![Trie::empty('g'), Trie::empty('t')],
        }],
    };
    assert_eq!(trie, once);
    assert_eq!(trie.insert(word("dot")), Some(false));
    assert_eq!(trie, once);
    assert_eq!(trie.insert(word("dog")), Some(false));
    assert_eq!(trie, once);
}

#[test]
fn insert_of_a_prefix_marks_the_node_that_is_there() {
    let mut trie = Trie::from_word(word("dog"));
    assert_eq!(trie.insert(word("do")), Some(true));
    assert_eq!(trie.insert(word("d")), Some(true));
    assert_eq!(
        trie,
        Trie {
            key: 'd',
            boundary: true,
            children: vec![Trie { key: 'o', boundary: true, children: vec![Trie::empty('g')] }],
        }
    );
    assert_eq!(trie.insert(word("d")), Some(false));
}

#[test]
fn insert_appends_new_branches_behind_the_others() {
    let mut trie = Trie::from_word(word("ab"));
    trie.insert(word("az"));
    trie.insert(word("am"));
    trie.insert(word("azure"));
    let keys: Vec<char> = trie.children.iter().map(|child| child.key).collect();
    assert_eq!(keys, vec!['b', 'z', 'm']);
    assert_eq!(*trie.get(word("azu")).unwrap(), Trie::from_word(word("ure")));
}

#[test]
fn insert_goes_into_the_first_child_with_the_key() {
    let mut trie = Trie {
        key: 'a',
        boundary: false,
        children: vec![Trie::empty('b'), Trie::empty('b')],
    };
    assert_eq!(trie.insert(word("abc")), Some(true));
    assert_eq!(
        trie,
        Trie {
            key: 'a',
            boundary: false,
            children: vec![
                Trie { key: 'b', boundary: true, children: vec![Trie::empty('c')] },
                Trie::empty('b'),
            ],
        }
    );
}

#[test]
fn remove_then_contains() {
    let mut trie = Trie::from_word(word("hello"));
    trie.insert(word("help"));
    trie.insert(word("he"));
    trie.insert(word("hex"));
    assert!(trie.remove(word("help")));
    assert!(!trie.contains(word("help")));
    assert!(trie.contains(word("hello")));
    assert!(trie.contains(word("he")));
    assert!(trie.contains(word("hex")));
    assert!(trie.remove(word("he")));
    assert!(!trie.contains(word("he")));
    assert!(trie.contains(word("hello")));
    assert!(trie.contains(word("hex")));
}

#[test]
fn remove_of_a_prefix_only_clears_the_flag() {
    let mut trie = Trie::from_word(word("dog"));
    trie.insert(word("do"));
    let size = trie.compute_size();
    assert!(trie.remove(word("do")));
    assert_eq!(trie, Trie::from_word(word("dog")));
    assert_eq!(trie.compute_size(), size);
    assert!(trie.contains(word("dog")));
}

#[test]
fn remove_of_the_last_word_leaves_the_root() {
    let mut trie = Trie::from_word(word("cat"));
    assert!(trie.remove(word("cat")));
    assert_eq!(trie, Trie { key: 'c', boundary: false, children: vec![] });
    assert_eq!(trie.compute_size(), 1);
    assert!(!trie.contains(word("cat")));
    assert!(!trie.remove(word("cat")));
}

#[test]
fn remove_stops_pruning_at_a_node_that_ends_a_word() {
    let mut trie = Trie::from_word(word("cater"));
    trie.insert(word("ca"));
    assert!(trie.remove(word("cater")));
    assert_eq!(trie, Trie::from_word(word("ca")));
    assert!(trie.contains(word("ca")));
}

#[test]
fn remove_stops_pruning_at_a_node_with_other_children() {
    let mut trie = Trie::from_word(word("cater"));
    trie.insert(word("cab"));
    assert!(trie.remove(word("cater")));
    assert_eq!(trie, Trie::from_word(word("cab")));
}

#[test]
fn remove_of_a_word_that_is_not_there_changes_nothing() {
    let mut trie = sample();
    assert!(!trie.remove(word("ax")));
    assert!(!trie.remove(word("abc")));
    assert!(!trie.remove(word("x")));
    assert!(!trie.remove(word("xb")));
    assert!(!trie.remove(word("acegh")));
    assert_eq!(trie, sample());
}

#[test]
fn remove_of_a_prefix_that_ends_no_word_changes_nothing() {
    let mut trie = sample();
    assert!(!trie.remove(word("ac")));
    assert!(!trie.remove(word("a")));
    assert_eq!(trie, sample());
}

#[test]
fn remove_of_a_word_of_one_character_keeps_the_root() {
    let mut trie = Trie::from_word(word("a"));
    assert!(trie.remove(word("a")));
    assert_eq!(trie, Trie { key: 'a', boundary: false, children: vec![] });
    assert!(!trie.remove(word("a")));

    let mut trie = Trie::from_word(word("ab"));
    trie.insert(word("a"));
    assert!(trie.remove(word("a")));
    assert_eq!(trie, Trie::from_word(word("ab")));
}

#[test]
fn remove_twice_changes_nothing_the_second_time() {
    let mut trie = Trie::from_word(word("hello"));
    trie.insert(word("help"));
    assert!(trie.remove(word("hello")));
    let once = Trie::from_word(word("help"));
    assert_eq!(trie, once);
    assert!(!trie.remove(word("hello")));
    assert_eq!(trie, once);
}

#[test]
fn insert_after_remove_brings_the_word_back() {
    let mut trie = Trie::from_word(word("cat"));
    trie.remove(word("cat"));
    assert_eq!(trie.insert(word("cow")), Some(true));
    assert_eq!(trie, Trie::from_word(word("cow")));
}
