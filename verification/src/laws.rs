//! What holds of the operations taken together, stated over the model.

use vstd::prelude::*;
use crate::model::Node;
use crate::lemmas::{
    lemma_position, lemma_position_is, lemma_chain_well_formed, lemma_size_among_push,
    lemma_size_among_update, lemma_split, lemma_prefix_split, lemma_position_update,
    lemma_position_push, lemma_position_remove, lemma_chain_paths, lemma_concat_contains,
    lemma_words_among_contains, lemma_size_among_remove, lemma_words_among_concat,
    lemma_words_among_split, lemma_words_among_one, lemma_chain_words, lemma_filter_one,
    lemma_filter_all,
};

verus! {

// Chains

/// A trie built from a word contains that word.
pub proof fn law_chain_contains(word: Seq<char>)
    requires
        word.len() > 0,
    ensures
        Node::chain(word).contains(word),
    decreases word.len(),
{
    if word.len() > 1 {
        law_chain_contains(word.drop_first());
    }
}

/// A trie built from a word has one node for each character.
pub proof fn law_chain_size(word: Seq<char>)
    requires
        word.len() > 0,
    ensures
        Node::chain(word).size() == word.len(),
    decreases word.len(),
{
    if word.len() > 1 {
        let rest = word.drop_first();
        law_chain_size(rest);
        let children = seq![Node::chain(rest)];
        assert(Node::size_among(children.drop_first()) == 0);
    }
}

/// In the chain of a word, the one node without children ends the word.
pub proof fn law_chain_proper(word: Seq<char>)
    requires
        word.len() > 0,
    ensures
        Node::chain(word).proper(),
    decreases word.len(),
{
    if word.len() > 1 {
        law_chain_proper(word.drop_first());
    }
}

// Insertion

/// A word that has been stored is contained.
pub proof fn law_insert_contains(node: Node, word: Seq<char>)
    requires
        word.len() > 0,
        word[0] == node.key,
    ensures
        node.insert(word).contains(word),
    decreases word.len(),
{
    if word.len() > 1 {
        let rest = word.drop_first();
        let p = Node::position(node.children, word[1]);
        let after = node.insert(word).children;
        lemma_position(node.children, word[1]);
        if p < node.children.len() {
            law_insert_contains(node.children[p], rest);
        } else {
            law_chain_contains(rest);
        }
        lemma_position_is(after, word[1], p);
    }
}

/// Storing a word that is contained changes nothing.
pub proof fn law_insert_present(node: Node, word: Seq<char>)
    requires
        node.contains(word),
    ensures
        node.insert(word) == node,
    decreases word.len(),
{
    if word.len() > 1 {
        let p = Node::position(node.children, word[1]);
        law_insert_present(node.children[p], word.drop_first());
        assert(node.insert(word).children =~= node.children);
    }
}

/// Storing is idempotent: a second insertion of the same word finds it
/// there and leaves the trie as the first one made it.
pub proof fn law_insert_idempotent(node: Node, word: Seq<char>)
    requires
        word.len() > 0,
        word[0] == node.key,
    ensures
        node.insert(word).contains(word),
        node.insert(word).insert(word) == node.insert(word),
{
    law_insert_contains(node, word);
    law_insert_present(node.insert(word), word);
}

/// Storing a word adds that word and no other, and adds a node at the end
/// of each of its prefixes and nowhere else.
pub proof fn law_insert_effect(node: Node, word: Seq<char>, other: Seq<char>)
    requires
        word.len() > 0,
        word[0] == node.key,
    ensures
        node.insert(word).contains(other) <==> node.contains(other) || other == word,
        node.insert(word).has_path(other) <==> node.has_path(other) || (other.len() > 0
            && other.is_prefix_of(word)),
    decreases word.len(),
{
    if other.len() > 0 {
        lemma_split(other, word);
        lemma_prefix_split(other, word);
        if other[0] == node.key {
            if word.len() == 1 {
                if other.len() == 1 {
                    assert(other.drop_first() =~= word.drop_first());
                }
            } else {
                let rest = word.drop_first();
                let p = Node::position(node.children, word[1]);
                lemma_position(node.children, word[1]);
                if other.len() > 1 {
                    let tail = other.drop_first();
                    let q = Node::position(node.children, other[1]);
                    if p < node.children.len() {
                        lemma_position_update(
                            node.children,
                            p,
                            node.children[p].insert(rest),
                            other[1],
                        );
                        if q == p {
                            law_insert_effect(node.children[p], rest, tail);
                        }
                    } else {
                        lemma_position_push(node.children, Node::chain(rest), other[1]);
                        lemma_chain_paths(rest, tail);
                    }
                }
            }
        }
    }
}

/// The tree has nodes for the first `n` characters of a word where it has
/// a node at the end of them.
pub proof fn law_shared(node: Node, word: Seq<char>, n: int)
    requires
        1 <= n <= word.len(),
    ensures
        n <= node.shared(word) <==> node.has_path(word.take(n)),
    decreases word.len(),
{
    if word[0] == node.key && n > 1 {
        let p = Node::position(node.children, word[1]);
        assert(word.take(n).drop_first() =~= word.drop_first().take(n - 1));
        if p < node.children.len() {
            law_shared(node.children[p], word.drop_first(), n - 1);
        }
    }
}

/// Storing a word adds one node for each of its characters but those that
/// the trie already has nodes for: a prefix that is shared is counted once.
pub proof fn law_insert_size(node: Node, word: Seq<char>)
    requires
        word.len() > 0,
        word[0] == node.key,
    ensures
        node.shared(word) <= word.len(),
        node.insert(word).size() == node.size() + word.len() - node.shared(word),
    decreases word.len(),
{
    if word.len() > 1 {
        let rest = word.drop_first();
        let p = Node::position(node.children, word[1]);
        lemma_position(node.children, word[1]);
        if p < node.children.len() {
            law_insert_size(node.children[p], rest);
            lemma_size_among_update(node.children, p, node.children[p].insert(rest));
        } else {
            law_chain_size(rest);
            lemma_size_among_push(node.children, Node::chain(rest));
        }
    }
}

/// Storing a word keeps sibling keys distinct.
pub proof fn law_insert_well_formed(node: Node, word: Seq<char>)
    requires
        word.len() > 0,
    ensures
        node.well_formed() ==> node.insert(word).well_formed(),
    decreases word.len(),
{
    if node.well_formed() && word[0] == node.key && word.len() > 1 {
        let rest = word.drop_first();
        let p = Node::position(node.children, word[1]);
        lemma_position(node.children, word[1]);
        if p < node.children.len() {
            law_insert_well_formed(node.children[p], rest);
        } else {
            lemma_chain_well_formed(rest);
        }
    }
}

/// Storing a word leaves no node without children that ends no word.
pub proof fn law_insert_proper(node: Node, word: Seq<char>)
    requires
        word.len() > 0,
    ensures
        node.proper() ==> node.insert(word).proper(),
        node.trimmed() ==> node.insert(word).trimmed(),
    decreases word.len(),
{
    if word[0] == node.key && word.len() > 1 {
        let rest = word.drop_first();
        let p = Node::position(node.children, word[1]);
        lemma_position(node.children, word[1]);
        if p < node.children.len() {
            law_insert_proper(node.children[p], rest);
        } else {
            law_chain_proper(rest);
        }
    }
}

// Replacement

/// A node put where a path leads is what the path leads to afterwards, as
/// long as it has the key of the node that it replaces.
pub proof fn law_replace_get(node: Node, path: Seq<char>, sub: Node)
    requires
        node.get(path) matches Some(found) && found.key == sub.key,
    ensures
        node.replace(path, sub).get(path) == Some(sub),
    decreases path.len(),
{
    if path.len() > 1 {
        let p = Node::position(node.children, path[1]);
        let child = node.children[p];
        law_replace_get(child, path.drop_first(), sub);
        lemma_position_update(
            node.children,
            p,
            child.replace(path.drop_first(), sub),
            path[1],
        );
    }
}

/// A node put back where it was found changes nothing.
pub proof fn law_replace_same(node: Node, path: Seq<char>)
    requires
        node.has_path(path),
    ensures
        node.replace(path, node.get(path)->0) == node,
    decreases path.len(),
{
    if path.len() > 1 {
        let p = Node::position(node.children, path[1]);
        law_replace_same(node.children[p], path.drop_first());
        assert(node.replace(path, node.get(path)->0).children =~= node.children);
    }
}

/// A node put in the place of one with as many nodes leaves the count as
/// it was.
pub proof fn law_replace_size(node: Node, path: Seq<char>, sub: Node)
    requires
        node.get(path) matches Some(found) && found.size() == sub.size(),
    ensures
        node.replace(path, sub).size() == node.size(),
    decreases path.len(),
{
    if path.len() > 1 {
        let p = Node::position(node.children, path[1]);
        let child = node.children[p];
        law_replace_size(child, path.drop_first(), sub);
        lemma_size_among_update(node.children, p, child.replace(path.drop_first(), sub));
    }
}

/// A node put where a path leads keeps sibling keys distinct, as long as
/// its own are and it has the key of the node that it replaces.
pub proof fn law_replace_well_formed(node: Node, path: Seq<char>, sub: Node)
    requires
        node.well_formed(),
        sub.well_formed(),
        node.get(path) matches Some(found) && found.key == sub.key,
    ensures
        node.replace(path, sub).well_formed(),
        node.replace(path, sub).key == node.key,
    decreases path.len(),
{
    if path.len() > 1 {
        let p = Node::position(node.children, path[1]);
        law_replace_well_formed(node.children[p], path.drop_first(), sub);
    }
}

// Removal

/// Storing and removing leave the key of the root as it was.
pub proof fn law_root_stays(node: Node, word: Seq<char>)
    ensures
        node.insert(word).key == node.key,
        node.remove(word).key == node.key,
{
}

/// Taking out a word whose path the trie does not have changes nothing.
pub proof fn law_without_absent(node: Node, word: Seq<char>)
    requires
        !node.has_path(word),
    ensures
        node.without(word) == Some(node),
    decreases word.len(),
{
    if word.len() > 1 && word[0] == node.key {
        let p = Node::position(node.children, word[1]);
        if 0 <= p < node.children.len() {
            law_without_absent(node.children[p], word.drop_first());
            assert(node.children.update(p, node.children[p]) =~= node.children);
        }
    }
}

/// Removing a word whose path the trie does not have changes nothing.
pub proof fn law_remove_absent(node: Node, word: Seq<char>)
    requires
        !node.has_path(word),
    ensures
        node.remove(word) == node,
{
    law_without_absent(node, word);
}

/// What is left of a node after a word is taken out contains the other
/// words that it contained, and only those.
pub proof fn law_without_contains(node: Node, word: Seq<char>, other: Seq<char>)
    requires
        node.well_formed(),
        word.len() > 0,
        word[0] == node.key,
    ensures
        (match node.without(word) {
            Some(left) => left.contains(other),
            None => false,
        }) <==> node.contains(other) && other != word,
    decreases word.len(),
{
    if other.len() > 0 && other[0] == node.key {
        lemma_split(other, word);
        if word.len() == 1 {
            if other.len() == 1 {
                assert(other.drop_first() =~= word.drop_first());
            }
        } else {
            let rest = word.drop_first();
            let p = Node::position(node.children, word[1]);
            lemma_position(node.children, word[1]);
            if p < node.children.len() && other.len() > 1 {
                let child = node.children[p];
                let tail = other.drop_first();
                law_without_contains(child, rest, tail);
                match child.without(rest) {
                    Some(left) => {
                        lemma_position_update(node.children, p, left, other[1]);
                    },
                    None => {
                        lemma_position_remove(node.children, p, other[1]);
                    },
                }
            }
        }
    }
}

/// After a word is removed it is no longer contained, and every other word
/// is contained as before.
pub proof fn law_remove_contains(node: Node, word: Seq<char>, other: Seq<char>)
    requires
        node.well_formed(),
    ensures
        node.remove(word).contains(other) <==> node.contains(other) && other != word,
{
    if word.len() > 0 && word[0] == node.key {
        law_without_contains(node, word, other);
    }
}

/// Taking out a word that only begins a longer path of the trie clears the
/// flag at its end and deletes no node.
pub proof fn law_without_prefix(node: Node, word: Seq<char>, longer: Seq<char>)
    requires
        0 < word.len() < longer.len(),
        word.is_prefix_of(longer),
        node.has_path(longer),
    ensures
        node.has_path(word),
        node.without(word) == Some(node.unmark(word)),
    decreases word.len(),
{
    let p = Node::position(node.children, longer[1]);
    if word.len() > 1 {
        law_without_prefix(node.children[p], word.drop_first(), longer.drop_first());
    }
}

/// Removing a word that only begins a longer path of the trie clears the
/// flag at its end and deletes no node.
pub proof fn law_remove_prefix(node: Node, word: Seq<char>, longer: Seq<char>)
    requires
        0 < word.len() < longer.len(),
        word.is_prefix_of(longer),
        node.has_path(longer),
    ensures
        node.remove(word) == node.unmark(word),
        node.remove(word).size() == node.size(),
{
    law_without_prefix(node, word, longer);
    let found = node.get(word)->0;
    let cleared = Node { boundary: false, ..found };
    law_replace_size(node, word, cleared);
}

/// With distinct sibling keys, what is left after a word is taken out
/// loses nothing when the word is taken out again.
pub proof fn law_without_idempotent(node: Node, word: Seq<char>)
    requires
        node.well_formed(),
        word.len() > 0,
        word[0] == node.key,
    ensures
        node.without(word) matches Some(left) ==> left.without(word) == Some(left),
    decreases word.len(),
{
    if word.len() > 1 {
        let rest = word.drop_first();
        let p = Node::position(node.children, word[1]);
        lemma_position(node.children, word[1]);
        if p < node.children.len() {
            let child = node.children[p];
            law_without_idempotent(child, rest);
            match child.without(rest) {
                Some(left) => {
                    lemma_position_update(node.children, p, left, word[1]);
                    assert(node.children.update(p, left).update(p, left) =~= node.children.update(
                        p,
                        left,
                    ));
                },
                None => {
                    lemma_position_remove(node.children, p, word[1]);
                },
            }
        }
    }
}

/// With distinct sibling keys, removing is idempotent: a second removal of
/// the same word changes nothing.
pub proof fn law_remove_idempotent(node: Node, word: Seq<char>)
    requires
        node.well_formed(),
    ensures
        node.remove(word).remove(word) == node.remove(word),
{
    if word.len() > 0 && word[0] == node.key {
        law_without_idempotent(node, word);
    }
}

/// Taking a word out keeps sibling keys distinct.
pub proof fn law_without_well_formed(node: Node, word: Seq<char>)
    requires
        node.well_formed(),
    ensures
        node.without(word) matches Some(left) ==> left.well_formed(),
    decreases word.len(),
{
    if word.len() > 1 && word[0] == node.key {
        let rest = word.drop_first();
        let p = Node::position(node.children, word[1]);
        lemma_position(node.children, word[1]);
        if p < node.children.len() {
            law_without_well_formed(node.children[p], rest);
        }
    }
}

/// Removing a word keeps sibling keys distinct.
pub proof fn law_remove_well_formed(node: Node, word: Seq<char>)
    ensures
        node.well_formed() ==> node.remove(word).well_formed(),
{
    if node.well_formed() {
        law_without_well_formed(node, word);
    }
}

/// What is left of a node after a word is taken out has no node without
/// children that ends no word.
pub proof fn law_without_proper(node: Node, word: Seq<char>)
    requires
        node.trimmed(),
    ensures
        node.without(word) matches Some(left) ==> left.trimmed() && (node.proper()
            ==> left.proper()),
    decreases word.len(),
{
    if word.len() > 1 && word[0] == node.key {
        let rest = word.drop_first();
        let p = Node::position(node.children, word[1]);
        lemma_position(node.children, word[1]);
        if p < node.children.len() {
            law_without_proper(node.children[p], rest);
        }
    }
}

/// Removing a word prunes: where no branch spelled no word before, none
/// does after.
pub proof fn law_remove_trimmed(node: Node, word: Seq<char>)
    requires
        node.trimmed(),
    ensures
        node.remove(word).trimmed(),
{
    law_without_proper(node, word);
}

/// What is left of a node after a word is taken out has no more nodes than
/// the node had.
pub proof fn law_without_size(node: Node, word: Seq<char>)
    ensures
        node.without(word) matches Some(left) ==> left.size() <= node.size(),
    decreases word.len(),
{
    if word.len() > 1 && word[0] == node.key {
        let p = Node::position(node.children, word[1]);
        if 0 <= p < node.children.len() {
            law_without_size(node.children[p], word.drop_first());
            match node.children[p].without(word.drop_first()) {
                Some(left) => {
                    lemma_size_among_update(node.children, p, left);
                },
                None => {
                    lemma_size_among_remove(node.children, p);
                },
            }
        }
    }
}

/// Removing a word adds no node, and leaves one node at least: the root.
pub proof fn law_remove_size(node: Node, word: Seq<char>)
    ensures
        1 <= node.remove(word).size() <= node.size(),
{
    law_without_size(node, word);
}

// The walk

/// With distinct sibling keys, the words that the walk of a subtree gives
/// are those that the subtree contains, each behind the path that leads to
/// the subtree.
pub proof fn law_words_under(node: Node, path: Seq<char>, x: Seq<char>)
    requires
        node.well_formed(),
    ensures
        node.words_under(path).contains(x) <==> x.len() > path.len() && x.take(path.len() as int)
            == path && node.contains(x.skip(path.len() as int)),
    decreases node,
{
    let here = path.push(node.key);
    let n = path.len() as int;
    let v = x.skip(n);
    let below = Node::words_among(node.children, here);
    let fits = x.len() > n && x.take(n + 1) == here;
    // the walk gives `here` itself, if it is a word, and the words below
    assert(node.words_under(path).contains(x) <==> (node.boundary && x == here) || below.contains(
        x,
    )) by {
        lemma_concat_contains(seq![here], below, x);
        if seq![here].contains(x) {
            let i = choose|i: int| 0 <= i < seq![here].len() && seq![here][i] == x;
            assert(x == here);
        }
        if x == here {
            assert(seq![here][0] == x);
        }
    }
    // what begins with `here` begins with `path` and goes on with the key
    assert(fits <==> x.len() > n && x.take(n) == path && v[0] == node.key) by {
        if x.len() > n {
            assert(v[0] == x[n]);
            if x.take(n) == path && x[n] == node.key {
                assert(x.take(n + 1) =~= here);
            }
            if x.take(n + 1) == here {
                assert(x.take(n) =~= path);
                assert(x[n] == x.take(n + 1)[n]);
            }
        }
    }
    assert(x == here <==> fits && x.len() == n + 1) by {
        if fits && x.len() == n + 1 {
            assert(x =~= x.take(n + 1));
        }
        if x == here {
            assert(x.take(n + 1) =~= x);
        }
    }
    lemma_words_among_contains(node.children, here, x);
    if x.len() > n + 1 {
        assert(v.drop_first() =~= x.skip(n + 1));
        let q = Node::position(node.children, v[1]);
        lemma_position(node.children, v[1]);
        assert forall|i: int| 0 <= i < node.children.len() implies ((
        #[trigger] node.children[i]).words_under(here).contains(x) <==> fits && i == q
            && node.children[i].contains(x.skip(n + 1))) by {
            law_words_under(node.children[i], here, x);
        }
    } else {
        assert forall|i: int| 0 <= i < node.children.len() implies !(
        #[trigger] node.children[i]).words_under(here).contains(x) by {
            law_words_under(node.children[i], here, x);
        }
    }
}

/// With distinct sibling keys, the walk of a subtree gives no word twice.
pub proof fn law_words_under_distinct(node: Node, path: Seq<char>)
    requires
        node.well_formed(),
    ensures
        node.words_under(path).no_duplicates(),
    decreases node, 1nat,
{
    let here = path.push(node.key);
    let below = Node::words_among(node.children, here);
    law_words_among_distinct(node.children, here);
    assert forall|i: int, j: int| 0 <= i < seq![here].len() && 0 <= j < below.len() implies seq![
        here,
    ][i] != below[j] by {
        lemma_words_among_contains(node.children, here, below[j]);
        let k = choose|k: int|
            0 <= k < node.children.len() && (#[trigger] node.children[k]).words_under(
                here,
            ).contains(below[j]);
        law_words_under(node.children[k], here, below[j]);
    }
}

/// With distinct keys, the walks of some subtrees give no word twice.
pub proof fn law_words_among_distinct(nodes: Seq<Node>, path: Seq<char>)
    requires
        Node::distinct_keys(nodes),
        forall|i: int| 0 <= i < nodes.len() ==> (#[trigger] nodes[i]).well_formed(),
    ensures
        Node::words_among(nodes, path).no_duplicates(),
    decreases nodes, 0nat,
{
    if nodes.len() > 0 {
        let rest = nodes.drop_first();
        let first = nodes[0].words_under(path);
        let later = Node::words_among(rest, path);
        assert forall|i: int| 0 <= i < rest.len() implies (#[trigger] rest[i]).well_formed() by {}
        assert(Node::distinct_keys(rest)) by {
            assert forall|i: int, j: int| 0 <= i < j < rest.len() implies (#[trigger] rest[i]).key
                != (#[trigger] rest[j]).key by {
                assert(rest[i] == nodes[i + 1]);
                assert(rest[j] == nodes[j + 1]);
            }
        }
        law_words_under_distinct(nodes[0], path);
        law_words_among_distinct(rest, path);
        assert forall|i: int, j: int| 0 <= i < first.len() && 0 <= j < later.len() implies first[i]
            != later[j] by {
            law_words_under(nodes[0], path, first[i]);
            lemma_words_among_contains(rest, path, later[j]);
            let k = choose|k: int|
                0 <= k < rest.len() && (#[trigger] rest[k]).words_under(path).contains(later[j]);
            law_words_under(rest[k], path, later[j]);
        }
    }
}

/// Round trip: with distinct sibling keys, the walk gives each word that
/// the trie contains once, and nothing else.
pub proof fn law_words(node: Node, word: Seq<char>)
    requires
        node.well_formed(),
    ensures
        node.words().contains(word) <==> node.contains(word),
        node.words().no_duplicates(),
{
    law_words_under(node, Seq::empty(), word);
    law_words_under_distinct(node, Seq::empty());
    assert(word.take(0) =~= Seq::<char>::empty());
    assert(word.skip(0) =~= word);
}

/// The walk of a subtree gives one word for each node that ends a word.
proof fn lemma_marks_under(node: Node, path: Seq<char>)
    ensures
        node.words_under(path).len() == node.marks(),
    decreases node, 1nat,
{
    lemma_marks_among(node.children, path.push(node.key));
}

/// The walks of some subtrees give one word for each node that ends a
/// word.
proof fn lemma_marks_among(nodes: Seq<Node>, path: Seq<char>)
    ensures
        Node::words_among(nodes, path).len() == Node::marks_among(nodes),
    decreases nodes, 0nat,
{
    if nodes.len() > 0 {
        lemma_marks_under(nodes[0], path);
        lemma_marks_among(nodes.drop_first(), path);
    }
}

/// The walk gives one word for each node that ends a word.
pub proof fn law_words_len(node: Node)
    ensures
        node.words().len() == node.marks(),
{
    lemma_marks_under(node, Seq::empty());
}

// The order of the walk

/// Storing a word changes the walk of a subtree by that word alone: the
/// other words stay, in their order.
pub proof fn law_insert_walk_under(node: Node, path: Seq<char>, word: Seq<char>)
    requires
        word.len() > 0,
        word[0] == node.key,
    ensures
        node.insert(word).words_under(path).filter(Node::other_than(path + word))
            == node.words_under(path).filter(Node::other_than(path + word)),
    decreases word.len(),
{
    broadcast use Seq::filter_distributes_over_add;

    let here = path.push(node.key);
    let keep = Node::other_than(path + word);
    lemma_filter_one(here, keep);
    if word.len() == 1 {
        assert(here =~= path + word);
    } else {
        let rest = word.drop_first();
        let p = Node::position(node.children, word[1]);
        lemma_position(node.children, word[1]);
        assert(here + rest =~= path + word);
        if p < node.children.len() {
            let child = node.children[p];
            let changed = node.children.update(p, child.insert(rest));
            law_insert_walk_under(child, here, rest);
            lemma_words_among_split(node.children, p, here);
            lemma_words_among_split(changed, p, here);
            assert(changed.take(p) =~= node.children.take(p));
            assert(changed.skip(p + 1) =~= node.children.skip(p + 1));
        } else {
            lemma_words_among_concat(node.children, seq![Node::chain(rest)], here);
            let branch = Node::chain(rest);
            assert(node.children.push(branch) =~= node.children + seq![branch]);
            lemma_chain_words(rest, here);
            lemma_filter_one(path + word, keep);
            lemma_words_among_one(Node::chain(rest), here);
        }
    }
}

/// Storing a word changes the walk by that word alone: the other words
/// stay, in their order.
pub proof fn law_insert_walk(node: Node, word: Seq<char>)
    ensures
        node.insert(word).words().filter(Node::other_than(word)) == node.words().filter(
            Node::other_than(word),
        ),
{
    if word.len() > 0 && word[0] == node.key {
        law_insert_walk_under(node, Seq::empty(), word);
    }
}

/// With distinct sibling keys, the walk after a new word is stored, less
/// that word, is the walk before.
pub proof fn law_insert_order(node: Node, word: Seq<char>)
    requires
        node.well_formed(),
        !node.contains(word),
    ensures
        node.insert(word).words().filter(Node::other_than(word)) == node.words(),
{
    law_insert_walk(node, word);
    law_words(node, word);
    lemma_filter_all(node.words(), Node::other_than(word));
}

/// Taking a word out changes the walk of a subtree by that word alone: the
/// other words stay, in their order.
pub proof fn law_without_walk_under(node: Node, path: Seq<char>, word: Seq<char>)
    requires
        word.len() > 0,
        word[0] == node.key,
    ensures
        match node.without(word) {
            Some(left) => left.words_under(path).filter(Node::other_than(path + word))
                == node.words_under(path).filter(Node::other_than(path + word)),
            None => node.words_under(path).filter(Node::other_than(path + word)) == Seq::<
                Seq<char>,
            >::empty(),
        },
    decreases word.len(),
{
    broadcast use Seq::filter_distributes_over_add;

    let here = path.push(node.key);
    let keep = Node::other_than(path + word);
    lemma_filter_one(here, keep);
    if word.len() == 1 {
        assert(here =~= path + word);
    } else {
        let rest = word.drop_first();
        let p = Node::position(node.children, word[1]);
        lemma_position(node.children, word[1]);
        assert(here + rest =~= path + word);
        if p < node.children.len() {
            let child = node.children[p];
            law_without_walk_under(child, here, rest);
            lemma_words_among_split(node.children, p, here);
            match child.without(rest) {
                Some(left) => {
                    let changed = node.children.update(p, left);
                    lemma_words_among_split(changed, p, here);
                    assert(changed.take(p) =~= node.children.take(p));
                    assert(changed.skip(p + 1) =~= node.children.skip(p + 1));
                },
                None => {
                    lemma_words_among_concat(
                        node.children.take(p),
                        node.children.skip(p + 1),
                        here,
                    );
                },
            }
        }
    }
}

/// Removing a word changes the walk by that word alone: the other words
/// stay, in their order.
pub proof fn law_remove_walk(node: Node, word: Seq<char>)
    ensures
        node.remove(word).words().filter(Node::other_than(word)) == node.words().filter(
            Node::other_than(word),
        ),
{
    if word.len() > 0 && word[0] == node.key {
        law_without_walk_under(node, Seq::empty(), word);
    }
}

/// With distinct sibling keys, the walk after a word is removed is the
/// walk before, less that word.
pub proof fn law_remove_order(node: Node, word: Seq<char>)
    requires
        node.well_formed(),
    ensures
        node.remove(word).words() == node.words().filter(Node::other_than(word)),
{
    law_remove_walk(node, word);
    law_remove_well_formed(node, word);
    law_remove_contains(node, word, word);
    law_words(node.remove(word), word);
    lemma_filter_all(node.remove(word).words(), Node::other_than(word));
}

// Tries built from several words

/// A trie built from words that can stand in one trie has distinct sibling
/// keys, contains those words and no other, and has a node at the end of
/// each of their prefixes and nowhere else.
pub proof fn law_build(words: Seq<Seq<char>>, other: Seq<char>)
    requires
        Node::same_start(words),
    ensures
        Node::build(words).key == words[0][0],
        Node::build(words).well_formed(),
        Node::build(words).contains(other) <==> words.contains(other),
        Node::build(words).has_path(other) <==> other.len() > 0 && exists|i: int|
            0 <= i < words.len() && other.is_prefix_of(#[trigger] words[i]),
    decreases words.len(),
{
    if words.len() == 1 {
        lemma_chain_well_formed(words[0]);
        lemma_chain_paths(words[0], other);
    } else {
        let init = words.drop_last();
        let word = words.last();
        let trie = Node::build(init);
        assert(Node::same_start(init)) by {
            assert(init[0] == words[0]);
            assert forall|i: int| 0 <= i < init.len() implies (#[trigger] init[i]).len() > 0
                && init[i][0] == init[0][0] by {
                assert(init[i] == words[i]);
            }
        }
        law_build(init, other);
        law_insert_effect(trie, word, other);
        law_insert_well_formed(trie, word);
        if init.contains(other) {
            let i = choose|i: int| 0 <= i < init.len() && init[i] == other;
            assert(words[i] == other);
        }
        if words.contains(other) {
            let i = choose|i: int| 0 <= i < words.len() && words[i] == other;
            if i < init.len() {
                assert(init[i] == other);
            }
        }
        if exists|i: int| 0 <= i < init.len() && other.is_prefix_of(#[trigger] init[i]) {
            let i = choose|i: int| 0 <= i < init.len() && other.is_prefix_of(#[trigger] init[i]);
            assert(other.is_prefix_of(words[i]));
        }
        if exists|i: int| 0 <= i < words.len() && other.is_prefix_of(#[trigger] words[i]) {
            let i = choose|i: int| 0 <= i < words.len() && other.is_prefix_of(#[trigger] words[i]);
            if i < init.len() {
                assert(other.is_prefix_of(init[i]));
            }
        }
    }
}

/// Round trip: the walk of a trie built from some words gives each of them
/// once and nothing else, whatever the order in which they were stored.
pub proof fn law_build_words(words: Seq<Seq<char>>)
    requires
        Node::same_start(words),
    ensures
        Node::build(words).words().to_set() == words.to_set(),
        Node::build(words).words().no_duplicates(),
{
    let trie = Node::build(words);
    law_build(words, Seq::empty());
    assert forall|x: Seq<char>| trie.words().to_set().contains(x) <==> words.to_set().contains(
        x,
    ) by {
        law_build(words, x);
        law_words(trie, x);
    }
    law_words(trie, Seq::empty());
}

/// The size of a trie built from words that share their first `k`
/// characters and, two by two, no more: the lengths of the words added up,
/// less `k` for each word but one.
pub proof fn law_family_size(words: Seq<Seq<char>>, k: int)
    requires
        k >= 1,
        words.len() >= 1,
        forall|i: int| 0 <= i < words.len() ==> (#[trigger] words[i]).len() >= k,
        forall|i: int, j: int|
            0 <= i < j < words.len() ==> (#[trigger] words[i]).take(k)
                == (#[trigger] words[j]).take(k),
        forall|i: int, j: int|
            0 <= i < j < words.len() && (#[trigger] words[i]).len() > k
                && (#[trigger] words[j]).len() > k ==> words[i][k] != words[j][k],
    ensures
        Node::build(words).size() == Node::total_len(words) - (words.len() - 1) * k,
    decreases words.len(),
{
    if words.len() == 1 {
        law_chain_size(words[0]);
        assert(Node::total_len(words.drop_last()) == 0);
    } else {
        let init = words.drop_last();
        let word = words.last();
        let trie = Node::build(init);
        let m = init.len() as int;
        assert forall|i: int| 0 <= i < init.len() implies (#[trigger] init[i]) == words[i] by {}
        assert(Node::same_start(init)) by {
            assert forall|i: int| 0 <= i < init.len() implies (#[trigger] init[i]).len() > 0
                && init[i][0] == init[0][0] by {
                assert(init[i] == words[i]);
                assert(init[0] == words[0]);
                if i > 0 {
                    assert(words[0].take(k) == words[i].take(k));
                    assert(words[0].take(k)[0] == words[0][0]);
                    assert(words[i].take(k)[0] == words[i][0]);
                }
            }
        }
        law_family_size(init, k);
        law_build(init, word.take(k));
        law_insert_size(trie, word);
        // the trie has nodes for the first k characters of the word
        assert(trie.has_path(word.take(k))) by {
            assert(word.take(k).is_prefix_of(init[0]));
        }
        law_shared(trie, word, k);
        // and for no more
        if word.len() > k {
            law_shared(trie, word, k + 1);
            law_build(init, word.take(k + 1));
            if trie.has_path(word.take(k + 1)) {
                let i = choose|i: int|
                    0 <= i < init.len() && word.take(k + 1).is_prefix_of(#[trigger] init[i]);
                assert(word.take(k + 1)[k] == init[i].subrange(0, k + 1)[k]);
                assert(false);
            }
        }
        assert((m - 1) * k + k == m * k) by (nonlinear_arith);
    }
}

// Trimmed tries

/// Where every node without children ends a word, there is a word below
/// every node: no branch spells no word.
pub proof fn law_proper_has_word(node: Node)
    requires
        node.proper(),
    ensures
        node.contains(node.first_word()),
    decreases node,
{
    if !node.boundary {
        let child = node.children[0];
        let word = node.first_word();
        law_proper_has_word(child);
        assert(word.drop_first() =~= child.first_word());
    }
}

/// In a trimmed trie, every path below the root begins a stored word.
pub proof fn law_trimmed_path(node: Node, path: Seq<char>)
    requires
        node.trimmed(),
        node.has_path(path),
        path.len() > 1,
    ensures
        exists|word: Seq<char>| path.is_prefix_of(word) && node.contains(word),
    decreases path.len(),
{
    let p = Node::position(node.children, path[1]);
    let child = node.children[p];
    let tail = path.drop_first();
    if path.len() == 2 {
        law_proper_has_word(child);
        let word = seq![node.key] + child.first_word();
        assert(word.drop_first() =~= child.first_word());
        assert(path.is_prefix_of(word) && node.contains(word));
    } else {
        law_trimmed_path(child, tail);
        let below = choose|word: Seq<char>| tail.is_prefix_of(word) && child.contains(word);
        let word = seq![node.key] + below;
        assert(word.drop_first() =~= below);
        lemma_prefix_split(path, word);
        assert(path.is_prefix_of(word) && node.contains(word));
    }
}

} // verus!
