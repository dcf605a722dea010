//! Facts about sequences of nodes and about chains that the proofs lean on.

use vstd::prelude::*;
use crate::model::Node;

verus! {

/// What `Node::position` returns is in range, names a node with the key where
/// it is below the length, and no earlier node has the key.
pub proof fn lemma_position(nodes: Seq<Node>, c: char)
    ensures
        0 <= Node::position(nodes, c) <= nodes.len(),
        Node::position(nodes, c) < nodes.len() ==> nodes[Node::position(nodes, c)].key == c,
        forall|j: int| 0 <= j < Node::position(nodes, c) ==> (#[trigger] nodes[j]).key != c,
    decreases nodes.len(),
{
    if nodes.len() > 0 && nodes[0].key != c {
        let rest = nodes.drop_first();
        lemma_position(rest, c);
        assert forall|j: int| 0 <= j < Node::position(nodes, c) implies (#[trigger] nodes[j]).key
            != c by {
            if j > 0 {
                assert(nodes[j] == rest[j - 1]);
            }
        }
    }
}

/// An index with the properties of the first match is what `Node::position`
/// returns.
pub proof fn lemma_position_is(nodes: Seq<Node>, c: char, i: int)
    requires
        0 <= i <= nodes.len(),
        forall|j: int| 0 <= j < i ==> (#[trigger] nodes[j]).key != c,
        i < nodes.len() ==> nodes[i].key == c,
    ensures
        Node::position(nodes, c) == i,
    decreases nodes.len(),
{
    if nodes.len() > 0 && nodes[0].key != c {
        let rest = nodes.drop_first();
        assert forall|j: int| 0 <= j < i - 1 implies (#[trigger] rest[j]).key != c by {}
        lemma_position_is(rest, c, i - 1);
    }
}

/// The chain that spells a word has no two siblings with the same key, and
/// starts with the first character of the word.
pub proof fn lemma_chain_well_formed(word: Seq<char>)
    requires
        word.len() > 0,
    ensures
        Node::chain(word).well_formed(),
        Node::chain(word).key == word[0],
    decreases word.len(),
{
    if word.len() > 1 {
        lemma_chain_well_formed(word.drop_first());
    }
}

/// A node appended to a sequence adds its own nodes to the count.
pub proof fn lemma_size_among_push(nodes: Seq<Node>, node: Node)
    ensures
        Node::size_among(nodes.push(node)) == Node::size_among(nodes) + node.size(),
    decreases nodes.len(),
{
    let longer = nodes.push(node);
    if nodes.len() == 0 {
        assert(Node::size_among(longer.drop_first()) == 0);
    } else {
        assert(longer.drop_first() =~= nodes.drop_first().push(node));
        lemma_size_among_push(nodes.drop_first(), node);
    }
}

/// A node put in the place of another changes the count by the difference
/// of the two.
pub proof fn lemma_size_among_update(nodes: Seq<Node>, i: int, node: Node)
    requires
        0 <= i < nodes.len(),
    ensures
        Node::size_among(nodes.update(i, node)) == Node::size_among(nodes) - nodes[i].size()
            + node.size(),
    decreases nodes.len(),
{
    let changed = nodes.update(i, node);
    if i == 0 {
        assert(changed.drop_first() =~= nodes.drop_first());
    } else {
        assert(changed.drop_first() =~= nodes.drop_first().update(i - 1, node));
        lemma_size_among_update(nodes.drop_first(), i - 1, node);
    }
}

/// A node taken out of a sequence takes its own nodes out of the count.
pub proof fn lemma_size_among_remove(nodes: Seq<Node>, i: int)
    requires
        0 <= i < nodes.len(),
    ensures
        Node::size_among(nodes.remove(i)) == Node::size_among(nodes) - nodes[i].size(),
    decreases nodes.len(),
{
    if i > 0 {
        assert(nodes.remove(i).drop_first() =~= nodes.drop_first().remove(i - 1));
        lemma_size_among_remove(nodes.drop_first(), i - 1);
    }
}

/// Two sequences that are not empty are equal where their first elements
/// and what follows them are.
pub proof fn lemma_split(a: Seq<char>, b: Seq<char>)
    requires
        a.len() > 0,
        b.len() > 0,
    ensures
        a == b <==> a[0] == b[0] && a.drop_first() == b.drop_first(),
{
    if a[0] == b[0] && a.drop_first() == b.drop_first() {
        assert(b.len() == b.drop_first().len() + 1);
        assert forall|i: int| 0 <= i < a.len() implies a[i] == b[i] by {
            if i > 0 {
                assert(b[i] == b.drop_first()[i - 1]);
            }
        }
        assert(a =~= b);
    }
}

/// A sequence that is not empty is a prefix of another where the first
/// elements agree and what follows the one is a prefix of what follows the
/// other.
pub proof fn lemma_prefix_split(a: Seq<char>, b: Seq<char>)
    requires
        a.len() > 0,
        b.len() > 0,
    ensures
        a.is_prefix_of(b) <==> a[0] == b[0] && a.drop_first().is_prefix_of(b.drop_first()),
{
    let n = a.len() as int;
    if a.is_prefix_of(b) {
        assert forall|i: int| 0 <= i < n - 1 implies a.drop_first()[i] == b.drop_first().subrange(
            0,
            n - 1,
        )[i] by {}
    }
    if a[0] == b[0] && a.drop_first().is_prefix_of(b.drop_first()) {
        assert forall|i: int| 0 <= i < n implies a[i] == b.subrange(0, n)[i] by {
            if i > 0 {
                assert(a.drop_first()[i - 1] == b.drop_first().subrange(0, n - 1)[i - 1]);
            }
        }
    }
}

/// A node put in the place of one with the same key moves no first match.
pub proof fn lemma_position_update(nodes: Seq<Node>, i: int, node: Node, c: char)
    requires
        0 <= i < nodes.len(),
        node.key == nodes[i].key,
    ensures
        Node::position(nodes.update(i, node), c) == Node::position(nodes, c),
{
    lemma_position(nodes, c);
    lemma_position_is(nodes.update(i, node), c, Node::position(nodes, c));
}

/// A node appended is the first match only where no earlier node has the
/// key and it has it.
pub proof fn lemma_position_push(nodes: Seq<Node>, node: Node, c: char)
    ensures
        Node::position(nodes.push(node), c) == if Node::position(nodes, c) < nodes.len() {
            Node::position(nodes, c)
        } else if node.key == c {
            nodes.len() as int
        } else {
            nodes.len() as int + 1
        },
{
    lemma_position(nodes, c);
    let p = Node::position(nodes, c);
    let q = if p < nodes.len() {
        p
    } else if node.key == c {
        nodes.len() as int
    } else {
        nodes.len() as int + 1
    };
    lemma_position_is(nodes.push(node), c, q);
}

/// With distinct keys, a node taken out leaves its key without a match, and
/// the first match of every other key where it was, one down if it stood
/// behind.
pub proof fn lemma_position_remove(nodes: Seq<Node>, i: int, c: char)
    requires
        0 <= i < nodes.len(),
        Node::distinct_keys(nodes),
    ensures
        Node::position(nodes.remove(i), c) == if Node::position(nodes, c) < i {
            Node::position(nodes, c)
        } else if Node::position(nodes, c) == i {
            nodes.len() - 1
        } else {
            Node::position(nodes, c) - 1
        },
        Node::position(nodes, c) < i ==> nodes.remove(i)[Node::position(nodes, c)]
            == nodes[Node::position(nodes, c)],
        i < Node::position(nodes, c) < nodes.len() ==> nodes.remove(i)[Node::position(nodes, c) - 1]
            == nodes[Node::position(nodes, c)],
{
    lemma_position(nodes, c);
    let p = Node::position(nodes, c);
    let fewer = nodes.remove(i);
    let q = if p < i {
        p
    } else if p == i {
        nodes.len() - 1
    } else {
        p - 1
    };
    assert forall|j: int| 0 <= j < q implies (#[trigger] fewer[j]).key != c by {}
    lemma_position_is(fewer, c, q);
}

/// A chain has a node at the end of what begins its word, and nowhere else.
pub proof fn lemma_chain_paths(word: Seq<char>, path: Seq<char>)
    requires
        word.len() > 0,
    ensures
        Node::chain(word).has_path(path) <==> path.len() > 0 && path.is_prefix_of(word),
        Node::chain(word).contains(path) <==> path == word,
    decreases word.len(),
{
    if path.len() > 0 {
        lemma_split(path, word);
        lemma_prefix_split(path, word);
        if path[0] == word[0] {
            if word.len() == 1 && path.len() == 1 {
                assert(path.drop_first() =~= word.drop_first());
            }
            if word.len() > 1 && path.len() > 1 {
                lemma_chain_paths(word.drop_first(), path.drop_first());
            }
        }
    }
}

/// An element of two sequences put together is an element of one of them.
pub proof fn lemma_concat_contains(a: Seq<Seq<char>>, b: Seq<Seq<char>>, x: Seq<char>)
    ensures
        (a + b).contains(x) <==> a.contains(x) || b.contains(x),
{
    if a.contains(x) {
        let i = choose|i: int| 0 <= i < a.len() && a[i] == x;
        assert((a + b)[i] == x);
    }
    if b.contains(x) {
        let i = choose|i: int| 0 <= i < b.len() && b[i] == x;
        assert((a + b)[a.len() + i] == x);
    }
}

/// A word of some subtrees is a word of one of them.
pub proof fn lemma_words_among_contains(nodes: Seq<Node>, path: Seq<char>, x: Seq<char>)
    ensures
        Node::words_among(nodes, path).contains(x) <==> exists|i: int|
            0 <= i < nodes.len() && (#[trigger] nodes[i]).words_under(path).contains(x),
    decreases nodes.len(),
{
    if nodes.len() > 0 {
        let rest = nodes.drop_first();
        lemma_words_among_contains(rest, path, x);
        lemma_concat_contains(nodes[0].words_under(path), Node::words_among(rest, path), x);
        if exists|i: int|
            0 <= i < nodes.len() && (#[trigger] nodes[i]).words_under(path).contains(x) {
            let i = choose|i: int|
                0 <= i < nodes.len() && (#[trigger] nodes[i]).words_under(path).contains(x);
            if i > 0 {
                assert(rest[i - 1] == nodes[i]);
            }
        }
    }
}

/// The walks of two rows of subtrees, one row behind the other, are the
/// walk of the first row and behind it that of the second.
pub proof fn lemma_words_among_concat(a: Seq<Node>, b: Seq<Node>, path: Seq<char>)
    ensures
        Node::words_among(a + b, path) == Node::words_among(a, path) + Node::words_among(b, path),
    decreases a.len(),
{
    if a.len() > 0 {
        assert((a + b).drop_first() =~= a.drop_first() + b);
        lemma_words_among_concat(a.drop_first(), b, path);
    }
}

/// The walk of a row of subtrees is that of the subtrees before one of
/// them, that of the one, and that of the subtrees behind it.
pub proof fn lemma_words_among_split(nodes: Seq<Node>, i: int, path: Seq<char>)
    requires
        0 <= i < nodes.len(),
    ensures
        Node::words_among(nodes, path) == Node::words_among(nodes.take(i), path)
            + nodes[i].words_under(path) + Node::words_among(nodes.skip(i + 1), path),
{
    let rest = nodes.skip(i);
    assert(nodes =~= nodes.take(i) + rest);
    lemma_words_among_concat(nodes.take(i), rest, path);
    assert(rest.drop_first() =~= nodes.skip(i + 1));
}

/// The walk of a row of one subtree is the walk of that subtree.
pub proof fn lemma_words_among_one(node: Node, path: Seq<char>)
    ensures
        Node::words_among(seq![node], path) == node.words_under(path),
{
    assert(Node::words_among(seq![node].drop_first(), path) =~= Seq::empty());
}

/// The walk of a chain gives its word, and nothing else.
pub proof fn lemma_chain_words(word: Seq<char>, path: Seq<char>)
    requires
        word.len() > 0,
    ensures
        Node::chain(word).words_under(path) == seq![path + word],
    decreases word.len(),
{
    let here = path.push(word[0]);
    if word.len() == 1 {
        assert(here =~= path + word);
    } else {
        let rest = word.drop_first();
        lemma_chain_words(rest, here);
        assert(here + rest =~= path + word);
        lemma_words_among_one(Node::chain(rest), here);
    }
}

/// What is left of a single element after a filter.
pub proof fn lemma_filter_one(x: Seq<char>, pred: spec_fn(Seq<char>) -> bool)
    ensures
        seq![x].filter(pred) == if pred(x) {
            seq![x]
        } else {
            Seq::empty()
        },
{
    reveal_with_fuel(Seq::filter, 2);
}

/// A filter that every element passes leaves the sequence as it is.
pub proof fn lemma_filter_all(s: Seq<Seq<char>>, pred: spec_fn(Seq<char>) -> bool)
    requires
        forall|i: int| 0 <= i < s.len() ==> pred(#[trigger] s[i]),
    ensures
        s.filter(pred) == s,
    decreases s.len(),
{
    reveal(Seq::filter);
    if s.len() > 0 {
        lemma_filter_all(s.drop_last(), pred);
    }
}

} // verus!
